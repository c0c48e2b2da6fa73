[package]
name = "handlr"
version = "0.1.0"
edition = "2021"
publish = false

[dependencies]
confy = "*"
execute = "*"
freedesktop_entry_parser = "*"
itertools = "*"
lazy-regex = "*"
mime = "*"
serde = { version = "1", features = ["derive"] }
serde_ini = "*"
tracing = "*"
wildmatch = "*"
xdg = "*"
