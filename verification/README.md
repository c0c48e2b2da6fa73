# handlr

Default applications for MIME types: which program opens which file or URL.

- `src/` is the library. Every function states in its contract what it computes,
  and Verus proves it.
  - `mime_apps`, `mime_map`, `desktop_list`, `media_type`, `wildcard`: the
    associations of MIME types with handlers, and how they change.
  - `ini`, `mime_file`: the text of a `mimeapps.list`.
  - `association_laws`: what holds across several of these operations.
  - `desktop_file`, `desktop_entry`, `field_code`: desktop entries, and the
    commands that they give.
  - `template`, `selector`, `resolve`: the selector that lets the user pick a
    handler, and when it is run.
  - `config_file`, `user_path`, `error`, `report`, `text`: the configuration, what
    can go wrong, messages for the log, and plain text.
- `app/` is ordinary Rust around it: files, the configuration on disk, and the
  processes that are started.
- `tests/` runs the library.

Calls into other crates stand behind small functions whose contracts are not
proved; their doc comments say what is claimed of the call.
