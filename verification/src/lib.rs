//! Default applications for MIME types: association lists, desktop entries
//! and the selector that lets the user pick a handler.
#![allow(unused_imports)]

pub mod association_laws;
pub mod config_file;
pub mod desktop_entry;
pub mod desktop_file;
pub mod desktop_list;
pub mod error;
pub mod field_code;
pub mod ini;
pub mod media_type;
pub mod mime_apps;
pub mod mime_file;
pub mod mime_map;
pub mod report;
pub mod resolve;
pub mod selector;
pub mod template;
pub mod text;
pub mod user_path;
pub mod wildcard;
