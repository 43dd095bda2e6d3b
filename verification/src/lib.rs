//! The core of `lit`, a small version control system: the object, index and configuration
//! formats, the path rules, the repository layout and the decisions behind each command.

pub mod add;
pub mod bytes;
pub mod cat_file;
pub mod commit;
pub mod config;
pub mod digest;
pub mod format;
pub mod hex;
pub mod index;
pub mod init;
pub mod layout;
pub mod litfile;
pub mod messages;
pub mod migrate;
pub mod names;
pub mod object;
pub mod os;
pub mod path;
pub mod path_map;
pub mod pathspec;
pub mod print;
pub mod refs;
pub mod repo_path;
pub mod report;
pub mod repository;
pub mod text;
pub mod timestamp;
pub mod tree_builder;
pub mod utf8;
pub mod walk;
pub mod workspace;
