//! The navigation core of a file browser: listings of directories with a
//! cursor, a cache of them keyed by path, and the transitions of a tab from
//! one directory to the next. The filesystem is not touched here: what was
//! read of it is handed in as plain values.

pub mod commands;
pub mod dirlist;
pub mod entry;
pub mod history;
pub mod input;
pub mod mimetype;
pub mod path;
pub mod sort;
pub mod tab;
