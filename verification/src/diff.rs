//! Diffs: the rows they are taken for, their lines and files, and what is looked up in them.

pub mod anchor;
pub mod content;
pub mod data;
pub mod emphasis;
pub mod files;
pub mod hunk;
pub mod line;
pub mod options;
pub mod patch;
pub mod row;
pub mod time;
