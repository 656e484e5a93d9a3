//! What a git history viewer decides: the diffs it shows and keeps, the writes it allows, and what it
//! is asked for.

pub mod apply;
pub mod bytes;
pub mod chars;
pub mod cli;
pub mod config;
pub mod diff;
pub mod diff_cache;
pub mod diff_store;
pub mod highlight;
pub mod mem;
pub mod oid;
pub mod order;
pub mod text;
pub mod word_diff;
