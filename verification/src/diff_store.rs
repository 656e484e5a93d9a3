//! Diffs kept on disk between runs: how an entry is written, and what it is found by.

pub mod codec;
pub mod key;
pub mod prune;
pub mod store;
