//! Staging, unstaging and reverting a hunk or a file.

pub mod fit;
pub mod request;
pub mod restore;
pub mod write;
