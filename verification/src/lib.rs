//! Counting the files of a directory tree by extension, and naming backups.

pub mod backup;
pub mod scanner;
