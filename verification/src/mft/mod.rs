//! NTFS volumes: their records, and the journal that tells of changes.

pub mod laws;
pub mod numbers;
pub mod reader;
pub mod record;
pub mod types;
pub mod watcher;
