//! The launcher's pool of installed applications.
pub mod discover;
pub mod laws;
pub mod names;
pub mod pool;
pub mod registry;
pub mod targets;
pub mod tools;
