//! The in-memory index of file names and the searches over it.

pub mod apps;
pub mod batch;
pub mod cache;
pub mod ext;
pub mod installed;
pub mod laws;
pub mod live;
pub mod order;
pub mod path;
pub mod plan;
pub mod scan;
pub mod search;
pub mod search_laws;
pub mod store;
pub mod tree_laws;
