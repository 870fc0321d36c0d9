//! A per-key vector of items whose active subset is versioned by block
//! height, so that the items active at any past height can be listed, with
//! optional expiration of each entry.

pub mod active;
pub mod expiration;
pub mod laws;
pub mod msg;
pub mod vector_map;

pub use expiration::{BlockInfo, Duration, Expiration};
pub use vector_map::{LoadedItem, SnapshotVectorMap, VectorMapError};
