//! A byte-budgeted, two-tier cache: the eviction engine of the persistent tier
//! and a small in-process tier, both stated over mathematical models and
//! proved against them.

pub mod bytes;
pub mod codec;
pub mod disk;
pub mod error;
pub mod laws;
pub mod lru;
pub mod model;
pub mod object_data;
pub mod planner;
pub mod recency;

pub use disk::{Commit, MultiLayerCache, Op, StoredEntry};
pub use error::CreedmoorError;
pub use lru::{LruBytes, LruEntry};
pub use object_data::{CacheEntry, ObjectData};
pub use recency::{RecencyIndex, RecencyRecord};
pub use planner::gather_keys_for_eviction;
