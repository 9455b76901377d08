//! A fixed-capacity, single-threaded least-recently-used cache.
//!
//! The cache combines a hash index (key to slot handle) with a doubly-linked
//! recency list threaded through an arena of entry slots, so that both
//! `insert` and `get` run in amortized constant time while the list keeps the
//! live keys ordered from least-recently used (tail) to most-recently used
//! (head).

pub mod cache;
pub mod iter;
pub mod lru;

pub use crate::cache::Cache;
pub use crate::iter::IntoIter;
pub use crate::lru::Node;
pub use crate::lru::SyncNaiveLru;
pub use crate::lru::detached;
pub use crate::lru::has_key;
pub use crate::lru::inserted;
pub use crate::lru::key_index;
pub use crate::lru::promoted;
