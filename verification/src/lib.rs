//! A small filesystem search-and-sort engine: records describing directory
//! entries, a total preorder on them (directories first, then names
//! ascending), a merge sort proved against that order, substring search over
//! an in-memory directory tree, and the queue bookkeeping of a fixed-size
//! worker pool with least-loaded dispatch.
//!
//! Directory enumeration, serialization for a host UI, and the actual
//! worker threads are left to the surrounding application; this crate holds
//! the decisions and computations they share.
pub mod pool;
pub mod record;
pub mod search;
pub mod sort;
pub mod strcmp;
