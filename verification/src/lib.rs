//! # `connpool` - a verified, generic connection pool
//!
//! A pool keeps values for reuse, and limits how many are lent out at a time, with a global limit
//! and with local limits.
pub mod cache;
pub mod concurrent_limited_multimap;
pub mod effects;
pub mod history;
pub mod lane;
pub mod laws;
pub mod limits;
pub mod model;
pub mod pool;
pub mod semaphore;

pub use concurrent_limited_multimap::ConcurrentLimitedMultimap;
pub use pool::{Item, Pool, Pull, Stage, Waiter};
