//! A memoizing cache around a pure function, with pluggable eviction
//! strategies, plus a small queue that serves items by priority or by age.

pub mod fingerprint;
pub mod memo;
pub mod queue;
pub mod store;

pub use fingerprint::Fingerprint;
pub use memo::CustomPolicy;
pub use memo::EvictionPolicy;
pub use memo::Memoizer;
pub use memo::NoEviction;
pub use queue::BiPriorityQueue;
pub use queue::Item;
pub use queue::Mode;
pub use store::CacheEntry;
pub use store::CacheStore;
