//! A bounded-capacity key/value cache that evicts the least-recently-used
//! entry when full, with a text variant whose state is kept as a
//! line-oriented snapshot.
pub mod key;
pub mod cache;
pub mod trait_cache;
pub mod laws;
pub mod snapshot;
pub mod persistent;

pub use key::CacheKey;
pub use cache::LruCache;
pub use trait_cache::CacheOps;
pub use persistent::PersistentLruCache;
