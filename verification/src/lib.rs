//! A fixed-capacity key/value cache with least-recently-used eviction.
//!
//! The eviction engine ([`cache::memory::MemoryCache`]) keeps its entries in a
//! hash index and threads a recency order through them with key-indirected
//! `prev`/`next` links, so every operation is O(1) in the number of entries
//! and no aliased pointers are needed. A simpler variant
//! ([`cache::lru::LRUCache`]) keeps the recency order in a vector instead.
//! The durable wrapper ([`cache::persistent::PersistentCache`]) composes one
//! engine with a line-oriented `key=value` text encoding; reading and writing
//! the file itself is left to the embedding program.
//!
//! Every public operation carries a contract that pins its result and its
//! effect on the cache's model, a sequence of key/value pairs in
//! most-recently-used-first order; the laws the cache obeys are stated and
//! proved in [`laws`].

pub mod cache;
pub mod engine;
pub mod error;
pub mod laws;
pub mod model;
