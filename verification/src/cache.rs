//! The cache implementations: the key-linked eviction engine, the simpler
//! vector-ordered variant, and the durable wrapper.

pub mod lru;
pub mod memory;
pub mod persistent;
pub mod traits;
