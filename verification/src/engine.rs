//! The eviction engine's building blocks: the entry type and the traits the
//! cache implementations share.

pub mod node;
pub mod traits;
