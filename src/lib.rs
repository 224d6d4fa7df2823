//! Short links: fingerprint a URL into a six-character code, keep colliding
//! URLs apart by an ordinal, route records into partitions by the code's first
//! character, and resolve presented codes through a cache in front of the store.

pub mod error;
pub mod codec;
pub mod partition;
pub mod store;
pub mod reader;
