//! Bounded caches and a sharded map: a ring buffer of slots, an LRU cache
//! kept in an index-linked arena, a lock-protected LRU, and a map split into
//! lock-protected shards.

pub mod key_model;
pub mod cache;
pub mod concurrent;
pub mod circular_window_cache;
