pub mod ring_buffer;
pub mod lru;
pub mod concurrent_lru;
