pub mod shard_map;
