# cache_kit

Bounded caches and a sharded map. The single-threaded structures (ring
buffer, LRU cache) and every step that the lock-protected ones perform on
what they read are stated as contracts and proved; what a lock-protected
structure holds across calls from several threads is not.

- `src/cache/ring_buffer.rs`: a fixed ring of slots addressed by unbounded
  logical indices, with the index arithmetic and its laws.
- `src/cache/lru.rs`: a least-recently-used cache kept in an arena of nodes
  linked by index; its view is the list of entries, most recently used first.
- `src/cache/concurrent_lru.rs`: the LRU cache behind a reader-writer lock.
- `src/concurrent/shard_map.rs`: a map split into lock-protected shards chosen
  by a key hash, with the per-shard operations stated exactly.
- `src/circular_window_cache.rs`: time windows of quality-tagged points.
- `src/key_model.rs`: what a key type must satisfy for hash maps to behave as maps.
- `app/`: the process-wide window layout, the wall clock, and `f64` points.

## Design notes

- Locks: the lock-protected structures use `vstd::rwlock::RwLock`, whose
  predicate carries each structure's invariant across lock acquisitions. The
  `parking_lot` line in `Cargo.toml` is not used by `src/` or `app/`:
  `parking_lot`'s write guard is reached through `DerefMut`, which Verus does
  not support, so a verified body could not read or change what it guards.
- `ShardMap<K, V, H>` carries its hash function as a type parameter `H:
  ShardHasher<K>`. Verus cannot call a boxed `dyn Fn` or a function pointer,
  so `ShardMap::new` takes any closure (wrapped in `FnHasher`) and
  `ShardMap::with_default_hash` uses `DefaultShardHasher`; the two
  constructors therefore return maps of different types.
