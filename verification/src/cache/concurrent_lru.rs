//! An LRU cache shared between threads behind a reader-writer lock.
use std::hash::Hash;
use vstd::prelude::*;
use vstd::rwlock::RwLock;
use crate::cache::lru::{
    distinct_keys, has_key, key_index, lemma_get_after_put, lemma_put_entries, put_result, Lru,
};
use crate::key_model::lawful_key;

verus! {

/// What the lock of a cache of capacity `cap` holds at every moment: a
/// well-formed LRU cache of that capacity.
pub open spec fn holds_cache<K: Eq + Hash + Clone, V>(cap: nat) -> spec_fn(Lru<K, V>) -> bool {
    |lru: Lru<K, V>| lru.wf() && lru.spec_capacity() == cap
}

/// `v` is a clone of the value that a well-formed cache of capacity `cap`
/// holds under `key`.
pub open spec fn held_in_cache<K: Eq + Hash + Clone, V: Clone>(cap: nat, key: K, v: V) -> bool {
    exists|lru: Lru<K, V>|
        #[trigger] holds_cache::<K, V>(cap)(lru) && has_key(lru@, key) && cloned(
            lru@[key_index(lru@, key)].1,
            v,
        )
}

/// What a `put(k, v)` leaves in the cache: `k` is present with value `v`,
/// every other key keeps its value or is the one evicted, the cache holds
/// no more than its capacity, and the count grows by one only for a new key
/// in a cache that was not full.
pub proof fn lemma_put_leaves_value<K, V>(cap: nat, s0: Seq<(K, V)>, s1: Seq<(K, V)>, k: K, v: V)
    requires
        cap > 0,
        distinct_keys(s0),
        s0.len() <= cap,
        s1 == put_result(s0, cap, k, v),
    ensures
        has_key(s1, k),
        s1[key_index(s1, k)].1 == v,
        distinct_keys(s1),
        s1.len() <= cap,
        s1.len() == (if has_key(s0, k) || s0.len() == cap { s0.len() } else { s0.len() + 1 }),
        forall|q: K| q != k && #[trigger] has_key(s1, q) ==> has_key(s0, q) && s1[key_index(s1, q)].1
            == s0[key_index(s0, q)].1,
{
    lemma_get_after_put(s0, cap, k, v);
    lemma_put_entries(s0, cap, k, v);
}

/// An LRU cache behind a lock; every operation takes the lock for its whole run.
#[verifier::reject_recursive_types(K)]
#[verifier::reject_recursive_types(V)]
pub struct ConcurrentLru<K, V> where K: Eq + Hash + Clone, V: Clone {
    inner: RwLock<Lru<K, V>, spec_fn(Lru<K, V>) -> bool>,
    cap: Ghost<nat>,
}

impl<K, V> ConcurrentLru<K, V> where K: Eq + Hash + Clone, V: Clone {
    /// The capacity the cache was made with.
    pub closed spec fn spec_capacity(&self) -> nat {
        self.cap@
    }

    /// The lock holds a well-formed cache of the capacity it was made with.
    #[verifier::type_invariant]
    spec fn inv(&self) -> bool {
        self.inner.pred() == holds_cache::<K, V>(self.cap@)
    }

    pub fn new(capacity: usize) -> (c: Self)
        requires
            capacity > 0,
            lawful_key::<K>(),
        ensures
            c.spec_capacity() == capacity,
    {
        let lru = Lru::new(capacity);
        let ghost pred = holds_cache::<K, V>(capacity as nat);
        Self { inner: RwLock::new(lru, Ghost(pred)), cap: Ghost(capacity as nat) }
    }

    /// Stores `value` under `key`, as `Lru::put` does on the locked cache.
    /// Returns the entries the cache held when the lock was taken and those
    /// it holds when the lock is let go; what it holds later also depends on
    /// the other threads. The cache stays well formed and keeps its capacity.
    pub fn put(&self, key: K, value: V) -> (r: Ghost<(Seq<(K, V)>, Seq<(K, V)>)>)
        ensures
            distinct_keys(r@.0),
            r@.0.len() <= self.spec_capacity(),
            r@.1 == put_result(r@.0, self.spec_capacity(), key, value),
    {
        proof {
            use_type_invariant(self);
        }
        let (mut lru, handle) = self.inner.acquire_write();
        let ghost before = lru@;
        proof {
            lru.lemma_bounded();
        }
        lru.put(key, value);
        let ghost after = lru@;
        handle.release_write(lru);
        Ghost((before, after))
    }

    /// Looks `key` up and hands back a clone of its value; a hit makes the entry
    /// the most recently used. Which entries are present depends on the other threads.
    pub fn get(&self, key: &K) -> (r: Option<V>)
        ensures
            r matches Some(v) ==> held_in_cache(self.spec_capacity(), *key, v),
    {
        proof {
            use_type_invariant(self);
        }
        let (mut lru, handle) = self.inner.acquire_write();
        let ghost before = lru;
        let r = match lru.get(key) {
            Some(v) => Some(v.clone()),
            None => None,
        };
        proof {
            if r is Some {
                assert(holds_cache::<K, V>(self.cap@)(before));
            }
        }
        handle.release_write(lru);
        r
    }

    /// The number of entries at the moment the lock was held; never above the capacity.
    pub fn len(&self) -> (n: usize)
        ensures
            n <= self.spec_capacity(),
    {
        proof {
            use_type_invariant(self);
        }
        let handle = self.inner.acquire_read();
        let lru = handle.borrow();
        proof {
            lru.lemma_bounded();
        }
        let n = lru.len();
        handle.release_read();
        n
    }

    /// Whether the cache held no entry at the moment the lock was held.
    pub fn is_empty(&self) -> (b: bool)
    {
        proof {
            use_type_invariant(self);
        }
        let handle = self.inner.acquire_read();
        let b = handle.borrow().len() == 0;
        handle.release_read();
        b
    }

    pub fn capacity(&self) -> (c: usize)
        ensures
            c == self.spec_capacity(),
    {
        proof {
            use_type_invariant(self);
        }
        let handle = self.inner.acquire_read();
        let c = handle.borrow().capacity();
        handle.release_read();
        c
    }
}

} // verus!
