//! A map split into shards, each behind its own reader-writer lock; a key's
//! shard is its hash modulo the number of shards.
use std::collections::HashMap;
use std::collections::hash_map::DefaultHasher;
use std::hash::{Hash, Hasher};
use std::sync::atomic::{AtomicUsize, Ordering};
use vstd::prelude::*;
use vstd::rwlock::RwLock;
use vstd::std_specs::iter::IteratorSpec;
use vstd::pervasive::{cloned, strictly_cloned};
use vstd::std_specs::hash::{obeys_key_model, spec_keys_iter, DefaultHasherAdditionalSpecFns};
use crate::key_model::{clone_is_identity, lawful_key};

verus! {

broadcast use vstd::std_specs::hash::group_hash_axioms;

/// A hash function for the keys of a sharded map.
pub trait ShardHasher<K> {
    /// Whether the hasher may be called on `key`.
    spec fn accepts(&self, key: K) -> bool;

    /// Whether `h` is a hash the hasher may give for `key`.
    spec fn hashes_to(&self, key: K, h: u64) -> bool;

    fn hash_key(&self, key: &K) -> (h: u64)
        requires
            self.accepts(*key),
        ensures
            self.hashes_to(*key, h),
    ;
}

/// The hasher gives each key at most one hash.
pub open spec fn deterministic<K, H: ShardHasher<K>>(hasher: H) -> bool {
    forall|k: K, a: u64, b: u64|
        #[trigger] hasher.hashes_to(k, a) && #[trigger] hasher.hashes_to(k, b) ==> a == b
}

/// A closure used as a hash function.
pub struct FnHasher<F> {
    f: F,
}

impl<F> FnHasher<F> {
    pub closed spec fn func(&self) -> F {
        self.f
    }
}

impl<K, F: Fn(&K) -> u64> ShardHasher<K> for FnHasher<F> {
    open spec fn accepts(&self, key: K) -> bool {
        self.func().requires((&key,))
    }

    open spec fn hashes_to(&self, key: K, h: u64) -> bool {
        self.func().ensures((&key,), h)
    }

    fn hash_key(&self, key: &K) -> (h: u64) {
        (self.f)(key)
    }
}

/// Hashes keys with the standard library's default hasher.
pub struct DefaultShardHasher;

impl<K: Hash> ShardHasher<K> for DefaultShardHasher {
    open spec fn accepts(&self, key: K) -> bool {
        true
    }

    /// The digest of some sequence of writes; which one is up to the key's
    /// `Hash` impl. This does not depend on the key, so `deterministic` cannot
    /// be shown of this hasher, and the guarantees of `ShardMap::keys` that
    /// rest on it say nothing of maps made by `with_default_hash`.
    open spec fn hashes_to(&self, key: K, h: u64) -> bool {
        exists|writes: Seq<Seq<u8>>| h == DefaultHasher::spec_finish(writes)
    }

    fn hash_key(&self, key: &K) -> (h: u64) {
        default_hash(key)
    }
}

/// Calls `Hash::hash` of the key's type, which writes `key` into the
/// standard library's `DefaultHasher`. Nothing is claimed of what it writes:
/// that is up to the key type's `Hash` impl.
#[verifier::external_body]
fn feed_hasher<T: Hash + ?Sized>(key: &T, state: &mut DefaultHasher) {
    key.hash(state);
}

/// Hashes `key` with a fresh default hasher.
pub fn default_hash<T: Hash + ?Sized>(key: &T) -> (h: u64)
    ensures
        exists|writes: Seq<Seq<u8>>| h == DefaultHasher::spec_finish(writes),
{
    let mut hasher = DefaultHasher::new();
    feed_hasher(key, &mut hasher);
    hasher.finish()
}

/// The hash the hasher gives for `key`, when it gives one.
pub open spec fn hash_of<K, H: ShardHasher<K>>(hasher: H, key: K) -> u64 {
    choose|h: u64| hasher.hashes_to(key, h)
}

/// The shard, out of `cnt`, that the hash `h` picks.
pub open spec fn shard_for(h: u64, cnt: u64) -> int {
    (h % cnt) as int
}

/// What the lock of shard `i` holds at every moment: when the hasher is
/// deterministic, only keys whose hash picks shard `i`.
pub open spec fn shard_inv<K, V, H: ShardHasher<K>>(hasher: H, cnt: u64, i: int) -> spec_fn(
    HashMap<K, V>,
) -> bool {
    |m: HashMap<K, V>|
        deterministic::<K, H>(hasher) ==> forall|k: K| #[trigger]
            m@.contains_key(k) ==> exists|h: u64| #[trigger]
                hasher.hashes_to(k, h) && shard_for(h, cnt) == i
}

/// `r` is what a lookup of `key` in a shard holding `m` gives: a clone of
/// the value stored under `key`, or nothing when `key` is absent.
pub open spec fn lookup_post<K, V: Clone>(m: Map<K, V>, key: K, r: Option<V>) -> bool {
    match r {
        Some(v) => m.contains_key(key) && cloned(m[key], v),
        None => !m.contains_key(key),
    }
}

/// `r` is what a lookup of `key` gives in some state of a shard: when it is
/// a value, a clone of one stored under `key`.
pub open spec fn looked_up<K, V: Clone>(key: K, r: Option<V>) -> bool {
    exists|m: Map<K, V>| #[trigger] lookup_post(m, key, r)
}

/// A clone of the value that `shard` holds for `key`, if any.
pub fn lookup_cloned<K: Eq + Hash, V: Clone>(shard: &HashMap<K, V>, key: &K) -> (r: Option<V>)
    requires
        obeys_key_model::<K>(),
    ensures
        lookup_post(shard@, *key, r),
{
    match shard.get(key) {
        Some(v) => Some(v.clone()),
        None => None,
    }
}

/// What `insert_if_absent` on a shard holding `m` does: a present key keeps
/// its value and a clone of it comes back with `false`; an absent key gets a
/// clone of `value`, and `value` comes back with `true`.
pub open spec fn insert_if_absent_post<K, V: Clone>(
    m: Map<K, V>,
    key: K,
    value: V,
    r: (V, bool),
    m2: Map<K, V>,
) -> bool {
    if m.contains_key(key) {
        &&& !r.1
        &&& m2 == m
        &&& cloned(m[key], r.0)
    } else {
        &&& r.1
        &&& r.0 == value
        &&& m2.dom() == m.dom().insert(key)
        &&& m2.remove(key) == m
        &&& cloned(value, m2[key])
    }
}

/// Stores a clone of `value` under `key` unless `key` is present. Returns
/// `value` and `true` when it stored, else a clone of the present value and `false`.
pub fn insert_if_absent<K: Eq + Hash, V: Clone>(shard: &mut HashMap<K, V>, key: K, value: V) -> (r: (
    V,
    bool,
))
    requires
        obeys_key_model::<K>(),
    ensures
        insert_if_absent_post(old(shard)@, key, value, r, final(shard)@),
{
    let present = match shard.get(&key) {
        Some(v) => Some(v.clone()),
        None => None,
    };
    match present {
        Some(v) => (v, false),
        None => {
            let stored = value.clone();
            shard.insert(key, stored);
            proof {
                assert(final(shard)@.remove(key) =~= old(shard)@);
            }
            (value, true)
        },
    }
}

/// Set-if-absent twice with one key: the second call stores nothing and
/// hands back a clone of what the first left under the key.
pub proof fn lemma_insert_if_absent_twice<K, V: Clone>(
    m0: Map<K, V>,
    m1: Map<K, V>,
    m2: Map<K, V>,
    key: K,
    v1: V,
    v2: V,
    r1: (V, bool),
    r2: (V, bool),
)
    requires
        insert_if_absent_post(m0, key, v1, r1, m1),
        insert_if_absent_post(m1, key, v2, r2, m2),
    ensures
        m1.contains_key(key),
        !r2.1,
        m2 == m1,
        cloned(m1[key], r2.0),
        r1.1 <==> !m0.contains_key(key),
{
    if !m0.contains_key(key) {
        assert(m1.dom().contains(key));
    }
}

/// The map built from lookups of `keys`, `found[i]` being the lookup of
/// `keys[i]`: each key found goes in with its value, a later lookup of the
/// same key replacing an earlier one; `n` lookups taken.
pub open spec fn found_upto<K, V>(keys: Seq<&K>, found: Seq<Option<V>>, n: nat) -> Map<K, V>
    decreases n,
{
    if n == 0 {
        Map::empty()
    } else {
        let m = found_upto(keys, found, (n - 1) as nat);
        match found[n - 1] {
            Some(v) => m.insert(*keys[n - 1], v),
            None => m,
        }
    }
}

/// Builds the answer of a multi-key lookup from the lookups of each asked key.
pub fn collect_found<K: Eq + Hash + Clone, V>(keys: &[&K], found: Vec<Option<V>>) -> (res: HashMap<
    K,
    V,
>)
    requires
        lawful_key::<K>(),
        found@.len() == keys@.len(),
    ensures
        res@ == found_upto(keys@, found@, keys@.len() as nat),
{
    let ghost f0 = found@;
    let mut found = found;
    let mut res: HashMap<K, V> = HashMap::with_capacity(keys.len());
    let mut i: usize = 0;
    while i < keys.len()
        invariant
            lawful_key::<K>(),
            f0.len() == keys@.len(),
            i <= keys@.len(),
            found@.len() == f0.len(),
            forall|j: int| i <= j < f0.len() ==> #[trigger] found@[j] == f0[j],
            res@ == found_upto(keys@, f0, i as nat),
        decreases keys@.len() - i,
    {
        let v = found[i].take();
        match v {
            Some(x) => {
                let k = keys[i].clone();
                proof {
                    assert(strictly_cloned(*keys@[i as int], k));
                }
                res.insert(k, x);
            },
            None => {},
        }
        i = i + 1;
    }
    res
}

/// Sequences joined in order.
pub open spec fn concat_all<K>(parts: Seq<Seq<K>>) -> Seq<K>
    decreases parts.len(),
{
    if parts.len() == 0 {
        Seq::empty()
    } else {
        concat_all(parts.drop_last()) + parts.last()
    }
}

/// Each part holds exactly the keys of the shard state beside it.
pub open spec fn keys_of_shards<K, V>(parts: Seq<Seq<K>>, maps: Seq<Map<K, V>>) -> bool {
    &&& parts.len() == maps.len()
    &&& forall|j: int| 0 <= j < parts.len() ==> (#[trigger] parts[j]).to_set() == maps[j].dom()
}

/// The joined sequence holds exactly the items of its parts.
pub proof fn lemma_concat_all_members<K>(parts: Seq<Seq<K>>)
    ensures
        forall|j: int, q: int|
            0 <= j < parts.len() && 0 <= q < parts[j].len() ==> concat_all(parts).contains(
                #[trigger] parts[j][q],
            ),
        forall|x: K| #[trigger]
            concat_all(parts).contains(x) ==> exists|j: int, q: int|
                0 <= j < parts.len() && 0 <= q < parts[j].len() && #[trigger] parts[j][q] == x,
    decreases parts.len(),
{
    if parts.len() > 0 {
        let init = parts.drop_last();
        lemma_concat_all_members(init);
        let a = concat_all(init);
        let b = parts.last();
        let c = concat_all(parts);
        assert(c == a + b);
        assert forall|j: int, q: int|
            0 <= j < parts.len() && 0 <= q < parts[j].len() implies c.contains(#[trigger] parts[j][q]) by {
            if j < init.len() {
                assert(init[j] == parts[j]);
                assert(a.contains(init[j][q]));
                let p = choose|p: int| 0 <= p < a.len() && a[p] == init[j][q];
                assert(c[p] == a[p]);
            } else {
                assert(c[a.len() + q] == b[q]);
            }
        }
        assert forall|x: K| #[trigger] c.contains(x) implies exists|j: int, q: int|
            0 <= j < parts.len() && 0 <= q < parts[j].len() && #[trigger] parts[j][q] == x by {
            let p = choose|p: int| 0 <= p < c.len() && c[p] == x;
            if p < a.len() {
                assert(a[p] == x);
                assert(a.contains(x));
                let (j, q) = choose|j: int, q: int|
                    0 <= j < init.len() && 0 <= q < init[j].len() && #[trigger] init[j][q] == x;
                assert(parts[j] == init[j]);
            } else {
                let q = p - a.len();
                assert(b[q] == x);
                assert(parts[parts.len() - 1][q] == x);
            }
        }
    }
}

/// Appends the keys of `shard` to `out`, each once.
pub fn append_keys<K: Eq + Hash + Clone, V>(shard: &HashMap<K, V>, out: &mut Vec<K>)
    requires
        lawful_key::<K>(),
    ensures
        final(out)@.len() >= old(out)@.len(),
        final(out)@.take(old(out)@.len() as int) == old(out)@,
        final(out)@.skip(old(out)@.len() as int).no_duplicates(),
        final(out)@.skip(old(out)@.len() as int).to_set() == shard@.dom(),
{
    let ghost start = out@;
    let ghost ks = spec_keys_iter(shard).remaining().unref();
    for key in it: shard.keys()
        invariant
            it.seq().unref() == ks,
            out@ == start + ks.take(it.index()),
            clone_is_identity::<K>(),
    {
        let k = key.clone();
        proof {
            assert(strictly_cloned(*key, k));
            assert(k == *key);
            assert(*key == ks[it.index()]);
            assert(ks.take(it.index() + 1) =~= ks.take(it.index()).push(*key));
        }
        out.push(k);
    }
    proof {
        assert(out@.take(start.len() as int) =~= start);
        assert(out@.skip(start.len() as int) =~= ks);
    }
}

/// A map split into `shard_cnt` shards, each behind a reader-writer lock.
#[verifier::reject_recursive_types(K)]
#[verifier::reject_recursive_types(V)]
pub struct ShardMap<K, V, H = DefaultShardHasher> where K: Eq + Hash + 'static, H: ShardHasher<K> {
    shard_cnt: u64,
    hash_fun: H,
    shards: Vec<RwLock<HashMap<K, V>, spec_fn(HashMap<K, V>) -> bool>>,
    size: AtomicUsize,
}

impl<K: Eq + Hash + 'static, V, H: ShardHasher<K>> ShardMap<K, V, H> {
    /// The number of shards.
    pub closed spec fn shard_count(&self) -> nat {
        self.shard_cnt as nat
    }

    /// The hash function that picks a key's shard.
    pub closed spec fn hasher(&self) -> H {
        self.hash_fun
    }

    /// Each shard's lock keeps the keys that its hash picks.
    #[verifier::type_invariant]
    spec fn inv(&self) -> bool {
        &&& obeys_key_model::<K>()
        &&& self.shards@.len() == self.shard_cnt
        &&& forall|i: int|
            0 <= i < self.shards@.len() ==> (#[trigger] self.shards@[i]).pred() == shard_inv::<
                K,
                V,
                H,
            >(self.hash_fun, self.shard_cnt, i)
    }

    fn build(shard_cnt: u64, hash_fun: H) -> (m: Self)
        requires
            obeys_key_model::<K>(),
            shard_cnt <= usize::MAX,
        ensures
            m.shard_count() == shard_cnt,
            m.hasher() == hash_fun,
    {
        let mut shards: Vec<RwLock<HashMap<K, V>, spec_fn(HashMap<K, V>) -> bool>> = Vec::new();
        let mut n: u64 = 0;
        while n < shard_cnt
            invariant
                n <= shard_cnt <= usize::MAX,
                shards@.len() == n,
                forall|i: int|
                    0 <= i < n ==> (#[trigger] shards@[i]).pred() == shard_inv::<K, V, H>(
                        hash_fun,
                        shard_cnt,
                        i,
                    ),
            decreases shard_cnt - n,
        {
            let ghost pred = shard_inv::<K, V, H>(hash_fun, shard_cnt, n as int);
            let empty: HashMap<K, V> = HashMap::new();
            shards.push(RwLock::new(empty, Ghost(pred)));
            n = n + 1;
        }
        Self { shard_cnt, hash_fun, shards, size: AtomicUsize::new(0) }
    }

    /// The shard that `key` lands on.
    fn get_shard_idx(&self, key: &K) -> (r: usize)
        requires
            self.shard_count() > 0,
            self.hasher().accepts(*key),
        ensures
            r < self.shards@.len(),
            exists|h: u64| #[trigger] self.hasher().hashes_to(*key, h) && shard_for(h, self.shard_cnt) == r,
    {
        proof {
            use_type_invariant(self);
        }
        let hash = self.hash_fun.hash_key(key);
        let n = self.shards.len();
        let r = hash % self.shard_cnt;
        assert(self.hasher().hashes_to(*key, hash));
        assert(r < n);
        r as usize
    }

    /// The lock of the shard that `key` lands on.
    fn get_shard(&self, key: &K) -> (r: &RwLock<HashMap<K, V>, spec_fn(HashMap<K, V>) -> bool>)
        requires
            self.shard_count() > 0,
            self.hasher().accepts(*key),
        ensures
            exists|h: u64| #[trigger]
                self.hasher().hashes_to(*key, h) && r.pred() == shard_inv::<K, V, H>(
                    self.hasher(),
                    self.shard_cnt,
                    shard_for(h, self.shard_cnt),
                ),
    {
        proof {
            use_type_invariant(self);
        }
        let idx = self.get_shard_idx(key);
        &self.shards[idx]
    }

    /// A clone of the value stored under `key` when its shard was read, if any.
    /// What the shard holds depends on the other threads.
    pub fn get(&self, key: &K) -> (r: Option<V>) where V: Clone
        requires
            self.shard_count() > 0,
            self.hasher().accepts(*key),
        ensures
            looked_up(*key, r),
    {
        proof {
            use_type_invariant(self);
        }
        let shard = self.get_shard(key);
        let handle = shard.acquire_read();
        let r = lookup_cloned(handle.borrow(), key);
        proof {
            assert(lookup_post(handle.view()@, *key, r));
        }
        handle.release_read();
        r
    }

    /// The keys of `keys` that were present when their shard was read, with
    /// clones of their values: `collect_found` of the lookups, one per asked
    /// key in order, each a lookup of its key in a state of its shard.
    pub fn get_many(&self, keys: &[&K]) -> (res: HashMap<K, V>) where K: Clone, V: Clone
        requires
            keys@.len() > 0 ==> self.shard_count() > 0,
            clone_is_identity::<K>(),
            forall|i: int| 0 <= i < keys@.len() ==> self.hasher().accepts(*#[trigger] keys@[i]),
        ensures
            exists|found: Seq<Option<V>>|
                {
                    &&& found.len() == keys@.len()
                    &&& res@ == #[trigger] found_upto(keys@, found, keys@.len() as nat)
                    &&& forall|i: int| 0 <= i < found.len() ==> #[trigger] looked_up(*keys@[i], found[i])
                },
    {
        proof {
            use_type_invariant(self);
        }
        let mut found: Vec<Option<V>> = Vec::new();
        let mut i: usize = 0;
        while i < keys.len()
            invariant
                keys@.len() > 0 ==> self.shard_count() > 0,
                i <= keys@.len(),
                found@.len() == i,
                forall|j: int| 0 <= j < keys@.len() ==> self.hasher().accepts(*#[trigger] keys@[j]),
                forall|j: int| 0 <= j < i ==> #[trigger] looked_up(*keys@[j], found@[j]),
            decreases keys@.len() - i,
        {
            proof {
                use_type_invariant(self);
            }
            let key: &K = keys[i];
            let shard = self.get_shard(key);
            let handle = shard.acquire_read();
            let value = lookup_cloned(handle.borrow(), key);
            proof {
                assert(lookup_post(handle.view()@, *key, value));
            }
            handle.release_read();
            found.push(value);
            i = i + 1;
        }
        let ghost f = found@;
        let res = collect_found(keys, found);
        assert(res@ == found_upto(keys@, f, keys@.len() as nat));
        res
    }

    /// Stores `value` under `key` unless the key is present; returns `value`
    /// when it stored, else a clone of the present value. Which of the two
    /// happens depends on the other threads.
    pub fn setnx(&self, key: K, value: V) -> (r: V) where K: Clone, V: Clone
        requires
            self.shard_count() > 0,
            self.hasher().accepts(key),
        ensures
            exists|m0: Map<K, V>, m1: Map<K, V>, inserted: bool|
                #[trigger] insert_if_absent_post(m0, key, value, (r, inserted), m1),
    {
        proof {
            use_type_invariant(self);
        }
        let shard = self.get_shard(&key);
        let ghost h = choose|h: u64| #[trigger]
            self.hasher().hashes_to(key, h) && shard.pred() == shard_inv::<K, V, H>(
                self.hasher(),
                self.shard_cnt,
                shard_for(h, self.shard_cnt),
            );
        let (mut map, handle) = shard.acquire_write();
        let ghost k0 = key;
        let ghost old_map = map;
        let (r, inserted) = insert_if_absent(&mut map, key, value);
        if inserted {
            self.size.fetch_add(1, Ordering::Relaxed);
        }
        proof {
            let i = shard_for(h, self.shard_cnt);
            if deterministic::<K, H>(self.hasher()) {
                assert forall|k: K| #[trigger] map@.contains_key(k) implies exists|x: u64| #[trigger]
                    self.hasher().hashes_to(k, x) && shard_for(x, self.shard_cnt) == i by {
                    if k == k0 {
                        assert(self.hasher().hashes_to(k, h));
                    } else {
                        assert(old_map@.contains_key(k));
                    }
                }
            }
        }
        assert(insert_if_absent_post(old_map@, k0, value, (r, inserted), map@));
        handle.release_write(map);
        r
    }

    /// The keys present when each shard was read, each once when the hash
    /// function is deterministic (a key then lives in one shard only).
    pub fn keys(&self) -> (res: Vec<K>) where K: Clone
        requires
            clone_is_identity::<K>(),
        ensures
            deterministic::<K, H>(self.hasher()) ==> res@.no_duplicates(),
            exists|parts: Seq<Seq<K>>|
                {
                    &&& parts.len() == self.shard_count()
                    &&& res@ == #[trigger] concat_all(parts)
                    &&& forall|j: int| 0 <= j < parts.len() ==> (#[trigger] parts[j]).no_duplicates()
                    &&& deterministic::<K, H>(self.hasher()) ==> forall|j: int, q: int|
                        0 <= j < parts.len() && 0 <= q < parts[j].len() ==> hash_of(
                            self.hasher(),
                            #[trigger] parts[j][q],
                        ) as int % (self.shard_count() as int) == j
                },
            exists|parts: Seq<Seq<K>>, maps: Seq<Map<K, V>>|
                {
                    &&& parts.len() == self.shard_count()
                    &&& res@ == concat_all(parts)
                    &&& #[trigger] keys_of_shards(parts, maps)
                },
    {
        let (res, maps) = self.keys_with_shards();
        proof {
            let parts = choose|parts: Seq<Seq<K>>| {
                &&& parts.len() == self.shard_count()
                &&& res@ == #[trigger] concat_all(parts)
                &&& forall|j: int| 0 <= j < parts.len() ==> (#[trigger] parts[j]).no_duplicates()
                    && parts[j].to_set() == maps@[j].dom()
                &&& deterministic::<K, H>(self.hasher()) ==> forall|j: int, q: int|
                    0 <= j < parts.len() && 0 <= q < parts[j].len() ==> hash_of(
                        self.hasher(),
                        #[trigger] parts[j][q],
                    ) as int % (self.shard_count() as int) == j
            };
            assert(res@ == concat_all(parts));
            assert(keys_of_shards(parts, maps@));
        }
        res
    }

    /// The keys of each shard as it was read, in shard order, with what each
    /// shard held when read: every key a shard held comes back, and only those.
    pub fn keys_with_shards(&self) -> (res: (Vec<K>, Ghost<Seq<Map<K, V>>>)) where K: Clone
        requires
            clone_is_identity::<K>(),
        ensures
            res.1@.len() == self.shard_count(),
            forall|j: int, k: K|
                0 <= j < res.1@.len() && #[trigger] res.1@[j].contains_key(k) ==> res.0@.contains(k),
            forall|x: K| #[trigger]
                res.0@.contains(x) ==> exists|j: int| 0 <= j < res.1@.len() && #[trigger] res.1@[j].contains_key(x),
            deterministic::<K, H>(self.hasher()) ==> res.0@.no_duplicates(),
            exists|parts: Seq<Seq<K>>|
                {
                    &&& parts.len() == self.shard_count()
                    &&& res.0@ == #[trigger] concat_all(parts)
                    &&& forall|j: int| 0 <= j < parts.len() ==> (#[trigger] parts[j]).no_duplicates()
                        && parts[j].to_set() == res.1@[j].dom()
                    &&& deterministic::<K, H>(self.hasher()) ==> forall|j: int, q: int|
                        0 <= j < parts.len() && 0 <= q < parts[j].len() ==> hash_of(
                            self.hasher(),
                            #[trigger] parts[j][q],
                        ) as int % (self.shard_count() as int) == j
                },
    {
        proof {
            use_type_invariant(self);
        }
        let capacity = self.len();
        let mut res: Vec<K> = Vec::with_capacity(capacity);
        let mut i: usize = 0;
        let ghost hs = self.hasher();
        let ghost cnt = self.shard_cnt;
        let ghost mut parts: Seq<Seq<K>> = Seq::empty();
        let ghost mut maps: Seq<Map<K, V>> = Seq::empty();
        while i < self.shards.len()
            invariant
                parts.len() == i,
                maps.len() == i,
                res@ == concat_all(parts),
                forall|j: int| 0 <= j < parts.len() ==> (#[trigger] parts[j]).no_duplicates(),
                forall|j: int| 0 <= j < parts.len() ==> (#[trigger] parts[j]).to_set() == maps[j].dom(),
                deterministic::<K, H>(hs) ==> forall|j: int, q: int|
                    0 <= j < parts.len() && 0 <= q < parts[j].len() ==> hash_of(
                        hs,
                        #[trigger] parts[j][q],
                    ) as int % (cnt as int) == j,
                    hs == self.hasher(),
                cnt == self.shard_cnt,
                clone_is_identity::<K>(),
                i <= self.shards@.len(),
                deterministic::<K, H>(hs) ==> res@.no_duplicates(),
                deterministic::<K, H>(hs) ==> forall|p: int|
                    #![trigger res@[p]]
                    0 <= p < res@.len() ==> hs.hashes_to(res@[p], hash_of(hs, res@[p])) && shard_for(
                        hash_of(hs, res@[p]),
                        cnt,
                    ) < i,
            decreases self.shards@.len() - i,
        {
            proof {
                use_type_invariant(self);
            }
            let handle = self.shards[i].acquire_read();
            let ghost before = res@;
            append_keys(handle.borrow(), &mut res);
            proof {
                let m = handle.view();
                let added = res@.skip(before.len() as int);
                assert(res@ =~= before + added);
                if deterministic::<K, H>(hs) {
                    assert forall|p: int|
                        #![trigger added[p]]
                        0 <= p < added.len() implies hs.hashes_to(added[p], hash_of(hs, added[p]))
                            && shard_for(hash_of(hs, added[p]), cnt) == i by {
                        assert(added.to_set().contains(added[p]));
                        assert(m@.contains_key(added[p]));
                        let x = choose|x: u64| #[trigger]
                            hs.hashes_to(added[p], x) && shard_for(x, cnt) == i;
                        assert(hs.hashes_to(added[p], x));
                        assert(hs.hashes_to(added[p], hash_of(hs, added[p])));
                    }
                    assert forall|p: int, q: int|
                        0 <= p < res@.len() && 0 <= q < res@.len() && p != q implies res@[p]
                        != res@[q] by {
                        if p < before.len() && q >= before.len() {
                            assert(res@[q] == added[q - before.len()]);
                            assert(res@[p] == before[p]);
                        } else if q < before.len() && p >= before.len() {
                            assert(res@[p] == added[p - before.len()]);
                            assert(res@[q] == before[q]);
                        } else if p >= before.len() && q >= before.len() {
                            assert(added[p - before.len()] != added[q - before.len()]);
                        } else {
                            assert(res@[p] == before[p]);
                            assert(res@[q] == before[q]);
                        }
                    }
                    assert forall|p: int|
                        #![trigger res@[p]]
                        0 <= p < res@.len() implies hs.hashes_to(res@[p], hash_of(hs, res@[p]))
                            && shard_for(hash_of(hs, res@[p]), cnt) < i + 1 by {
                        if p >= before.len() {
                            assert(res@[p] == added[p - before.len()]);
                        } else {
                            assert(res@[p] == before[p]);
                        }
                    }
                }
                let old_parts = parts;
                let old_maps = maps;
                parts = parts.push(added);
                maps = maps.push(m@);
                assert forall|j: int| 0 <= j < parts.len() implies (#[trigger] parts[j]).to_set() == maps[j].dom() by {
                    if j < i {
                        assert(parts[j] == old_parts[j]);
                        assert(maps[j] == old_maps[j]);
                    }
                }
                assert(parts.drop_last() =~= old_parts);
                assert(parts[i as int] == added);
                assert forall|j: int, q: int|
                    deterministic::<K, H>(hs) && 0 <= j < parts.len() && 0 <= q < parts[j].len()
                        implies hash_of(hs, #[trigger] parts[j][q]) as int % (cnt as int) == j by {
                    if j < i {
                        assert(parts[j] == old_parts[j]);
                    } else {
                        assert(parts[j][q] == added[q]);
                    }
                }
                assert forall|j: int| 0 <= j < parts.len() implies (#[trigger] parts[j]).no_duplicates() by {
                    if j < i {
                        assert(parts[j] == old_parts[j]);
                    }
                }
            }
            handle.release_read();
            i = i + 1;
        }
        proof {
            assert(parts.len() == self.shard_count());
            lemma_concat_all_members(parts);
            assert forall|j: int, k: K|
                0 <= j < maps.len() && #[trigger] maps[j].contains_key(k) implies res@.contains(k) by {
                assert(parts[j].to_set().contains(k));
                let q = choose|q: int| 0 <= q < parts[j].len() && parts[j][q] == k;
                assert(concat_all(parts).contains(parts[j][q]));
            }
            assert forall|x: K| #[trigger] res@.contains(x) implies exists|j: int|
                0 <= j < maps.len() && #[trigger] maps[j].contains_key(x) by {
                let (j, q) = choose|j: int, q: int|
                    0 <= j < parts.len() && 0 <= q < parts[j].len() && #[trigger] parts[j][q] == x;
                assert(parts[j].to_set().contains(x));
                assert(maps[j].contains_key(x));
            }
        }
        (res, Ghost(maps))
    }

    /// The count of keys stored so far, read without a lock.
    pub fn len(&self) -> (n: usize) {
        self.size.load(Ordering::Relaxed)
    }

    pub fn is_empty(&self) -> (b: bool) {
        self.len() == 0
    }
}

impl<K: Eq + Hash + 'static, V, F: Fn(&K) -> u64 + Send + Sync + 'static> ShardMap<K, V, FnHasher<F>> {
    /// A map of `shard_cnt` empty shards whose keys are placed by `hash_fun`.
    pub fn new(shard_cnt: u64, hash_fun: F) -> (m: Self)
        requires
            obeys_key_model::<K>(),
            shard_cnt <= usize::MAX,
        ensures
            m.shard_count() == shard_cnt,
            m.hasher().func() == hash_fun,
    {
        Self::build(shard_cnt, FnHasher { f: hash_fun })
    }
}

impl<K: Eq + Hash + 'static, V> ShardMap<K, V, DefaultShardHasher> {
    /// A map of `shard_cnt` empty shards whose keys are placed by `default_hash`.
    pub fn with_default_hash(shard_cnt: u64) -> (m: Self)
        requires
            obeys_key_model::<K>(),
            shard_cnt <= usize::MAX,
        ensures
            m.shard_count() == shard_cnt,
    {
        Self::build(shard_cnt, DefaultShardHasher)
    }
}

} // verus!
