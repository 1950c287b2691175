//! A least-recently-used cache whose entries live in an arena of nodes
//! linked by index, most recently used first.
use std::collections::HashMap;
use std::hash::Hash;
use vstd::prelude::*;
use vstd::pervasive::strictly_cloned;
use crate::key_model::lawful_key;

verus! {

broadcast use vstd::std_specs::hash::group_hash_axioms;

type Index = usize;

/// Whether an entry list holds an entry for `k`.
pub open spec fn has_key<K, V>(s: Seq<(K, V)>, k: K) -> bool {
    exists|i: int| 0 <= i < s.len() && s[i].0 == k
}

/// The position of the entry for `k` in an entry list that holds one.
pub open spec fn key_index<K, V>(s: Seq<(K, V)>, k: K) -> int {
    choose|i: int| 0 <= i < s.len() && s[i].0 == k
}

/// No key occurs twice in an entry list.
pub open spec fn distinct_keys<K, V>(s: Seq<(K, V)>) -> bool {
    forall|i: int, j: int|
        0 <= i < s.len() && 0 <= j < s.len() && i != j ==> #[trigger] s[i].0 != #[trigger] s[j].0
}

/// The entry list after the entry for `k` is used: it moves to the front.
pub open spec fn touched<K, V>(s: Seq<(K, V)>, k: K) -> Seq<(K, V)> {
    let i = key_index(s, k);
    seq![s[i]] + s.remove(i)
}

/// The entry list after `put(k, v)` on a cache of capacity `cap`: an existing
/// entry for `k` takes the new value and moves to the front; otherwise, when
/// the cache is full, the least recently used entry (the last) is evicted, and
/// the new entry goes to the front.
pub open spec fn put_result<K, V>(s: Seq<(K, V)>, cap: nat, k: K, v: V) -> Seq<(K, V)> {
    if has_key(s, k) {
        seq![(k, v)] + s.remove(key_index(s, k))
    } else if s.len() >= cap {
        seq![(k, v)] + s.drop_last()
    } else {
        seq![(k, v)] + s
    }
}

/// The map from key to value that an entry list stands for.
pub open spec fn entry_map<K, V>(s: Seq<(K, V)>) -> Map<K, V> {
    Map::new(|k: K| has_key(s, k), |k: K| s[key_index(s, k)].1)
}

/// In an entry list without repeated keys, the entry at `i` is the one found for its key.
pub proof fn lemma_key_index_unique<K, V>(s: Seq<(K, V)>, i: int)
    requires
        distinct_keys(s),
        0 <= i < s.len(),
    ensures
        has_key(s, s[i].0),
        key_index(s, s[i].0) == i,
{
    let k = s[i].0;
    assert(s[i].0 == k);
    let j = key_index(s, k);
    assert(0 <= j < s.len() && s[j].0 == k);
}

/// Using an entry moves it to the front and changes nothing else: the same
/// keys map to the same values, the length stays, and no key repeats.
pub proof fn lemma_touch_keeps_entries<K, V>(s: Seq<(K, V)>, k: K)
    requires
        distinct_keys(s),
        has_key(s, k),
    ensures
        entry_map(touched(s, k)) == entry_map(s),
        touched(s, k).len() == s.len(),
        touched(s, k)[0] == s[key_index(s, k)],
        distinct_keys(touched(s, k)),
{
    let i = key_index(s, k);
    let t = touched(s, k);
    assert(t.len() == s.len());
    assert forall|a: int| 0 <= a < t.len() implies #[trigger] t[a] == s[if a == 0 {
        i
    } else if a <= i {
        a - 1
    } else {
        a
    }] by {}
    assert forall|a: int, b: int|
        0 <= a < t.len() && 0 <= b < t.len() && a != b implies #[trigger] t[a].0 != #[trigger] t[b].0 by {
        let sa = if a == 0 { i } else if a <= i { a - 1 } else { a };
        let sb = if b == 0 { i } else if b <= i { b - 1 } else { b };
        assert(t[a] == s[sa]);
        assert(t[b] == s[sb]);
    }
    assert forall|q: K| has_key(t, q) <==> has_key(s, q) by {
        if has_key(s, q) {
            let j = key_index(s, q);
            let a = if j == i { 0 } else if j < i { j + 1 } else { j };
            assert(t[a] == s[j]);
        }
        if has_key(t, q) {
            let a = key_index(t, q);
            let sa = if a == 0 { i } else if a <= i { a - 1 } else { a };
            assert(t[a] == s[sa]);
        }
    }
    assert forall|q: K| has_key(s, q) implies entry_map(t)[q] == entry_map(s)[q] by {
        let j = key_index(s, q);
        let a = if j == i { 0 } else if j < i { j + 1 } else { j };
        assert(t[a] == s[j]);
        lemma_key_index_unique(t, a);
    }
    assert(entry_map(t) =~= entry_map(s));
}

/// What `put(k, v)` does to the map of entries: `k` maps to `v` afterwards; the
/// other keys keep their values, except that a new key in a full cache evicts
/// the least recently used key. No key repeats, the capacity is respected,
/// and `k` becomes the most recently used entry.
pub proof fn lemma_put_entries<K, V>(s: Seq<(K, V)>, cap: nat, k: K, v: V)
    requires
        distinct_keys(s),
        s.len() <= cap,
        cap > 0,
    ensures
        ({
            let r = put_result(s, cap, k, v);
            &&& distinct_keys(r)
            &&& r.len() <= cap
            &&& r[0] == (k, v)
            &&& has_key(r, k)
            &&& key_index(r, k) == 0
            &&& entry_map(r) == (if has_key(s, k) || s.len() < cap {
                entry_map(s).insert(k, v)
            } else {
                entry_map(s).remove(s.last().0).insert(k, v)
            })
            &&& r.len() == (if has_key(s, k) {
                s.len()
            } else if s.len() < cap {
                s.len() + 1
            } else {
                s.len()
            })
        }),
{
    let r = put_result(s, cap, k, v);
    // `rest` is the list behind the new front entry, and `src(a)` the position
    // in `s` that position `a + 1` of `r` comes from.
    let evict = !has_key(s, k) && s.len() >= cap;
    let i = if has_key(s, k) { key_index(s, k) } else { s.len() as int };
    let rest = if has_key(s, k) { s.remove(i) } else if evict { s.drop_last() } else { s };
    assert(r == seq![(k, v)] + rest);
    assert forall|a: int| 0 <= a < rest.len() implies #[trigger] rest[a] == s[if a < i { a } else { a + 1 }] by {}
    assert forall|a: int| 0 <= a < rest.len() implies #[trigger] rest[a].0 != k by {
        let j = if a < i { a } else { a + 1 };
        assert(rest[a] == s[j]);
        if has_key(s, k) {
            assert(s[i].0 == k);
        } else {
            assert(!(s[j].0 == k));
        }
    }
    assert forall|a: int, b: int|
        0 <= a < r.len() && 0 <= b < r.len() && a != b implies #[trigger] r[a].0 != #[trigger] r[b].0 by {
        if a == 0 {
            assert(r[b] == rest[b - 1]);
        } else if b == 0 {
            assert(r[a] == rest[a - 1]);
        } else {
            let ja = if a - 1 < i { a - 1 } else { a };
            let jb = if b - 1 < i { b - 1 } else { b };
            assert(r[a] == rest[a - 1] && rest[a - 1] == s[ja]);
            assert(r[b] == rest[b - 1] && rest[b - 1] == s[jb]);
        }
    }
    assert(r[0] == (k, v));
    lemma_key_index_unique(r, 0);
    let expected = if has_key(s, k) || s.len() < cap {
        entry_map(s).insert(k, v)
    } else {
        entry_map(s).remove(s.last().0).insert(k, v)
    };
    assert forall|q: K| #[trigger] has_key(r, q) <==> expected.dom().contains(q) by {
        if q != k {
            if has_key(r, q) {
                let a = key_index(r, q);
                assert(r[a] == rest[a - 1]);
                let j = if a - 1 < i { a - 1 } else { a };
                assert(rest[a - 1] == s[j]);
                assert(has_key(s, q));
                if evict {
                    assert(j != s.len() - 1);
                    lemma_key_index_unique(s, j);
                    assert(s.last() == s[s.len() - 1]);
                    if s.last().0 == q {
                        lemma_key_index_unique(s, s.len() - 1);
                    }
                }
            }
            if expected.dom().contains(q) {
                let j = key_index(s, q);
                assert(s[j].0 == q);
                if evict {
                    assert(j != s.len() - 1);
                }
                if has_key(s, k) {
                    assert(j != i);
                }
                let a = if j < i { j } else { j - 1 };
                assert(rest[a] == s[j]);
                assert(r[a + 1] == rest[a]);
            }
        }
    }
    assert forall|q: K| #[trigger] expected.dom().contains(q) implies entry_map(r)[q] == expected[q] by {
        if q != k {
            let j = key_index(s, q);
            assert(s[j].0 == q);
            if evict {
                assert(j != s.len() - 1);
            }
            if has_key(s, k) {
                assert(j != i);
            }
            let a = if j < i { j } else { j - 1 };
            assert(rest[a] == s[j]);
            assert(r[a + 1] == rest[a]);
            lemma_key_index_unique(r, a + 1);
        }
    }
    assert(entry_map(r) =~= expected);
}

/// A read right after a write: after `put(k, v)`, looking `k` up finds `v`
/// and leaves the entries as they are, since `k` is already the most
/// recently used.
pub proof fn lemma_get_after_put<K, V>(s: Seq<(K, V)>, cap: nat, k: K, v: V)
    requires
        distinct_keys(s),
        s.len() <= cap,
        cap > 0,
    ensures
        has_key(put_result(s, cap, k, v), k),
        put_result(s, cap, k, v)[key_index(put_result(s, cap, k, v), k)].1 == v,
        touched(put_result(s, cap, k, v), k) == put_result(s, cap, k, v),
{
    lemma_put_entries(s, cap, k, v);
    let r = put_result(s, cap, k, v);
    assert(touched(r, k) =~= r);
}

/// One call on a cache: `put(k, v)` or `get(k)`.
pub enum LruOp<K, V> {
    Put(K, V),
    Get(K),
}

/// The entry list after one call on a cache of capacity `cap`.
pub open spec fn apply_op<K, V>(s: Seq<(K, V)>, cap: nat, op: LruOp<K, V>) -> Seq<(K, V)> {
    match op {
        LruOp::Put(k, v) => put_result(s, cap, k, v),
        LruOp::Get(k) => if has_key(s, k) {
            touched(s, k)
        } else {
            s
        },
    }
}

/// The entry list after a run of calls on a new cache of capacity `cap`.
pub open spec fn run_ops<K, V>(cap: nat, ops: Seq<LruOp<K, V>>) -> Seq<(K, V)>
    decreases ops.len(),
{
    if ops.len() == 0 {
        Seq::empty()
    } else {
        apply_op(run_ops(cap, ops.drop_last()), cap, ops.last())
    }
}

/// The distinct keys passed to `put` in a run of calls.
pub open spec fn put_keys<K, V>(ops: Seq<LruOp<K, V>>) -> Set<K>
    decreases ops.len(),
{
    if ops.len() == 0 {
        Set::empty()
    } else {
        let d = put_keys(ops.drop_last());
        match ops.last() {
            LruOp::Put(k, v) => d.insert(k),
            LruOp::Get(k) => d,
        }
    }
}

/// After any run of calls on a new cache, it holds as many entries as
/// distinct keys were put, up to its capacity, so it is empty exactly when
/// nothing was put; `get` never changes the count. Every key it holds was
/// put, and while no more distinct keys than the capacity were put, it
/// holds all of them.
pub proof fn lemma_len_after_ops<K, V>(cap: nat, ops: Seq<LruOp<K, V>>)
    requires
        cap > 0,
    ensures
        put_keys(ops).finite(),
        distinct_keys(run_ops(cap, ops)),
        run_ops(cap, ops).len() == (if put_keys(ops).len() < cap {
            put_keys(ops).len()
        } else {
            cap
        }),
        run_ops(cap, ops).len() == 0 <==> put_keys(ops).len() == 0,
        forall|q: K| #[trigger] has_key(run_ops(cap, ops), q) ==> put_keys(ops).contains(q),
        put_keys(ops).len() <= cap ==> forall|q: K|
            #[trigger] put_keys(ops).contains(q) ==> has_key(run_ops(cap, ops), q),
    decreases ops.len(),
{
    if ops.len() > 0 {
        let prev = ops.drop_last();
        lemma_len_after_ops(cap, prev);
        let s = run_ops(cap, prev);
        let d = put_keys(prev);
        let r = run_ops(cap, ops);
        let d2 = put_keys(ops);
        match ops.last() {
            LruOp::Put(k, v) => {
                lemma_put_entries(s, cap, k, v);
                assert(r == put_result(s, cap, k, v));
                assert(d2 == d.insert(k));
                assert forall|q: K| has_key(r, q) <==> entry_map(r).dom().contains(q) by {}
                assert forall|q: K| has_key(s, q) <==> entry_map(s).dom().contains(q) by {}
                if has_key(s, k) {
                    assert(d.contains(k));
                    assert(d2 =~= d);
                } else if s.len() < cap {
                    assert(!d.contains(k));
                } else {
                    if d2.len() <= cap {
                        assert(d.contains(k));
                    }
                }
            },
            LruOp::Get(k) => {
                assert(d2 == d);
                if has_key(s, k) {
                    lemma_touch_keeps_entries(s, k);
                    assert forall|q: K| has_key(r, q) <==> has_key(s, q) by {
                        assert(entry_map(r).dom().contains(q) == has_key(r, q));
                        assert(entry_map(s).dom().contains(q) == has_key(s, q));
                    }
                }
            },
        }
    }
}

struct Node<K, V> {
    key: K,
    value: V,
    prev: Option<Index>,
    next: Option<Index>,
}

/// The neighbour before position `p` of a list of arena indices.
spec fn prev_in(ord: Seq<Index>, p: int) -> Option<Index> {
    if p == 0 {
        None
    } else {
        Some(ord[p - 1])
    }
}

/// The neighbour after position `p` of a list of arena indices.
spec fn next_in(ord: Seq<Index>, p: int) -> Option<Index> {
    if p == ord.len() - 1 {
        None
    } else {
        Some(ord[p + 1])
    }
}

/// A least-recently-used cache of at most `capacity` entries.
pub struct Lru<K, V> where K: Eq + Hash {
    capacity: usize,
    len: usize,
    head: Option<Index>,
    tail: Option<Index>,
    map: HashMap<K, Index>,
    arena: Vec<Node<K, V>>,
    free: Vec<usize>,
    /// The arena indices of the live entries, most recently used first.
    order: Ghost<Seq<Index>>,
}

impl<K: Eq + Hash + Clone, V> View for Lru<K, V> {
    type V = Seq<(K, V)>;

    /// The entries, most recently used first.
    closed spec fn view(&self) -> Seq<(K, V)> {
        self.order@.map_values(|i: Index| (self.arena@[i as int].key, self.arena@[i as int].value))
    }
}

impl<K: Eq + Hash + Clone, V> Lru<K, V> {
    /// The greatest number of entries the cache holds.
    pub closed spec fn spec_capacity(&self) -> nat {
        self.capacity as nat
    }

    /// The linked list threaded through the arena follows `order`.
    spec fn list_wf(&self) -> bool {
        let ord = self.order@;
        let a = self.arena@;
        &&& forall|p: int| 0 <= p < ord.len() ==> (#[trigger] ord[p] as int) < a.len()
        &&& ord.no_duplicates()
        &&& forall|p: int|
            0 <= p < ord.len() ==> (#[trigger] a[ord[p] as int]).prev == prev_in(ord, p)
                && a[ord[p] as int].next == next_in(ord, p)
        &&& self.head == (if ord.len() == 0 {
            None
        } else {
            Some(ord[0])
        })
        &&& self.tail == (if ord.len() == 0 {
            None
        } else {
            Some(ord.last())
        })
    }

    /// The key map sends each live key to its node, and only live keys.
    spec fn map_wf(&self) -> bool {
        let ord = self.order@;
        let a = self.arena@;
        &&& forall|p: int|
            0 <= p < ord.len() ==> self.map@.contains_key(#[trigger] a[ord[p] as int].key)
                && self.map@[a[ord[p] as int].key] == ord[p]
        &&& forall|k: K| #[trigger]
            self.map@.contains_key(k) ==> ord.contains(self.map@[k]) && a[self.map@[k] as int].key
                == k
    }

    /// The cache's internal invariant.
    pub closed spec fn wf(&self) -> bool {
        &&& lawful_key::<K>()
        &&& self.list_wf()
        &&& self.map_wf()
        &&& self.capacity > 0
        &&& self.len == self.order@.len()
        &&& self.arena@.len() == self.order@.len()
        &&& self.len <= self.capacity
        &&& self.free@.len() == 0
    }

    proof fn lemma_view_distinct(&self)
        requires
            self.list_wf(),
            self.map_wf(),
        ensures
            distinct_keys(self@),
            self@.len() == self.order@.len(),
    {
        let s = self@;
        assert forall|i: int, j: int|
            0 <= i < s.len() && 0 <= j < s.len() && i != j implies #[trigger] s[i].0
            != #[trigger] s[j].0 by {
            let a = self.arena@;
            let ord = self.order@;
            assert(self.map@[a[ord[i] as int].key] == ord[i]);
            assert(self.map@[a[ord[j] as int].key] == ord[j]);
        }
    }

    /// A well-formed cache holds at most `capacity` entries, no key twice,
    /// and its capacity is positive.
    pub proof fn lemma_bounded(&self)
        requires
            self.wf(),
        ensures
            self@.len() <= self.spec_capacity(),
            self.spec_capacity() > 0,
            distinct_keys(self@),
    {
        self.lemma_view_distinct();
    }

    /// Creates an empty cache that holds at most `capacity` entries.
    pub fn new(capacity: usize) -> (lru: Self)
        requires
            capacity > 0,
            lawful_key::<K>(),
        ensures
            lru.wf(),
            lru@ == Seq::<(K, V)>::empty(),
            lru.spec_capacity() == capacity,
    {
        let lru = Self {
            capacity,
            len: 0,
            head: None,
            tail: None,
            map: HashMap::with_capacity(capacity),
            arena: Vec::with_capacity(capacity),
            free: Vec::new(),
            order: Ghost(Seq::empty()),
        };
        assert(lru@ =~= Seq::<(K, V)>::empty());
        lru
    }

    pub fn capacity(&self) -> (c: usize)
        ensures
            c == self.spec_capacity(),
    {
        self.capacity
    }

    pub fn len(&self) -> (n: usize)
        requires
            self.wf(),
        ensures
            n == self@.len(),
    {
        self.len
    }

    pub fn is_empty(&self) -> (b: bool)
        requires
            self.wf(),
        ensures
            b == (self@.len() == 0),
    {
        self.len() == 0
    }

    /// Links node `idx`, not yet in the list, in at the front.
    fn insert_head(&mut self, idx: Index)
        requires
            old(self).list_wf(),
            idx < old(self).arena@.len(),
            !old(self).order@.contains(idx),
        ensures
            final(self).list_wf(),
            final(self).order@ == seq![idx] + old(self).order@,
            final(self).arena@.len() == old(self).arena@.len(),
            forall|i: int|
                0 <= i < final(self).arena@.len() && i != idx && old(self).head != Some(i as Index)
                    ==> #[trigger] final(self).arena@[i] == old(self).arena@[i],
            forall|i: int|
                0 <= i < final(self).arena@.len() ==> (#[trigger] final(self).arena@[i]).key == old(self).arena@[i].key
                    && final(self).arena@[i].value == old(self).arena@[i].value,
            final(self).map == old(self).map,
            final(self).capacity == old(self).capacity,
            final(self).len == old(self).len,
            final(self).free == old(self).free,
    {
        let ghost ord = self.order@;
        self.arena[idx].prev = None;
        self.arena[idx].next = self.head;
        if let Some(head_idx) = self.head {
            self.arena[head_idx].prev = Some(idx);
        } else {
            self.tail = Some(idx);
        }
        self.head = Some(idx);
        proof {
            self.order@ = seq![idx] + ord;
            let nord = self.order@;
            assert forall|p: int| 0 <= p < nord.len() implies (#[trigger] self.arena@[nord[p] as int]).prev
                == prev_in(nord, p) && self.arena@[nord[p] as int].next == next_in(nord, p) by {
                if p > 0 {
                    assert(nord[p] == ord[p - 1]);
                    assert(old(self).arena@[ord[p - 1] as int].prev == prev_in(ord, p - 1));
                }
            }
        }
    }

    /// Unlinks node `idx` from the list.
    fn detach(&mut self, idx: Index)
        requires
            old(self).list_wf(),
            old(self).order@.contains(idx),
        ensures
            final(self).list_wf(),
            final(self).order@ == old(self).order@.remove(old(self).order@.index_of(idx)),
            final(self).arena@[idx as int].prev == None::<Index>,
            final(self).arena@[idx as int].next == None::<Index>,
            final(self).arena@.len() == old(self).arena@.len(),
            forall|i: int|
                0 <= i < final(self).arena@.len() && i != idx && old(self).arena@[idx as int].prev
                    != Some(i as Index) && old(self).arena@[idx as int].next != Some(i as Index)
                    ==> #[trigger] final(self).arena@[i] == old(self).arena@[i],
            forall|i: int|
                0 <= i < final(self).arena@.len() ==> (#[trigger] final(self).arena@[i]).key == old(self).arena@[i].key
                    && final(self).arena@[i].value == old(self).arena@[i].value,
            final(self).map == old(self).map,
            final(self).capacity == old(self).capacity,
            final(self).len == old(self).len,
            final(self).free == old(self).free,
    {
        let ghost ord = self.order@;
        let ghost pos = ord.index_of(idx);
        assert(self.arena@[ord[pos] as int].prev == prev_in(ord, pos));
        let prev = self.arena[idx].prev;
        let next = self.arena[idx].next;
        match prev {
            Some(p) => {
                self.arena[p].next = next;
            },
            None => {
                self.head = next;
            },
        }
        match next {
            Some(n) => {
                self.arena[n].prev = prev;
            },
            None => {
                self.tail = prev;
            },
        }
        self.arena[idx].prev = None;
        self.arena[idx].next = None;
        proof {
            self.order@ = ord.remove(pos);
            let nord = self.order@;
            assert forall|p: int| 0 <= p < nord.len() implies (#[trigger] self.arena@[nord[p] as int]).prev
                == prev_in(nord, p) && self.arena@[nord[p] as int].next == next_in(nord, p) by {
                if p < pos {
                    assert(nord[p] == ord[p]);
                    assert(old(self).arena@[ord[p] as int].prev == prev_in(ord, p));
                } else {
                    assert(nord[p] == ord[p + 1]);
                    assert(old(self).arena@[ord[p + 1] as int].prev == prev_in(ord, p + 1));
                }
            }
            assert(nord.no_duplicates());
        }
    }
    /// Facts that link the entry list to the key map.
    proof fn lemma_lookup(&self, k: K)
        requires
            self.list_wf(),
            self.map_wf(),
        ensures
            distinct_keys(self@),
            self@.len() == self.order@.len(),
            has_key(self@, k) <==> self.map@.contains_key(k),
            self.map@.contains_key(k) ==> {
                let idx = self.map@[k];
                &&& self.order@.contains(idx)
                &&& key_index(self@, k) == self.order@.index_of(idx)
                &&& self@[key_index(self@, k)] == (
                    self.arena@[idx as int].key,
                    self.arena@[idx as int].value,
                )
            },
    {
        self.lemma_view_distinct();
        let s = self@;
        let ord = self.order@;
        let a = self.arena@;
        if has_key(s, k) {
            let i = choose|i: int| 0 <= i < s.len() && s[i].0 == k;
            assert(a[ord[i] as int].key == k);
        }
        if self.map@.contains_key(k) {
            let idx = self.map@[k];
            let p = ord.index_of(idx);
            assert(s[p].0 == k);
            assert(has_key(s, k));
            let q = key_index(s, k);
            assert(s[q].0 == k);
        }
    }

    /// Looks `key` up; a hit makes its entry the most recently used.
    pub fn get(&mut self, key: &K) -> (r: Option<&V>)
        requires
            old(self).wf(),
        ensures
            final(self).wf(),
            final(self).spec_capacity() == old(self).spec_capacity(),
            match r {
                Some(v) => {
                    &&& has_key(old(self)@, *key)
                    &&& *v == old(self)@[key_index(old(self)@, *key)].1
                    &&& final(self)@ == touched(old(self)@, *key)
                },
                None => !has_key(old(self)@, *key) && final(self)@ == old(self)@,
            },
    {
        proof {
            self.lemma_lookup(*key);
        }
        let idx = match self.map.get(key) {
            Some(i) => *i,
            None => {
                return None;
            },
        };
        let ghost s0 = self@;
        let ghost ord0 = self.order@;
        let ghost pos = ord0.index_of(idx);
        self.detach(idx);
        self.insert_head(idx);
        proof {
            let ord = self.order@;
            assert(ord == seq![idx] + ord0.remove(pos));
            assert(self@ =~= seq![s0[pos]] + s0.remove(pos));
            assert(key_index(s0, *key) == pos);
            assert(self.arena@[idx as int].value == s0[pos].1);
            assert(self@ == touched(s0, *key));
            assert forall|p: int| 0 <= p < ord.len() implies self.map@.contains_key(
                #[trigger] self.arena@[ord[p] as int].key,
            ) && self.map@[self.arena@[ord[p] as int].key] == ord[p] by {
                if p == 0 {
                } else if p - 1 < pos {
                    assert(ord[p] == ord0[p - 1]);
                } else {
                    assert(ord[p] == ord0[p]);
                }
            }
            assert forall|k: K| #[trigger] self.map@.contains_key(k) implies ord.contains(
                self.map@[k],
            ) by {
                let j = ord0.index_of(self.map@[k]);
                if j < pos {
                    assert(ord[j + 1] == ord0[j]);
                } else if j == pos {
                    assert(ord[0] == ord0[j]);
                } else {
                    assert(ord[j] == ord0[j]);
                }
            }
        }
        Some(&self.arena[idx].value)
    }
    /// The key map stays consistent when the live nodes are reordered and
    /// their keys are left alone.
    proof fn lemma_map_wf_reordered(old_lru: &Self, new_lru: &Self)
        requires
            old_lru.map_wf(),
            old_lru.list_wf(),
            new_lru.map@ == old_lru.map@,
            new_lru.arena@.len() == old_lru.arena@.len(),
            forall|x: Index| new_lru.order@.contains(x) <==> old_lru.order@.contains(x),
            forall|i: int|
                0 <= i < new_lru.arena@.len() ==> #[trigger] new_lru.arena@[i].key
                    == old_lru.arena@[i].key,
        ensures
            new_lru.map_wf(),
    {
        let ord = new_lru.order@;
        let ord0 = old_lru.order@;
        assert forall|p: int| 0 <= p < ord.len() implies new_lru.map@.contains_key(
            #[trigger] new_lru.arena@[ord[p] as int].key,
        ) && new_lru.map@[new_lru.arena@[ord[p] as int].key] == ord[p] by {
            assert(ord.contains(ord[p]));
            let q = ord0.index_of(ord[p]);
            assert(old_lru.arena@[ord0[q] as int].key == old_lru.arena@[ord[p] as int].key);
            assert((ord[p] as int) < old_lru.arena@.len());
        }
        assert forall|k: K| #[trigger] new_lru.map@.contains_key(k) implies ord.contains(
            new_lru.map@[k],
        ) && new_lru.arena@[new_lru.map@[k] as int].key == k by {
            let q = ord0.index_of(old_lru.map@[k]);
            assert((ord0[q] as int) < old_lru.arena@.len());
        }
    }

    /// Stores `value` under `key` and makes it the most recently used entry;
    /// a new key in a full cache first evicts the least recently used entry.
    #[verifier::rlimit(50)]
    pub fn put(&mut self, key: K, value: V)
        requires
            old(self).wf(),
        ensures
            final(self).wf(),
            final(self).spec_capacity() == old(self).spec_capacity(),
            final(self)@ == put_result(old(self)@, old(self).spec_capacity(), key, value),
    {
        proof {
            self.lemma_lookup(key);
        }
        let ghost s0 = self@;
        let ghost ord0 = self.order@;
        if let Some(found) = self.map.get(&key) {
            let idx = *found;
            let ghost pos = ord0.index_of(idx);
            let ghost before = *self;
            self.detach(idx);
            self.arena[idx].value = value;
            self.insert_head(idx);
            proof {
                let ord = self.order@;
                assert(ord == seq![idx] + ord0.remove(pos));
                assert(key_index(s0, key) == pos);
                assert(self@ =~= seq![(key, value)] + s0.remove(pos));
                assert forall|x: Index| ord.contains(x) <==> ord0.contains(x) by {
                    if ord0.contains(x) {
                        let j = ord0.index_of(x);
                        if j < pos {
                            assert(ord[j + 1] == ord0[j]);
                        } else if j == pos {
                            assert(ord[0] == ord0[j]);
                        } else {
                            assert(ord[j] == ord0[j]);
                        }
                    }
                    if ord.contains(x) {
                        let j = ord.index_of(x);
                        if j == 0 {
                        } else if j - 1 < pos {
                            assert(ord[j] == ord0[j - 1]);
                        } else {
                            assert(ord[j] == ord0[j]);
                        }
                    }
                }
                Self::lemma_map_wf_reordered(&before, self);
            }
            return;
        }
        assert(!has_key(s0, key));
        let ghost evicting = self.len == self.capacity;
        if self.len() == self.capacity {
            if let Some(tail_idx) = self.tail {
                let ghost before = *self;
                proof {
                    assert(ord0.contains(tail_idx)) by {
                        assert(ord0[ord0.len() - 1] == tail_idx);
                    }
                    assert(ord0.index_of(tail_idx) == ord0.len() - 1);
                }
                self.detach(tail_idx);
                let evicted_key = &self.arena[tail_idx].key;
                self.map.remove(evicted_key);
                self.free.push(tail_idx);
                self.len = self.len - 1;
                proof {
                    let ord = self.order@;
                    let a = self.arena@;
                    assert(ord =~= ord0.drop_last());
                    assert forall|p: int| 0 <= p < ord.len() implies self.map@.contains_key(
                        #[trigger] a[ord[p] as int].key,
                    ) && self.map@[a[ord[p] as int].key] == ord[p] by {
                        assert(ord[p] == ord0[p]);
                        assert(before.map@[a[ord0[p] as int].key] == ord0[p]);
                        assert(before.map@[a[ord0[ord0.len() - 1] as int].key] == ord0[ord0.len() - 1]);
                    }
                    assert forall|k: K| #[trigger] self.map@.contains_key(k) implies ord.contains(
                        self.map@[k],
                    ) && a[self.map@[k] as int].key == k by {
                        let j = ord0.index_of(before.map@[k]);
                        assert(j != ord0.len() - 1);
                        assert(ord[j] == ord0[j]);
                    }
                }
            }
        }
        proof {
            assert(evicting ==> self.free@ == seq![ord0.last()] && self.order@ == ord0.drop_last());
            assert(!evicting ==> self.free@.len() == 0 && self.order@ == ord0 && self.len < self.capacity);
            assert(self.map_wf());
            assert(!self.map@.contains_key(key));
        }
        let ghost ord1 = self.order@;
        let ghost map1 = self.map@;
        let ghost arena1 = self.arena@;
        let idx: Index;
        if let Some(i) = self.free.pop() {
            idx = i;
            let k2 = key.clone();
            self.arena.set(idx, Node { key: k2, value, prev: None, next: None });
        } else {
            idx = self.arena.len();
            let k2 = key.clone();
            self.arena.push(Node { key: k2, value, prev: None, next: None });
        }
        proof {
            assert(strictly_cloned(key, self.arena@[idx as int].key));
            assert(self.arena@[idx as int].key == key);
            assert forall|p: int| 0 <= p < ord1.len() implies self.arena@[ord1[p] as int] == arena1[ord1[p] as int] by {
                assert(ord1[p] != idx);
            }
        }
        self.map.insert(key, idx);
        self.insert_head(idx);
        self.len = self.len + 1;
        proof {
            let ord = self.order@;
            let a = self.arena@;
            assert(ord == seq![idx] + ord1);
            assert forall|p: int| 0 <= p < ord.len() implies self.map@.contains_key(
                #[trigger] a[ord[p] as int].key,
            ) && self.map@[a[ord[p] as int].key] == ord[p] by {
                if p > 0 {
                    assert(ord[p] == ord1[p - 1]);
                    assert(map1[arena1[ord1[p - 1] as int].key] == ord1[p - 1]);
                }
            }
            assert forall|k: K| #[trigger] self.map@.contains_key(k) implies ord.contains(
                self.map@[k],
            ) && a[self.map@[k] as int].key == k by {
                if k == key {
                    assert(ord[0] == idx);
                } else {
                    let j = ord1.index_of(map1[k]);
                    assert(ord[j + 1] == ord1[j]);
                }
            }
            if evicting {
                assert(self@ =~= seq![(key, value)] + s0.drop_last());
            } else {
                assert(self@ =~= seq![(key, value)] + s0);
            }
        }
    }
}

/// What one call does to a cache, as `put` and `get` state it: the cache
/// stays well formed, keeps its capacity, and its entries change as
/// `apply_op` says.
pub open spec fn lru_step<K: Eq + Hash + Clone, V>(a: Lru<K, V>, b: Lru<K, V>, op: LruOp<K, V>) -> bool {
    &&& b.wf()
    &&& b.spec_capacity() == a.spec_capacity()
    &&& b@ == apply_op(a@, a.spec_capacity(), op)
}

/// A cache made by `new(cap)` and then given any run of `put` and `get`
/// calls keeps capacity `cap`, holds the entries `run_ops` gives, and holds
/// as many entries as distinct keys were put, up to `cap`: it is empty
/// exactly when nothing was put.
pub proof fn lemma_cache_after_calls<K: Eq + Hash + Clone, V>(
    cap: nat,
    states: Seq<Lru<K, V>>,
    ops: Seq<LruOp<K, V>>,
)
    requires
        cap > 0,
        states.len() == ops.len() + 1,
        states[0].wf(),
        states[0].spec_capacity() == cap,
        states[0]@ == Seq::<(K, V)>::empty(),
        forall|i: int| 0 <= i < ops.len() ==> #[trigger] lru_step(states[i], states[i + 1], ops[i]),
    ensures
        states.last().wf(),
        states.last().spec_capacity() == cap,
        states.last()@ == run_ops(cap, ops),
        states.last()@.len() == (if put_keys(ops).len() < cap {
            put_keys(ops).len()
        } else {
            cap
        }),
        states.last()@.len() == 0 <==> put_keys(ops).len() == 0,
    decreases ops.len(),
{
    if ops.len() > 0 {
        let n = ops.len() - 1;
        let prev_states = states.drop_last();
        let prev_ops = ops.drop_last();
        assert forall|i: int| 0 <= i < prev_ops.len() implies #[trigger] lru_step(
            prev_states[i],
            prev_states[i + 1],
            prev_ops[i],
        ) by {
            assert(lru_step(states[i], states[i + 1], ops[i]));
        }
        lemma_cache_after_calls(cap, prev_states, prev_ops);
        assert(lru_step(states[n], states[n + 1], ops[n]));
        assert(prev_states.last() == states[n]);
    }
    lemma_len_after_ops(cap, ops);
}

} // verus!
