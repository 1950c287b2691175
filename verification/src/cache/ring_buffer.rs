//! A fixed ring of slots addressed by unbounded logical indices.
use vstd::prelude::*;
use vstd::arithmetic::div_mod::{
    lemma_add_mod_noop_right, lemma_mod_add_multiples_vanish, lemma_mod_bound, lemma_mod_self_0,
    lemma_mod_twice, lemma_small_mod,
};

verus! {

/// One storage cell of a ring buffer.
#[derive(Debug)]
pub struct Slot<T> {
    data: T,
}

impl<T> View for Slot<T> {
    type V = T;

    /// The value the slot holds.
    closed spec fn view(&self) -> T {
        self.data
    }
}

impl<T> Slot<T> {
    pub fn new(storage: T) -> (slot: Self)
        ensures
            slot@ == storage,
    {
        Self { data: storage }
    }

    /// Read access to the stored value.
    pub fn inner(&self) -> (r: &T)
        ensures
            *r == self@,
    {
        &self.data
    }

    /// Write access to the stored value.
    pub fn inner_mut(&mut self) -> (r: &mut T)
        ensures
            *r == old(self)@,
            final(self)@ == *final(r),
    {
        &mut self.data
    }
}

/// The physical slot that a logical index lands on.
pub open spec fn slot_of(cap: nat, index: int) -> int
    recommends
        cap > 0,
{
    index % (cap as int)
}

/// The physical slot after the one that `index` lands on.
pub open spec fn next_of(cap: nat, index: int) -> int
    recommends
        cap > 0,
{
    (index + 1) % (cap as int)
}

/// The physical slot before the one that `index` lands on.
pub open spec fn prev_of(cap: nat, index: int) -> int
    recommends
        cap > 0,
{
    (index + cap - 1) % (cap as int)
}

/// Every index lands on a slot of the ring, and so do its neighbours.
pub proof fn lemma_indices_in_range(cap: nat, index: int)
    requires
        cap > 0,
    ensures
        0 <= slot_of(cap, index) < cap,
        0 <= next_of(cap, index) < cap,
        0 <= prev_of(cap, index) < cap,
{
    let m = cap as int;
    lemma_mod_bound(index, m);
    lemma_mod_bound(index + 1, m);
    lemma_mod_bound(index + m - 1, m);
}

/// A logical index and the physical slot it lands on have the same
/// neighbours, and landing twice is landing once.
pub proof fn lemma_logical_same_as_physical(cap: nat, index: int)
    requires
        cap > 0,
    ensures
        slot_of(cap, slot_of(cap, index)) == slot_of(cap, index),
        next_of(cap, slot_of(cap, index)) == next_of(cap, index),
        prev_of(cap, slot_of(cap, index)) == prev_of(cap, index),
{
    let m = cap as int;
    lemma_mod_twice(index, m);
    lemma_add_mod_noop_right(1, index, m);
    lemma_add_mod_noop_right(m - 1, index, m);
    assert(1 + index == index + 1);
    assert(m - 1 + index == index + m - 1);
    assert(1 + index % m == index % m + 1);
    assert(m - 1 + index % m == index % m + m - 1);
}

/// Stepping forward then back, or back then forward, returns to the slot.
pub proof fn lemma_next_prev_inverse(cap: nat, index: int)
    requires
        cap > 0,
    ensures
        next_of(cap, prev_of(cap, index)) == slot_of(cap, index),
        prev_of(cap, next_of(cap, index)) == slot_of(cap, index),
{
    let m = cap as int;
    lemma_add_mod_noop_right(1, index + m - 1, m);
    lemma_add_mod_noop_right(m - 1, index + 1, m);
    lemma_mod_add_multiples_vanish(index, m);
    assert(1 + (index + m - 1) == m + index);
    assert(m - 1 + (index + 1) == m + index);
    assert((index + m - 1) % m + 1 == 1 + (index + m - 1) % m);
    assert((index + 1) % m + m - 1 == m - 1 + (index + 1) % m);
}

/// The ring wraps: after the last slot comes the first, and before the first the last.
pub proof fn lemma_wraps_around(cap: nat)
    requires
        cap > 0,
    ensures
        next_of(cap, cap - 1) == 0,
        prev_of(cap, 0) == cap - 1,
{
    let m = cap as int;
    lemma_mod_self_0(m);
    lemma_small_mod((cap - 1) as nat, cap);
}

/// The slot values after a run of writes through logical indices, each
/// write `(index, value)` replacing the value of the slot `index` lands on,
/// as `get_slot_mut` does.
pub open spec fn written<T>(s: Seq<T>, writes: Seq<(int, T)>) -> Seq<T>
    decreases writes.len(),
{
    if writes.len() == 0 {
        s
    } else {
        written(s, writes.drop_last()).update(slot_of(s.len(), writes.last().0), writes.last().1)
    }
}

/// Any run of writes keeps the ring's capacity; a slot reads back the last
/// value written through any index landing on it, and a slot no write
/// landed on keeps its value.
pub proof fn lemma_writes<T>(s: Seq<T>, writes: Seq<(int, T)>)
    requires
        s.len() > 0,
    ensures
        written(s, writes).len() == s.len(),
        forall|j: int|
            0 <= j < s.len() && (forall|w: int|
                0 <= w < writes.len() ==> slot_of(s.len(), #[trigger] writes[w].0) != j)
                ==> #[trigger] written(s, writes)[j] == s[j],
        writes.len() > 0 ==> written(s, writes)[slot_of(s.len(), writes.last().0)] == writes.last().1,
    decreases writes.len(),
{
    if writes.len() > 0 {
        let prev = writes.drop_last();
        lemma_writes(s, prev);
        lemma_indices_in_range(s.len(), writes.last().0);
        assert forall|j: int|
            0 <= j < s.len() && (forall|w: int|
                0 <= w < writes.len() ==> slot_of(s.len(), #[trigger] writes[w].0) != j)
                implies #[trigger] written(s, writes)[j] == s[j] by {
            assert forall|w: int| 0 <= w < prev.len() implies slot_of(s.len(), #[trigger] prev[w].0) != j by {
                assert(prev[w] == writes[w]);
            }
            assert(slot_of(s.len(), writes[writes.len() - 1].0) != j);
        }
    }
}

/// A ring of a fixed number of slots, at least one.
#[derive(Debug)]
pub struct RingBuffer<T> {
    slots: Vec<Slot<T>>,
}

impl<T> View for RingBuffer<T> {
    type V = Seq<T>;

    /// The values of the slots, in physical order.
    closed spec fn view(&self) -> Seq<T> {
        self.slots@.map_values(|s: Slot<T>| s@)
    }
}

impl<T> RingBuffer<T> {
    /// The ring has at least one slot.
    pub closed spec fn wf(&self) -> bool {
        self.slots@.len() > 0
    }

    /// Creates a ring of `capacity` slots, each filled by one call of `factory`.
    pub fn new<F>(capacity: usize, mut factory: F) -> (rb: Self) where F: FnMut() -> T
        requires
            capacity > 0,
            forall|u: ()| #[trigger] call_requires(factory, u),
        ensures
            rb.wf(),
            rb@.len() == capacity,
            forall|i: int| 0 <= i < capacity ==> call_ensures(factory, (), #[trigger] rb@[i]),
    {
        let ghost f0 = factory;
        let mut slots: Vec<Slot<T>> = Vec::with_capacity(capacity);
        let mut n: usize = 0;
        while n < capacity
            invariant
                n <= capacity,
                slots@.len() == n,
                factory == f0,
                forall|u: ()| #[trigger] call_requires(f0, u),
                forall|i: int| 0 <= i < n ==> call_ensures(f0, (), #[trigger] slots@[i]@),
            decreases capacity - n,
        {
            let v = factory();
            slots.push(Slot::new(v));
            n = n + 1;
        }
        let rb = Self { slots };
        assert forall|i: int| 0 <= i < capacity implies call_ensures(factory, (), #[trigger] rb@[i]) by {
            assert(rb@[i] == rb.slots@[i]@);
        }
        rb
    }

    pub fn capacity(&self) -> (c: usize)
        ensures
            c == self@.len(),
    {
        self.slots.len()
    }

    /// Maps an unbounded logical index to its physical slot.
    pub fn slot_idx(&self, index: usize) -> (r: usize)
        requires
            self.wf(),
        ensures
            r == slot_of(self@.len(), index as int),
            r < self@.len(),
    {
        index % self.capacity()
    }

    /// The physical slot after the one `index` lands on.
    pub fn next_idx(&self, index: usize) -> (r: usize)
        requires
            self.wf(),
        ensures
            r == next_of(self@.len(), index as int),
            r < self@.len(),
    {
        let cap = self.capacity();
        let p = index % cap;
        proof {
            let m = cap as int;
            lemma_add_mod_noop_right(1, index as int, m);
            assert(1 + index == index + 1);
            if p + 1 == cap {
                lemma_mod_self_0(m);
            } else {
                lemma_small_mod((p + 1) as nat, cap as nat);
            }
        }
        if p + 1 == cap {
            0
        } else {
            p + 1
        }
    }

    /// The physical slot before the one `index` lands on; a logical index and
    /// its physical slot give the same answer.
    pub fn prev_idx(&self, index: usize) -> (r: usize)
        requires
            self.wf(),
        ensures
            r == prev_of(self@.len(), index as int),
            r < self@.len(),
    {
        let cap = self.capacity();
        let p = index % cap;
        proof {
            let m = cap as int;
            lemma_add_mod_noop_right(m - 1, index as int, m);
            assert(m - 1 + index == index + m - 1);
            if p == 0 {
                lemma_small_mod((m - 1) as nat, m as nat);
            } else {
                lemma_mod_add_multiples_vanish(p - 1, m);
                lemma_small_mod((p - 1) as nat, m as nat);
                assert(m - 1 + p == m + (p - 1));
            }
        }
        if p == 0 {
            cap - 1
        } else {
            p - 1
        }
    }

    /// The slot that a logical index lands on.
    pub fn get_slot(&self, index: usize) -> (s: &Slot<T>)
        requires
            self.wf(),
        ensures
            s@ == self@[slot_of(self@.len(), index as int)],
    {
        &self.slots[self.slot_idx(index)]
    }

    /// Write access to the slot that a logical index lands on.
    pub fn get_slot_mut(&mut self, index: usize) -> (s: &mut Slot<T>)
        requires
            old(self).wf(),
        ensures
            s@ == old(self)@[slot_of(old(self)@.len(), index as int)],
            final(self)@ == old(self)@.update(slot_of(old(self)@.len(), index as int), final(s)@),
            final(self)@.len() == old(self)@.len(),
            final(self).wf(),
    {
        let idx = self.slot_idx(index);
        &mut self.slots[idx]
    }
}

} // verus!
