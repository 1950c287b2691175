//! Time-windowed storage of quality-tagged points: a fixed ring of windows,
//! each holding the points whose timestamp falls in it, stored as offsets
//! from the window's start.
use std::collections::HashMap;
use std::sync::Arc;
use std::sync::atomic::{AtomicU32, Ordering};
use vstd::prelude::*;
use vstd::arithmetic::div_mod::{
    lemma_add_mod_noop, lemma_fundamental_div_mod, lemma_fundamental_div_mod_converse, lemma_mod_twice,
    lemma_add_mod_noop_right, lemma_mod_add_multiples_vanish, lemma_mod_bound, lemma_mod_decreases, lemma_mod_self_0, lemma_small_mod,
};
use vstd::rwlock::RwLock;
use vstd::std_specs::hash::spec_keys_iter;
use vstd::std_specs::iter::IteratorSpec;

verus! {

broadcast use vstd::std_specs::hash::group_hash_axioms;

pub const EXTRA_WINDOW_CNT: u32 = 2;

pub const DEFAULT_WINDOW_SIZE: u32 = 60;

pub const DEFAULT_WINDOW_CNT: u32 = 11;

/// Which quality of point a query asks for.
#[derive(Clone, Copy, PartialEq, Eq, Structural, Debug)]
pub enum QualityType {
    Good,
    Bad,
}

/// Whether the quality code `quality` is the one `quality_type` stands for.
pub open spec fn spec_same_quality(quality: i16, quality_type: QualityType) -> bool {
    match quality_type {
        QualityType::Good => quality == 0,
        QualityType::Bad => quality == 1,
    }
}

pub fn same_quality(quality: i16, quality_type: QualityType) -> (b: bool)
    ensures
        b == spec_same_quality(quality, quality_type),
{
    match quality_type {
        QualityType::Good => quality == 0,
        QualityType::Bad => quality == 1,
    }
}

/// The window layout: each window spans `size` seconds, the ring holds `cnt`
/// windows, and points older than `expire` seconds are discarded.
#[derive(Clone, Copy, Debug)]
pub struct WindowCfg {
    pub size: u32,
    pub cnt: u32,
    pub expire: u32,
}

impl WindowCfg {
    /// Windows are not empty and the ring is not empty.
    pub open spec fn wf(&self) -> bool {
        self.size > 0 && self.cnt > 0
    }

    /// The layout used until one is configured.
    pub fn default_cfg() -> (cfg: Self)
        ensures
            cfg.wf(),
            cfg.size == DEFAULT_WINDOW_SIZE,
            cfg.cnt == DEFAULT_WINDOW_CNT + EXTRA_WINDOW_CNT,
            cfg.expire == DEFAULT_WINDOW_SIZE * DEFAULT_WINDOW_CNT,
    {
        WindowCfg {
            size: DEFAULT_WINDOW_SIZE,
            cnt: DEFAULT_WINDOW_CNT + EXTRA_WINDOW_CNT,
            expire: DEFAULT_WINDOW_SIZE * DEFAULT_WINDOW_CNT,
        }
    }

    /// The layout for `w_cnt` windows of `w_size` seconds, kept with two
    /// extra windows so that a full span stays readable while the next fills.
    pub fn new(w_size: u32, w_cnt: u32) -> (cfg: Self)
        requires
            w_size > 0,
            w_cnt + EXTRA_WINDOW_CNT <= u32::MAX,
            w_size * w_cnt <= u32::MAX,
        ensures
            cfg.wf(),
            cfg.size == w_size,
            cfg.cnt == w_cnt + EXTRA_WINDOW_CNT,
            cfg.expire == w_size * w_cnt,
    {
        WindowCfg { size: w_size, cnt: w_cnt + EXTRA_WINDOW_CNT, expire: w_size * w_cnt }
    }
}

/// A point as stored and returned: its quality code and its value, an
/// IEEE-754 double carried as its bit pattern.
#[derive(Clone, Copy, Debug)]
pub struct StdPoint {
    pub quality: i16,
    pub value: u64,
}

/// A point inside a window: its value bits, quality, and offset from the
/// window's start.
#[derive(Clone, Copy, Debug)]
pub struct CompressStdPoint {
    pub val: u64,
    pub quality: i16,
    pub ts_offset: u8,
}

/// The timestamp of a point stored in a window that starts at `ts`.
pub open spec fn point_ts(ts: u32, p: CompressStdPoint) -> int {
    ts + p.ts_offset
}

/// Whether a stored point answers a query for `[begin, end]` and `quality_type`.
pub open spec fn selected(
    ts: u32,
    p: CompressStdPoint,
    begin: u32,
    end: u32,
    quality_type: QualityType,
) -> bool {
    begin <= point_ts(ts, p) <= end && spec_same_quality(p.quality, quality_type)
}

/// The answer to a query over the points of a window that starts at `ts`:
/// each selected point under its timestamp, a later point replacing an
/// earlier one with the same timestamp.
pub open spec fn filtered(
    points: Seq<CompressStdPoint>,
    ts: u32,
    begin: u32,
    end: u32,
    quality_type: QualityType,
) -> Map<u32, StdPoint>
    decreases points.len(),
{
    if points.len() == 0 {
        Map::empty()
    } else {
        let m = filtered(points.drop_last(), ts, begin, end, quality_type);
        let p = points.last();
        if selected(ts, p, begin, end, quality_type) {
            m.insert(point_ts(ts, p) as u32, StdPoint { quality: p.quality, value: p.val })
        } else {
            m
        }
    }
}

/// Every answer of a query lies in its range and has the asked quality.
pub proof fn lemma_filtered_in_range(
    points: Seq<CompressStdPoint>,
    ts: u32,
    begin: u32,
    end: u32,
    quality_type: QualityType,
)
    ensures
        forall|k: u32| #[trigger]
            filtered(points, ts, begin, end, quality_type).contains_key(k) ==> begin <= k <= end
                && spec_same_quality(
                filtered(points, ts, begin, end, quality_type)[k].quality,
                quality_type,
            ),
    decreases points.len(),
{
    if points.len() > 0 {
        lemma_filtered_in_range(points.drop_last(), ts, begin, end, quality_type);
        let p = points.last();
        if selected(ts, p, begin, end, quality_type) {
            let t = point_ts(ts, p);
            assert(0 <= t <= u32::MAX);
            assert((t as u32) as int == t);
        }
        let m = filtered(points.drop_last(), ts, begin, end, quality_type);
        let f = filtered(points, ts, begin, end, quality_type);
        assert forall|k: u32| #[trigger] f.contains_key(k) implies begin <= k <= end
            && spec_same_quality(f[k].quality, quality_type) by {
            if !(selected(ts, p, begin, end, quality_type) && k == point_ts(ts, p) as u32) {
                assert(m.contains_key(k));
            }
        }
    }
}

/// Adds to `out` the points of a window starting at `ts` that answer the
/// query, each under its timestamp.
pub fn filter_points_into(
    points: &Vec<CompressStdPoint>,
    ts: u32,
    begin: u32,
    end: u32,
    quality_type: QualityType,
    out: &mut HashMap<u32, StdPoint>,
)
    ensures
        final(out)@ == old(out)@.union_prefer_right(filtered(points@, ts, begin, end, quality_type)),
{
    let ghost start = out@;
    let mut i: usize = 0;
    while i < points.len()
        invariant
            i <= points@.len(),
            out@ == start.union_prefer_right(filtered(points@.take(i as int), ts, begin, end, quality_type)),
        decreases points@.len() - i,
    {
        let point = points[i];
        let point_ts: u64 = ts as u64 + point.ts_offset as u64;
        proof {
            assert(points@.take(i + 1).drop_last() =~= points@.take(i as int));
            assert(points@.take(i + 1).last() == point);
        }
        if point_ts >= begin as u64 && point_ts <= end as u64 && same_quality(point.quality, quality_type) {
            let key = point_ts as u32;
            out.insert(key, StdPoint { value: point.val, quality: point.quality });
            proof {
                let f = filtered(points@.take(i as int), ts, begin, end, quality_type);
                assert(out@ =~= start.union_prefer_right(f.insert(key, StdPoint { quality: point.quality, value: point.val })));
            }
        }
        i = i + 1;
    }
    proof {
        assert(points@.take(points@.len() as int) =~= points@);
    }
}

/// The greatest key of `vals`, if any.
pub fn max_key(vals: &HashMap<u32, StdPoint>) -> (r: Option<u32>)
    ensures
        match r {
            Some(m) => vals@.contains_key(m) && forall|k: u32| #[trigger] vals@.contains_key(k) ==> k <= m,
            None => vals@.dom().len() == 0,
        },
{
    let ghost ks = spec_keys_iter(vals).remaining().unref();
    let mut best: Option<u32> = None;
    for key in it: vals.keys()
        invariant
            it.seq().unref() == ks,
            ks.to_set() == vals@.dom(),
            ks.len() == vals@.dom().len(),
            match best {
                Some(m) => vals@.contains_key(m) && forall|j: int| 0 <= j < it.index() ==> #[trigger] ks[j] <= m,
                None => it.index() == 0,
            },
    {
        proof {
            assert(*key == ks[it.index()]);
            assert(ks.to_set().contains(ks[it.index()]));
        }
        best = match best {
            Some(m) => if *key > m { Some(*key) } else { Some(m) },
            None => Some(*key),
        };
    }
    proof {
        match best {
            Some(m) => {
                assert forall|k: u32| #[trigger] vals@.contains_key(k) implies k <= m by {
                    assert(ks.to_set().contains(k));
                    let j = choose|j: int| 0 <= j < ks.len() && ks[j] == k;
                    assert(ks[j] <= m);
                }
            },
            None => {},
        }
    }
    best
}

/// Any vector of points may stand in a window.
pub open spec fn any_points() -> spec_fn(Vec<CompressStdPoint>) -> bool {
    |v: Vec<CompressStdPoint>| true
}

/// The lock that orders structural writes guards no data.
pub open spec fn unit_guard() -> spec_fn(()) -> bool {
    |u: ()| true
}

/// Stores a point in a window whose points were stamped with window start
/// `cur_ts`: when the point belongs to a later window (`cur_ts < window_ts`),
/// the old points go first. Returns whether they went.
pub fn store_point(
    points: &mut Vec<CompressStdPoint>,
    cur_ts: u32,
    window_ts: u32,
    ts_offset: u8,
    p: &StdPoint,
) -> (renewed: bool)
    ensures
        renewed == (cur_ts < window_ts),
        final(points)@ == (if renewed {
            Seq::<CompressStdPoint>::empty()
        } else {
            old(points)@
        }).push(CompressStdPoint { ts_offset, quality: p.quality, val: p.value }),
{
    let renewed = cur_ts < window_ts;
    if renewed {
        points.clear();
    }
    points.push(CompressStdPoint { ts_offset, quality: p.quality, val: p.value });
    renewed
}

/// The points of a window stamped with `cur_ts` after a point `cp` of the
/// window starting at `window_ts` is stored: the old points go only when
/// they belong to an earlier window.
pub open spec fn stored_points(
    points: Seq<CompressStdPoint>,
    cur_ts: u32,
    window_ts: u32,
    cp: CompressStdPoint,
) -> Seq<CompressStdPoint> {
    (if cur_ts < window_ts {
        Seq::<CompressStdPoint>::empty()
    } else {
        points
    }).push(cp)
}

/// The stamp of a window stamped with `cur_ts` after a point of the window
/// starting at `window_ts` is stored.
pub open spec fn stamp_after(cur_ts: u32, window_ts: u32) -> u32 {
    if cur_ts < window_ts {
        window_ts
    } else {
        cur_ts
    }
}

/// The stored form of a point at `t`: its value, quality and offset in its window.
pub open spec fn compressed(cfg: WindowCfg, t: u32, p: StdPoint) -> CompressStdPoint {
    CompressStdPoint { ts_offset: (t % cfg.size) as u8, quality: p.quality, val: p.value }
}

/// The start of the window that `t` falls in.
pub open spec fn window_start(cfg: WindowCfg, t: u32) -> u32 {
    (t - t % cfg.size) as u32
}

/// Two points stored one after the other in the same window, which held no
/// later window's points, are both kept (their offsets fitting a byte): a query over a range holding both
/// timestamps, for their quality, answers each under its timestamp with its
/// value (a store into a window already stamped with its own start appends).
pub proof fn lemma_two_stores_in_one_window(
    cfg: WindowCfg,
    points: Seq<CompressStdPoint>,
    cur_ts: u32,
    t1: u32,
    p1: StdPoint,
    t2: u32,
    p2: StdPoint,
    begin: u32,
    end: u32,
    quality_type: QualityType,
)
    requires
        cfg.wf(),
        t1 % cfg.size < 256,
        t2 % cfg.size < 256,
        window_start(cfg, t1) == window_start(cfg, t2),
        cur_ts <= window_start(cfg, t1),
        t1 != t2,
        begin <= t1 <= end,
        begin <= t2 <= end,
        spec_same_quality(p1.quality, quality_type),
        spec_same_quality(p2.quality, quality_type),
    ensures
        ({
            let w = window_start(cfg, t1);
            let s1 = stored_points(points, cur_ts, w, compressed(cfg, t1, p1));
            let st1 = stamp_after(cur_ts, w);
            let s2 = stored_points(s1, st1, w, compressed(cfg, t2, p2));
            let st2 = stamp_after(st1, w);
            let f = filtered(s2, st2, begin, end, quality_type);
            &&& st2 == w
            &&& s2 == s1.push(compressed(cfg, t2, p2))
            &&& f.contains_key(t1) && f[t1] == p1
            &&& f.contains_key(t2) && f[t2] == p2
        }),
{
    let w = window_start(cfg, t1);
    lemma_mod_bound(t1 as int, cfg.size as int);
    lemma_mod_bound(t2 as int, cfg.size as int);
    lemma_mod_decreases(t1 as nat, cfg.size as nat);
    lemma_mod_decreases(t2 as nat, cfg.size as nat);
    assert(w == t1 - t1 % cfg.size);
    assert(w == t2 - t2 % cfg.size);
    lemma_query_after_store(cfg, points, cur_ts, t1, p1, begin, end, quality_type);
    let s1 = stored_points(points, cur_ts, w, compressed(cfg, t1, p1));
    let st1 = stamp_after(cur_ts, w);
    assert(st1 == w);
    lemma_query_after_store(cfg, s1, st1, t2, p2, begin, end, quality_type);
    let cp2 = compressed(cfg, t2, p2);
    let s2 = s1.push(cp2);
    assert(s2.drop_last() =~= s1);
    assert(point_ts(w, cp2) == t2);
}

/// Read after write in one window: storing a point at `t` in its window, as
/// `place_point` and `store_point` do, when the window holds no later
/// window's points and the offset fits a byte, leaves the window stamped with
/// the start of `t`'s window, and a query over a range holding `t`, for the
/// point's quality, answers the point under `t`.
pub proof fn lemma_query_after_store(
    cfg: WindowCfg,
    points: Seq<CompressStdPoint>,
    cur_ts: u32,
    t: u32,
    p: StdPoint,
    begin: u32,
    end: u32,
    quality_type: QualityType,
)
    requires
        cfg.wf(),
        t % cfg.size < 256,
        cur_ts <= t - t % cfg.size,
    ensures
        ({
            let window_ts = (t - t % cfg.size) as u32;
            let offset = (t % cfg.size) as u8;
            let renewed = cur_ts < window_ts;
            let stored = (if renewed {
                Seq::<CompressStdPoint>::empty()
            } else {
                points
            }).push(CompressStdPoint { ts_offset: offset, quality: p.quality, val: p.value });
            let stamp = if renewed { window_ts } else { cur_ts };
            &&& stamp == window_ts
            &&& begin <= t <= end && spec_same_quality(p.quality, quality_type) ==> {
                &&& filtered(stored, stamp, begin, end, quality_type).contains_key(t)
                &&& filtered(stored, stamp, begin, end, quality_type)[t] == p
            }
        }),
{
    let window_ts = (t - t % cfg.size) as u32;
    let offset = (t % cfg.size) as u8;
    let renewed = cur_ts < window_ts;
    let cp = CompressStdPoint { ts_offset: offset, quality: p.quality, val: p.value };
    let stored = (if renewed {
        Seq::<CompressStdPoint>::empty()
    } else {
        points
    }).push(cp);
    lemma_mod_decreases(t as nat, cfg.size as nat);
    assert(offset == t % cfg.size);
    assert(point_ts(window_ts, cp) == t);
    assert(stored.drop_last() =~= (if renewed {
        Seq::<CompressStdPoint>::empty()
    } else {
        points
    }));
    assert(stored.last() == cp);
}

/// A copy of a vector of points.
pub fn copy_points(src: &Vec<CompressStdPoint>) -> (points: Vec<CompressStdPoint>)
    ensures
        points@ == src@,
{
    let mut points: Vec<CompressStdPoint> = Vec::new();
    let mut i: usize = 0;
    while i < src.len()
        invariant
            i <= src@.len(),
            points@ == src@.take(i as int),
        decreases src@.len() - i,
    {
        points.push(src[i]);
        i = i + 1;
        proof {
            assert(points@ =~= src@.take(i as int));
        }
    }
    proof {
        assert(src@.take(src@.len() as int) =~= src@);
    }
    points
}

/// A copy of one window: the start time its points are stamped with, and the points.
#[derive(Debug)]
pub struct WindowSnapshot {
    pub ts: u32,
    pub points: Vec<CompressStdPoint>,
}

/// The answer of a window snapshot to a query.
pub open spec fn snap_filtered(w: WindowSnapshot, begin: u32, end: u32, quality_type: QualityType) -> Map<
    u32,
    StdPoint,
> {
    filtered(w.points@, w.ts, begin, end, quality_type)
}

/// The answer of a window snapshot to a query, keyed by timestamp.
pub fn filter_snapshot(w: &WindowSnapshot, begin: u32, end: u32, quality_type: QualityType) -> (res:
    HashMap<u32, StdPoint>)
    ensures
        res@ == snap_filtered(*w, begin, end, quality_type),
{
    let mut res: HashMap<u32, StdPoint> = HashMap::new();
    filter_points_into(&w.points, w.ts, begin, end, quality_type, &mut res);
    proof {
        assert(res@ =~= snap_filtered(*w, begin, end, quality_type));
    }
    res
}

/// The points of one window, with the start time of the window they belong to.
pub struct StdPointList {
    ts: AtomicU32,
    inner: RwLock<Vec<CompressStdPoint>, spec_fn(Vec<CompressStdPoint>) -> bool>,
}

impl StdPointList {
    /// The lock accepts any vector of points.
    #[verifier::type_invariant]
    spec fn inv(&self) -> bool {
        self.inner.pred() == any_points()
    }

    pub fn new() -> (l: Self) {
        let points: Vec<CompressStdPoint> = Vec::new();
        Self { ts: AtomicU32::new(0), inner: RwLock::new(points, Ghost(any_points())) }
    }

    /// Stores a point at `ts_offset` from the window's start. The caller
    /// orders structural writes to the window.
    pub fn add(&self, ts_offset: u8, add_point: &StdPoint) {
        proof {
            use_type_invariant(self);
        }
        let (mut points, handle) = self.inner.acquire_write();
        points.push(CompressStdPoint { ts_offset, quality: add_point.quality, val: add_point.value });
        handle.release_write(points);
    }

    /// Stores a point of the window starting at `window_ts`, first dropping
    /// the points of an older window (see `store_point`).
    /// Returns what the window held and was stamped with when its lock was
    /// taken, and what it holds when the lock is let go.
    fn renew_and_add(&self, window_ts: u32, ts_offset: u8, add_point: &StdPoint) -> (r: Ghost<
        (Seq<CompressStdPoint>, u32, Seq<CompressStdPoint>),
    >)
        ensures
            r@.2 == stored_points(
                r@.0,
                r@.1,
                window_ts,
                CompressStdPoint { ts_offset, quality: add_point.quality, val: add_point.value },
            ),
    {
        proof {
            use_type_invariant(self);
        }
        let (mut points, handle) = self.inner.acquire_write();
        let ghost before = points@;
        let cur_ts = self.ts.load(Ordering::Relaxed);
        let renewed = store_point(&mut points, cur_ts, window_ts, ts_offset, add_point);
        if renewed {
            self.ts.store(window_ts, Ordering::Release);
        }
        let ghost after = points@;
        handle.release_write(points);
        Ghost((before, cur_ts, after))
    }

    /// A copy of the window's start time and points.
    pub fn snapshot(&self) -> (w: WindowSnapshot) {
        proof {
            use_type_invariant(self);
        }
        let ts = self.ts.load(Ordering::Acquire);
        let handle = self.inner.acquire_read();
        let points = copy_points(handle.borrow());
        handle.release_read();
        WindowSnapshot { ts, points }
    }

    /// The points of the window, at the moment it was read, that answer a
    /// query for `[begin, end]` and `quality_type`, keyed by timestamp.
    pub fn filter(&self, begin: u32, end: u32, quality_type: QualityType) -> (res: HashMap<
        u32,
        StdPoint,
    >)
        ensures
            exists|pts: Seq<CompressStdPoint>, ts: u32|
                res@ == #[trigger] filtered(pts, ts, begin, end, quality_type),
            forall|k: u32| #[trigger]
                res@.contains_key(k) ==> begin <= k <= end && spec_same_quality(
                    res@[k].quality,
                    quality_type,
                ),
    {
        proof {
            use_type_invariant(self);
        }
        let mut res: HashMap<u32, StdPoint> = HashMap::new();
        let ts = self.ts.load(Ordering::Acquire);
        let handle = self.inner.acquire_read();
        filter_points_into(handle.borrow(), ts, begin, end, quality_type, &mut res);
        proof {
            let pts = handle.view()@;
            assert(res@ =~= filtered(pts, ts, begin, end, quality_type));
            lemma_filtered_in_range(pts, ts, begin, end, quality_type);
        }
        handle.release_read();
        res
    }

    pub fn clear(&self) {
        proof {
            use_type_invariant(self);
        }
        let (mut points, handle) = self.inner.acquire_write();
        points.clear();
        handle.release_write(points);
    }
}

/// The window, out of `cfg.cnt`, that timestamp `ts` falls in.
pub open spec fn window_of(cfg: WindowCfg, ts: u32) -> int {
    ((ts / cfg.size) % cfg.cnt) as int
}

/// The window after window `idx`, around the ring.
pub open spec fn next_window(cfg: WindowCfg, idx: u32) -> int {
    ((idx + 1) % (cfg.cnt as int)) as int
}

/// The window before window `idx`, around the ring.
pub open spec fn prev_window(cfg: WindowCfg, idx: u32) -> int {
    ((idx + cfg.cnt - 1) % (cfg.cnt as int)) as int
}

/// The distance from window `from` forward around the ring to window `to`.
pub open spec fn ring_distance(cnt: u32, from: u32, to: u32) -> int {
    if to >= from {
        to - from
    } else {
        to + cnt - from
    }
}

impl WindowCfg {
    /// The window that timestamp `ts` falls in.
    pub fn window_idx(&self, ts: u32) -> (r: u32)
        requires
            self.wf(),
        ensures
            r == window_of(*self, ts),
            r < self.cnt,
    {
        (ts / self.size) % self.cnt
    }

    /// The window after window `idx`.
    pub fn next_window_idx(&self, idx: u32) -> (r: u32)
        requires
            self.wf(),
            idx < self.cnt,
        ensures
            r == next_window(*self, idx),
            r == (if idx + 1 == self.cnt { 0 } else { idx + 1 }),
    {
        let r = (idx + 1) % self.cnt;
        proof {
            if idx + 1 == self.cnt {
                lemma_mod_self_0(self.cnt as int);
            } else {
                lemma_small_mod((idx + 1) as nat, self.cnt as nat);
            }
        }
        r
    }

    /// The window before window `idx`.
    pub fn pre_window_idx(&self, idx: u32) -> (r: u32)
        requires
            self.wf(),
            idx < self.cnt,
        ensures
            r == prev_window(*self, idx),
            r == (if idx == 0 { self.cnt - 1 } else { idx - 1 }),
    {
        let cnt: u64 = self.cnt as u64;
        let r = ((idx as u64 + cnt - 1) % cnt) as u32;
        proof {
            let m = self.cnt as int;
            if idx == 0 {
                lemma_small_mod((m - 1) as nat, m as nat);
            } else {
                lemma_mod_add_multiples_vanish(idx - 1, m);
                lemma_small_mod((idx - 1) as nat, m as nat);
                assert(idx + m - 1 == m + (idx - 1));
            }
        }
        r
    }
}

/// The points gathered walking forward from window `start` over `steps`
/// more windows: each window's answer, a later window's answer replacing an
/// earlier one under the same timestamp.
pub open spec fn walked(
    snaps: Seq<WindowSnapshot>,
    cnt: u32,
    start: u32,
    steps: nat,
    begin: u32,
    end: u32,
    quality_type: QualityType,
) -> Map<u32, StdPoint>
    decreases steps,
{
    if steps == 0 {
        snap_filtered(snaps[start as int], begin, end, quality_type)
    } else {
        walked(snaps, cnt, start, (steps - 1) as nat, begin, end, quality_type).union_prefer_right(
            snap_filtered(snaps[(start + steps) % (cnt as int)], begin, end, quality_type),
        )
    }
}

/// The greatest timestamp of a nonempty answer.
pub open spec fn greatest_key(m: Map<u32, StdPoint>) -> u32 {
    choose|k: u32| m.contains_key(k) && forall|j: u32| #[trigger] m.contains_key(j) ==> j <= k
}

/// Looking back from window `idx` over `left` windows, the query at each
/// window running from `begin` (one window earlier at each step) to `end`:
/// the latest point of the first window with an answer; none when the
/// windows run out or `begin` would fall below zero.
pub open spec fn latest_from(
    cfg: WindowCfg,
    snaps: Seq<WindowSnapshot>,
    idx: u32,
    begin: u32,
    end: u32,
    quality_type: QualityType,
    left: nat,
) -> Option<(u32, StdPoint)>
    decreases left,
{
    if left == 0 {
        None
    } else {
        let f = snap_filtered(snaps[idx as int], begin, end, quality_type);
        if !f.is_empty() {
            Some((greatest_key(f), f[greatest_key(f)]))
        } else if begin < cfg.size {
            None
        } else {
            latest_from(
                cfg,
                snaps,
                prev_window(cfg, idx) as u32,
                (begin - cfg.size) as u32,
                end,
                quality_type,
                (left - 1) as nat,
            )
        }
    }
}

/// A query with an answer has a latest answer.
pub proof fn lemma_filtered_has_latest(
    points: Seq<CompressStdPoint>,
    ts: u32,
    begin: u32,
    end: u32,
    quality_type: QualityType,
)
    ensures
        !filtered(points, ts, begin, end, quality_type).is_empty() ==> exists|m: u32|
            filtered(points, ts, begin, end, quality_type).contains_key(m) && forall|k: u32|
                #[trigger] filtered(points, ts, begin, end, quality_type).contains_key(k) ==> k <= m,
    decreases points.len(),
{
    if points.len() > 0 {
        let prev = points.drop_last();
        lemma_filtered_has_latest(prev, ts, begin, end, quality_type);
        let m0 = filtered(prev, ts, begin, end, quality_type);
        let f = filtered(points, ts, begin, end, quality_type);
        let p = points.last();
        if selected(ts, p, begin, end, quality_type) {
            let t = point_ts(ts, p) as u32;
            if m0.is_empty() {
                assert forall|k: u32| #[trigger] f.contains_key(k) implies k <= t by {
                    if k != t {
                        assert(m0.dom().contains(k));
                    }
                }
                assert(f.contains_key(t));
            } else {
                let m = choose|m: u32| m0.contains_key(m) && forall|k: u32| #[trigger] m0.contains_key(k) ==> k <= m;
                let best = if m < t { t } else { m };
                assert forall|k: u32| #[trigger] f.contains_key(k) implies k <= best by {
                    if k != t {
                        assert(m0.contains_key(k));
                    }
                }
                assert(f.contains_key(best));
            }
        } else {
            assert(f == m0);
        }
    }
}

/// What a look back finds, when it finds something: a point at or before
/// `end`, of the asked quality, answering the query of one window of the
/// ring, and no point of that window's answer is later.
pub proof fn lemma_latest_from_answer(
    cfg: WindowCfg,
    snaps: Seq<WindowSnapshot>,
    idx: u32,
    begin: u32,
    end: u32,
    quality_type: QualityType,
    left: nat,
)
    requires
        cfg.wf(),
        snaps.len() == cfg.cnt,
        idx < cfg.cnt,
    ensures
        latest_from(cfg, snaps, idx, begin, end, quality_type, left) matches Some((t, p)) ==> {
            &&& t <= end
            &&& spec_same_quality(p.quality, quality_type)
            &&& exists|w: u32, b: u32|
                {
                    let f = #[trigger] snap_filtered(snaps[w as int], b, end, quality_type);
                    &&& w < cfg.cnt
                    &&& f.contains_key(t)
                    &&& f[t] == p
                    &&& forall|k: u32| #[trigger] f.contains_key(k) ==> k <= t
                }
        },
    decreases left,
{
    if left > 0 {
        let w = snaps[idx as int];
        let f = snap_filtered(w, begin, end, quality_type);
        if !f.is_empty() {
            lemma_filtered_has_latest(w.points@, w.ts, begin, end, quality_type);
            lemma_filtered_in_range(w.points@, w.ts, begin, end, quality_type);
            let g = greatest_key(f);
            assert(f.contains_key(g) && forall|k: u32| #[trigger] f.contains_key(k) ==> k <= g);
            assert(snap_filtered(snaps[idx as int], begin, end, quality_type) == f);
        } else if begin >= cfg.size {
            let m = cfg.cnt as int;
            lemma_mod_bound(idx + m - 1, m);
            lemma_latest_from_answer(
                cfg,
                snaps,
                prev_window(cfg, idx) as u32,
                (begin - cfg.size) as u32,
                end,
                quality_type,
                (left - 1) as nat,
            );
        }
    }
}

/// What `latest_spec` finds, when it finds something: a point at or before
/// `end`, of the asked quality, answering the query of one window of the
/// ring, with no later point in that window's answer.
pub proof fn lemma_latest_answer(
    cfg: WindowCfg,
    snaps: Seq<WindowSnapshot>,
    end: u32,
    quality_type: QualityType,
)
    requires
        cfg.wf(),
        snaps.len() == cfg.cnt,
    ensures
        latest_spec(cfg, snaps, end, quality_type) matches Some((t, p)) ==> {
            &&& t <= end
            &&& spec_same_quality(p.quality, quality_type)
            &&& exists|w: u32, b: u32|
                {
                    let f = #[trigger] snap_filtered(snaps[w as int], b, end, quality_type);
                    &&& w < cfg.cnt
                    &&& f.contains_key(t)
                    &&& f[t] == p
                    &&& forall|k: u32| #[trigger] f.contains_key(k) ==> k <= t
                }
        },
{
    let m = cfg.cnt as int;
    lemma_mod_bound((end / cfg.size) as int, m);
    let e = window_of(cfg, end) as u32;
    let b = next_window(cfg, e) as u32;
    lemma_latest_from_answer(
        cfg,
        snaps,
        e,
        (end - end % cfg.size) as u32,
        end,
        quality_type,
        ring_distance(cfg.cnt, b, e) as nat,
    );
}

/// The query of the window `i` windows back from the one starting at `b0`:
/// the window holding time `b0 - i * size`, asked for `[b0 - i * size, end]`.
pub open spec fn back_query(
    cfg: WindowCfg,
    snaps: Seq<WindowSnapshot>,
    b0: int,
    i: int,
    end: u32,
    quality_type: QualityType,
) -> Map<u32, StdPoint> {
    let b = b0 - i * cfg.size;
    snap_filtered(snaps[window_of(cfg, b as u32)], b as u32, end, quality_type)
}

/// `(t, p)` is the latest answer of the query `i` windows back from `b0`.
pub open spec fn latest_of_query(
    cfg: WindowCfg,
    snaps: Seq<WindowSnapshot>,
    b0: int,
    i: int,
    end: u32,
    quality_type: QualityType,
    t: u32,
    p: StdPoint,
) -> bool {
    let f = back_query(cfg, snaps, b0, i, end, quality_type);
    &&& f.contains_key(t)
    &&& f[t] == p
    &&& forall|k: u32| #[trigger] f.contains_key(k) ==> k <= t
}

/// The queries `0..i` windows back from `b0` answer nothing.
pub open spec fn nothing_before(
    cfg: WindowCfg,
    snaps: Seq<WindowSnapshot>,
    b0: int,
    i: int,
    end: u32,
    quality_type: QualityType,
) -> bool {
    forall|j: int| 0 <= j < i ==> (#[trigger] back_query(cfg, snaps, b0, j, end, quality_type)).is_empty()
}

/// The window holding a time is, around the ring, the one after the window
/// holding the time one window earlier.
proof fn lemma_window_before(cfg: WindowCfg, b: int)
    requires
        cfg.wf(),
        cfg.size <= b <= u32::MAX,
    ensures
        window_of(cfg, b as u32) < cfg.cnt,
        prev_window(cfg, window_of(cfg, b as u32) as u32) == window_of(cfg, (b - cfg.size) as u32),
{
    let d = cfg.size as int;
    let n = cfg.cnt as int;
    let q = b / d;
    lemma_fundamental_div_mod(b, d);
    lemma_mod_bound(b, d);
    assert(b - d == (q - 1) * d + b % d) by (nonlinear_arith)
        requires
            b == d * q + b % d,
    ;
    lemma_fundamental_div_mod_converse(b - d, d, q - 1, b % d);
    assert(q >= 1) by (nonlinear_arith)
        requires
            b == d * q + b % d,
            b % d < d,
            d <= b,
    ;
    lemma_mod_bound(q, n);
    let w = q % n;
    lemma_small_mod((n - 1) as nat, n as nat);
    lemma_add_mod_noop(w, n - 1, n);
    lemma_mod_twice(q, n);
    lemma_add_mod_noop(q, n - 1, n);
    lemma_mod_add_multiples_vanish(q - 1, n);
    assert(q + (n - 1) == n + (q - 1));
}

/// A time and the start of its window fall in the same window.
proof fn lemma_window_start_same(cfg: WindowCfg, end: u32)
    requires
        cfg.wf(),
    ensures
        end % cfg.size <= end,
        window_of(cfg, (end - end % cfg.size) as u32) == window_of(cfg, end),
        window_of(cfg, end) < cfg.cnt,
{
    let d = cfg.size as int;
    lemma_fundamental_div_mod(end as int, d);
    lemma_mod_bound(end as int, d);
    lemma_mod_decreases(end as nat, cfg.size as nat);
    let x = end as int;
    let q = x / d;
    assert(x - x % d == q * d) by (nonlinear_arith)
        requires
            x == d * q + x % d,
    ;
    lemma_fundamental_div_mod_converse(x - x % d, d, q, 0);
    lemma_mod_bound(q, cfg.cnt as int);
}

/// `(t, p)` is the latest answer of the first of the queries `i` windows
/// back from the window of `begin` (`i < left`, not going below time zero)
/// that answers something.
pub open spec fn look_back_found(
    cfg: WindowCfg,
    snaps: Seq<WindowSnapshot>,
    begin: u32,
    end: u32,
    quality_type: QualityType,
    left: nat,
    t: u32,
    p: StdPoint,
) -> bool {
    exists|i: int|
        0 <= i < left && i * cfg.size <= begin && #[trigger] latest_of_query(
            cfg,
            snaps,
            begin as int,
            i,
            end,
            quality_type,
            t,
            p,
        ) && nothing_before(cfg, snaps, begin as int, i, end, quality_type)
}

/// None of the queries `i` windows back from the window of `begin` (`i <
/// left`, not going below time zero) answers anything.
pub open spec fn look_back_none(
    cfg: WindowCfg,
    snaps: Seq<WindowSnapshot>,
    begin: u32,
    end: u32,
    quality_type: QualityType,
    left: nat,
) -> bool {
    forall|i: int|
        0 <= i < left && i * cfg.size <= begin ==> (#[trigger] back_query(
            cfg,
            snaps,
            begin as int,
            i,
            end,
            quality_type,
        )).is_empty()
}

/// A look back from the window of `begin` over `left` windows finds the
/// latest answer of the first query back that answers something, and finds
/// nothing exactly when no such query answers anything.
#[verifier::spinoff_prover]
#[verifier::rlimit(40)]
proof fn lemma_latest_from_law(
    cfg: WindowCfg,
    snaps: Seq<WindowSnapshot>,
    begin: u32,
    end: u32,
    quality_type: QualityType,
    left: nat,
)
    requires
        cfg.wf(),
        snaps.len() == cfg.cnt,
    ensures
        match latest_from(cfg, snaps, window_of(cfg, begin) as u32, begin, end, quality_type, left) {
            Some((t, p)) => look_back_found(cfg, snaps, begin, end, quality_type, left, t, p),
            None => look_back_none(cfg, snaps, begin, end, quality_type, left),
        },
    decreases left,
{
    if left > 0 {
        let d = cfg.size as int;
        let idx = window_of(cfg, begin) as u32;
        lemma_mod_bound((begin / cfg.size) as int, cfg.cnt as int);
        let w = snaps[idx as int];
        let f = snap_filtered(w, begin, end, quality_type);
        assert(back_query(cfg, snaps, begin as int, 0, end, quality_type) == f);
        if !f.is_empty() {
            lemma_filtered_has_latest(w.points@, w.ts, begin, end, quality_type);
            let g = greatest_key(f);
            assert(f.contains_key(g) && forall|k: u32| #[trigger] f.contains_key(k) ==> k <= g);
            assert(latest_of_query(cfg, snaps, begin as int, 0, end, quality_type, g, f[g]));
            assert(nothing_before(cfg, snaps, begin as int, 0, end, quality_type));
            assert(latest_from(cfg, snaps, idx, begin, end, quality_type, left) == Some((g, f[g])));
            let i0: int = 0;
            assert(i0 * cfg.size == 0);
            assert(0 <= i0 < left && i0 * cfg.size <= begin && latest_of_query(
                cfg,
                snaps,
                begin as int,
                i0,
                end,
                quality_type,
                g,
                f[g],
            ) && nothing_before(cfg, snaps, begin as int, i0, end, quality_type));
            assert(look_back_found(cfg, snaps, begin, end, quality_type, left, g, f[g]));
        } else if begin < cfg.size {
            assert(latest_from(cfg, snaps, idx, begin, end, quality_type, left) is None);
            assert forall|i: int|
                0 <= i < left && i * cfg.size <= begin implies (#[trigger] back_query(
                cfg,
                snaps,
                begin as int,
                i,
                end,
                quality_type,
            )).is_empty() by {
                if i >= 1 {
                    assert(i * d >= d) by (nonlinear_arith)
                        requires
                            i >= 1,
                            d > 0,
                    ;
                }
            }
        } else {
            let b1 = (begin - cfg.size) as u32;
            lemma_window_before(cfg, begin as int);
            lemma_latest_from_law(cfg, snaps, b1, end, quality_type, (left - 1) as nat);
            let r = latest_from(cfg, snaps, idx, begin, end, quality_type, left);
            assert(r == latest_from(cfg, snaps, window_of(cfg, b1) as u32, b1, end, quality_type, (left - 1) as nat));
            if let Some((t, p)) = r {
                let i1 = choose|i: int|
                    0 <= i < left - 1 && i * cfg.size <= b1 && #[trigger] latest_of_query(
                        cfg,
                        snaps,
                        b1 as int,
                        i,
                        end,
                        quality_type,
                        t,
                        p,
                    ) && nothing_before(cfg, snaps, b1 as int, i, end, quality_type);
                lemma_back_shift(cfg, snaps, begin, i1, end, quality_type);
                assert(latest_of_query(cfg, snaps, begin as int, i1 + 1, end, quality_type, t, p));
                assert forall|j: int| 0 <= j < i1 + 1 implies (#[trigger] back_query(
                    cfg,
                    snaps,
                    begin as int,
                    j,
                    end,
                    quality_type,
                )).is_empty() by {
                    if j > 0 {
                        lemma_back_shift(cfg, snaps, begin, j - 1, end, quality_type);
                        assert(back_query(cfg, snaps, b1 as int, j - 1, end, quality_type).is_empty());
                    }
                }
                assert(nothing_before(cfg, snaps, begin as int, i1 + 1, end, quality_type));
                assert(0 <= i1 + 1 < left && (i1 + 1) * cfg.size <= begin);
                assert(look_back_found(cfg, snaps, begin, end, quality_type, left, t, p));
            } else {
                assert forall|i: int|
                    0 <= i < left && i * cfg.size <= begin implies (#[trigger] back_query(
                    cfg,
                    snaps,
                    begin as int,
                    i,
                    end,
                    quality_type,
                )).is_empty() by {
                    if i > 0 {
                        lemma_back_shift(cfg, snaps, begin, i - 1, end, quality_type);
                        assert(back_query(cfg, snaps, b1 as int, i - 1, end, quality_type).is_empty());
                    }
                }
            }
        }
    }
}

/// The query `i + 1` windows back from `begin` is the query `i` windows
/// back from one window earlier.
proof fn lemma_back_shift(
    cfg: WindowCfg,
    snaps: Seq<WindowSnapshot>,
    begin: u32,
    i: int,
    end: u32,
    quality_type: QualityType,
)
    requires
        cfg.size <= begin,
    ensures
        back_query(cfg, snaps, begin as int, i + 1, end, quality_type) == back_query(
            cfg,
            snaps,
            (begin - cfg.size) as u32 as int,
            i,
            end,
            quality_type,
        ),
        (i + 1) * cfg.size == i * cfg.size + cfg.size,
{
    let d = cfg.size as int;
    let b1 = (begin - cfg.size) as u32 as int;
    assert(b1 == begin - d);
    assert(b1 - i * d == begin - (i + 1) * d) by (nonlinear_arith)
        requires
            b1 == begin - d,
    ;
    assert((i + 1) * d == i * d + d) by (nonlinear_arith);
}

/// What `latest` answers, in terms of the window queries it is made of.
/// With `start` the start of `end`'s window, the query `i` windows back asks
/// the window holding time `start - i * size` for `[start - i * size, end]`,
/// for the `cnt - 1` windows that precede the one after `end`'s (and not
/// below time zero). The answer is the latest answer of the first such query
/// that answers something, no earlier query answering anything; so it lies
/// in `[start - (cnt - 2) * size, end]` and has the asked quality. It is
/// nothing exactly when none of those queries answers anything.
pub proof fn lemma_latest_law(cfg: WindowCfg, snaps: Seq<WindowSnapshot>, end: u32, quality_type: QualityType)
    requires
        cfg.wf(),
        snaps.len() == cfg.cnt,
    ensures
        ({
            let start = end - end % cfg.size;
            let r = latest_spec(cfg, snaps, end, quality_type);
            &&& r matches Some((t, p)) ==> {
                &&& start - (cfg.cnt - 2) * cfg.size <= t <= end
                &&& spec_same_quality(p.quality, quality_type)
                &&& exists|i: int|
                    0 <= i < cfg.cnt - 1 && i * cfg.size <= start && #[trigger] latest_of_query(
                        cfg,
                        snaps,
                        start,
                        i,
                        end,
                        quality_type,
                        t,
                        p,
                    ) && nothing_before(cfg, snaps, start, i, end, quality_type)
            }
            &&& r is None <==> forall|i: int|
                0 <= i < cfg.cnt - 1 && i * cfg.size <= start ==> (#[trigger] back_query(
                    cfg,
                    snaps,
                    start,
                    i,
                    end,
                    quality_type,
                )).is_empty()
        }),
{
    let d = cfg.size as int;
    let n = cfg.cnt as int;
    lemma_window_start_same(cfg, end);
    let start = end - end % cfg.size;
    let b0 = start as u32;
    let e = window_of(cfg, end) as u32;
    let b = next_window(cfg, e) as u32;
    if e + 1 < n {
        lemma_small_mod((e + 1) as nat, n as nat);
    } else {
        lemma_mod_self_0(n);
    }
    assert(ring_distance(cfg.cnt, b, e) == n - 1);
    lemma_latest_from_law(cfg, snaps, b0, end, quality_type, (n - 1) as nat);
    let r = latest_spec(cfg, snaps, end, quality_type);
    match r {
        Some((t, p)) => {
            let i = choose|i: int|
                0 <= i < n - 1 && i * cfg.size <= b0 && #[trigger] latest_of_query(
                    cfg,
                    snaps,
                    b0 as int,
                    i,
                    end,
                    quality_type,
                    t,
                    p,
                ) && nothing_before(cfg, snaps, b0 as int, i, end, quality_type);
            let bi = start - i * d;
            let f = back_query(cfg, snaps, start, i, end, quality_type);
            let wi = snaps[window_of(cfg, bi as u32)];
            lemma_filtered_in_range(wi.points@, wi.ts, bi as u32, end, quality_type);
            assert(f.contains_key(t));
            assert(i * d <= (n - 2) * d) by (nonlinear_arith)
                requires
                    i <= n - 2,
                    d > 0,
            ;
            assert(!back_query(cfg, snaps, start, i, end, quality_type).is_empty());
        },
        None => {},
    }
}

/// The latest point at or before `end` with the asked quality in a snapshot
/// of the ring: looking back from `end`'s window over all windows but the
/// one after it.
pub open spec fn latest_spec(
    cfg: WindowCfg,
    snaps: Seq<WindowSnapshot>,
    end: u32,
    quality_type: QualityType,
) -> Option<(u32, StdPoint)> {
    let e = window_of(cfg, end) as u32;
    let b = next_window(cfg, e) as u32;
    latest_from(cfg, snaps, e, (end - end % cfg.size) as u32, end, quality_type, ring_distance(cfg.cnt, b, e) as nat)
}

/// The answer of a snapshot of the ring to a range query: the answers of the
/// windows from `begin`'s to `end`'s, and, when none sits exactly at
/// `begin`, the latest point at or before `begin`.
pub open spec fn range_spec(
    cfg: WindowCfg,
    snaps: Seq<WindowSnapshot>,
    begin: u32,
    end: u32,
    quality_type: QualityType,
) -> Map<u32, StdPoint> {
    let b = window_of(cfg, begin) as u32;
    let e = window_of(cfg, end) as u32;
    let m = walked(snaps, cfg.cnt, b, ring_distance(cfg.cnt, b, e) as nat, begin, end, quality_type);
    if m.contains_key(begin) {
        m
    } else {
        match latest_spec(cfg, snaps, begin, quality_type) {
            Some((t, p)) => m.insert(t, p),
            None => m,
        }
    }
}

/// The answer of the window `j` steps forward around the ring from the
/// window of `begin` to the query `[begin, end]`.
pub open spec fn walk_query(
    cfg: WindowCfg,
    snaps: Seq<WindowSnapshot>,
    begin: u32,
    end: u32,
    quality_type: QualityType,
    j: int,
) -> Map<u32, StdPoint> {
    snap_filtered(snaps[(window_of(cfg, begin) + j) % (cfg.cnt as int)], begin, end, quality_type)
}

/// Of the windows `0..=steps` steps forward from the window of `begin`,
/// window `j` is the last whose answer holds `k`.
pub open spec fn last_holding(
    cfg: WindowCfg,
    snaps: Seq<WindowSnapshot>,
    begin: u32,
    end: u32,
    quality_type: QualityType,
    steps: int,
    j: int,
    k: u32,
) -> bool {
    &&& 0 <= j <= steps
    &&& walk_query(cfg, snaps, begin, end, quality_type, j).contains_key(k)
    &&& forall|j2: int|
        j < j2 <= steps ==> !(#[trigger] walk_query(cfg, snaps, begin, end, quality_type, j2)).contains_key(k)
}

/// Walking forward from the window of `begin` over `steps` more windows
/// gathers every answer of every window walked, and each gathered point is
/// the one the last window holding its timestamp answers.
proof fn lemma_walked_law(
    cfg: WindowCfg,
    snaps: Seq<WindowSnapshot>,
    begin: u32,
    end: u32,
    quality_type: QualityType,
    steps: nat,
)
    requires
        cfg.wf(),
        snaps.len() == cfg.cnt,
    ensures
        ({
            let m = walked(snaps, cfg.cnt, window_of(cfg, begin) as u32, steps, begin, end, quality_type);
            &&& forall|j: int, k: u32|
                0 <= j <= steps && #[trigger] walk_query(cfg, snaps, begin, end, quality_type, j).contains_key(k)
                    ==> m.contains_key(k)
            &&& forall|k: u32| #[trigger]
                m.contains_key(k) ==> exists|j: int|
                    #[trigger] last_holding(cfg, snaps, begin, end, quality_type, steps as int, j, k) && m[k]
                        == walk_query(cfg, snaps, begin, end, quality_type, j)[k]
        }),
    decreases steps,
{
    let n = cfg.cnt as int;
    let b = window_of(cfg, begin);
    lemma_mod_bound((begin / cfg.size) as int, n);
    lemma_small_mod(b as nat, n as nat);
    let m = walked(snaps, cfg.cnt, b as u32, steps, begin, end, quality_type);
    if steps == 0 {
        assert(walk_query(cfg, snaps, begin, end, quality_type, 0) == m);
        assert forall|k: u32| #[trigger] m.contains_key(k) implies exists|j: int|
            #[trigger] last_holding(cfg, snaps, begin, end, quality_type, steps as int, j, k) && m[k]
                == walk_query(cfg, snaps, begin, end, quality_type, j)[k] by {
            assert(last_holding(cfg, snaps, begin, end, quality_type, 0, 0, k));
        }
    } else {
        let s1 = (steps - 1) as nat;
        lemma_walked_law(cfg, snaps, begin, end, quality_type, s1);
        let prev = walked(snaps, cfg.cnt, b as u32, s1, begin, end, quality_type);
        let last = walk_query(cfg, snaps, begin, end, quality_type, steps as int);
        assert(m == prev.union_prefer_right(last));
        assert forall|j: int, k: u32|
            0 <= j <= steps && #[trigger] walk_query(cfg, snaps, begin, end, quality_type, j).contains_key(k)
                implies m.contains_key(k) by {
            if j < steps {
                assert(prev.contains_key(k));
            }
        }
        assert forall|k: u32| #[trigger] m.contains_key(k) implies exists|j: int|
            #[trigger] last_holding(cfg, snaps, begin, end, quality_type, steps as int, j, k) && m[k]
                == walk_query(cfg, snaps, begin, end, quality_type, j)[k] by {
            if last.contains_key(k) {
                assert(last_holding(cfg, snaps, begin, end, quality_type, steps as int, steps as int, k));
            } else {
                assert(prev.contains_key(k));
                let j = choose|j: int|
                    #[trigger] last_holding(cfg, snaps, begin, end, quality_type, s1 as int, j, k) && prev[k]
                        == walk_query(cfg, snaps, begin, end, quality_type, j)[k];
                assert forall|j2: int| j < j2 <= steps implies !(#[trigger] walk_query(
                    cfg,
                    snaps,
                    begin,
                    end,
                    quality_type,
                    j2,
                )).contains_key(k) by {
                    if j2 < steps {
                        assert(j < j2 <= s1);
                    }
                }
                assert(last_holding(cfg, snaps, begin, end, quality_type, steps as int, j, k));
            }
        }
    }
}

/// What `range` answers, in terms of the windows it reads. With `D` the
/// number of steps forward around the ring from the window of `begin` to
/// the window of `end`: every point that the query `[begin, end]` finds in
/// any of the windows `0..=D` steps forward is answered, under the value of
/// the last of those windows that holds its timestamp; every other point of
/// the answer is the latest point at or before `begin`, added only when no
/// walked window holds a point at `begin`.
pub proof fn lemma_range_law(
    cfg: WindowCfg,
    snaps: Seq<WindowSnapshot>,
    begin: u32,
    end: u32,
    quality_type: QualityType,
)
    requires
        cfg.wf(),
        snaps.len() == cfg.cnt,
    ensures
        ({
            let d = ring_distance(cfg.cnt, window_of(cfg, begin) as u32, window_of(cfg, end) as u32);
            let r = range_spec(cfg, snaps, begin, end, quality_type);
            &&& forall|j: int, k: u32|
                0 <= j <= d && #[trigger] walk_query(cfg, snaps, begin, end, quality_type, j).contains_key(k)
                    ==> r.contains_key(k)
            &&& forall|k: u32| #[trigger]
                r.contains_key(k) ==> (exists|j: int|
                    #[trigger] last_holding(cfg, snaps, begin, end, quality_type, d, j, k) && r[k]
                        == walk_query(cfg, snaps, begin, end, quality_type, j)[k]) || ({
                    &&& latest_spec(cfg, snaps, begin, quality_type) == Some((k, r[k]))
                    &&& forall|j: int|
                        0 <= j <= d ==> !(#[trigger] walk_query(cfg, snaps, begin, end, quality_type, j)).contains_key(begin)
                })
        }),
{
    let n = cfg.cnt as int;
    lemma_mod_bound((begin / cfg.size) as int, n);
    lemma_mod_bound((end / cfg.size) as int, n);
    let b = window_of(cfg, begin) as u32;
    let e = window_of(cfg, end) as u32;
    let d = ring_distance(cfg.cnt, b, e);
    lemma_walked_law(cfg, snaps, begin, end, quality_type, d as nat);
    let m = walked(snaps, cfg.cnt, b, d as nat, begin, end, quality_type);
    let r = range_spec(cfg, snaps, begin, end, quality_type);
    if !m.contains_key(begin) {
        match latest_spec(cfg, snaps, begin, quality_type) {
            Some((t, p)) => {
                assert(r == m.insert(t, p));
                assert forall|k: u32| #[trigger] r.contains_key(k) implies (exists|j: int|
                    #[trigger] last_holding(cfg, snaps, begin, end, quality_type, d, j, k) && r[k]
                        == walk_query(cfg, snaps, begin, end, quality_type, j)[k]) || ({
                    &&& latest_spec(cfg, snaps, begin, quality_type) == Some((k, r[k]))
                    &&& forall|j: int|
                        0 <= j <= d ==> !(#[trigger] walk_query(cfg, snaps, begin, end, quality_type, j)).contains_key(begin)
                }) by {
                    if k != t {
                        assert(m.contains_key(k));
                    }
                }
            },
            None => {},
        }
    }
}

/// The latest point at or before `end` with the asked quality in a snapshot
/// of the ring (see `latest_spec`).
pub fn latest_in(cfg: WindowCfg, snaps: &Vec<WindowSnapshot>, end: u32, quality_type: QualityType) -> (r:
    Option<(u32, StdPoint)>)
    requires
        cfg.wf(),
        snaps@.len() == cfg.cnt,
    ensures
        r == latest_spec(cfg, snaps@, end, quality_type),
{
    let mut e_idx = cfg.window_idx(end);
    let b_idx = cfg.next_window_idx(e_idx);
    let w_size = cfg.size;
    proof {
        lemma_mod_decreases(end as nat, w_size as nat);
    }
    let mut begin = end - (end % w_size);
    while b_idx != e_idx
        invariant
            cfg.wf(),
            snaps@.len() == cfg.cnt,
            w_size == cfg.size,
            b_idx < cfg.cnt,
            e_idx < cfg.cnt,
            latest_spec(cfg, snaps@, end, quality_type) == latest_from(
                cfg,
                snaps@,
                e_idx,
                begin,
                end,
                quality_type,
                ring_distance(cfg.cnt, b_idx, e_idx) as nat,
            ),
        decreases ring_distance(cfg.cnt, b_idx, e_idx),
    {
        let vals = filter_snapshot(&snaps[e_idx as usize], begin, end, quality_type);
        if !vals.is_empty() {
            match max_key(&vals) {
                Some(max_ts) => {
                    proof {
                        let f = vals@;
                        assert(f.contains_key(max_ts) && forall|j: u32| #[trigger] f.contains_key(j) ==> j <= max_ts);
                        let g = greatest_key(f);
                        assert(g <= max_ts && max_ts <= g);
                    }
                    match vals.get(&max_ts) {
                        Some(p) => {
                            return Some((max_ts, *p));
                        },
                        None => {
                            return None;
                        },
                    }
                },
                None => {
                    proof {
                        assert(vals@.dom().len() == 0);
                        assert(vals@.dom() =~= Set::<u32>::empty());
                    }
                    return None;
                },
            }
        }
        begin = match begin.checked_sub(w_size) {
            Some(b) => b,
            None => {
                return None;
            },
        };
        e_idx = cfg.pre_window_idx(e_idx);
    }
    None
}

/// The answer of a snapshot of the ring to a range query (see `range_spec`).
pub fn range_in(
    cfg: WindowCfg,
    snaps: &Vec<WindowSnapshot>,
    begin: u32,
    end: u32,
    quality_type: QualityType,
) -> (res: HashMap<u32, StdPoint>)
    requires
        cfg.wf(),
        snaps@.len() == cfg.cnt,
    ensures
        res@ == range_spec(cfg, snaps@, begin, end, quality_type),
{
    let b0 = cfg.window_idx(begin);
    let e_idx = cfg.window_idx(end);
    let mut b_idx = b0;
    let mut res = filter_snapshot(&snaps[b_idx as usize], begin, end, quality_type);
    let ghost mut steps: nat = 0;
    proof {
        lemma_small_mod(b0 as nat, cfg.cnt as nat);
    }
    while b_idx != e_idx
        invariant
            cfg.wf(),
            snaps@.len() == cfg.cnt,
            b_idx < cfg.cnt,
            e_idx < cfg.cnt,
            b0 < cfg.cnt,
            b_idx == (b0 + steps) % (cfg.cnt as int),
            steps + ring_distance(cfg.cnt, b_idx, e_idx) == ring_distance(cfg.cnt, b0, e_idx),
            res@ == walked(snaps@, cfg.cnt, b0, steps, begin, end, quality_type),
        decreases ring_distance(cfg.cnt, b_idx, e_idx),
    {
        let ghost old_b = b_idx;
        b_idx = cfg.next_window_idx(b_idx);
        proof {
            let m = cfg.cnt as int;
            lemma_add_mod_noop_right(1, b0 + steps, m);
            assert(1 + (b0 + steps) == b0 + (steps + 1));
            if old_b + 1 < m {
                lemma_small_mod((old_b + 1) as nat, m as nat);
            } else {
                lemma_mod_self_0(m);
            }
            steps = steps + 1;
        }
        let w = filter_snapshot(&snaps[b_idx as usize], begin, end, quality_type);
        let ghost before = res@;
        let mut i_res = res;
        extend_map(&mut i_res, &w);
        res = i_res;
        proof {
            assert(res@ == before.union_prefer_right(w@));
        }
    }
    if !res.contains_key(&begin) {
        if let Some((l_ts, l_val)) = latest_in(cfg, snaps, begin, quality_type) {
            res.insert(l_ts, l_val);
        }
    }
    res
}

/// Puts every entry of `from` into `into`, replacing entries under the same key.
pub fn extend_map(into: &mut HashMap<u32, StdPoint>, from: &HashMap<u32, StdPoint>)
    ensures
        final(into)@ == old(into)@.union_prefer_right(from@),
{
    let ghost start = into@;
    let ghost ks = spec_keys_iter(from).remaining().unref();
    for key in it: from.keys()
        invariant
            it.seq().unref() == ks,
            ks.to_set() == from@.dom(),
            ks.no_duplicates(),
            into@ == start.union_prefer_right(from@.restrict(ks.take(it.index()).to_set())),
    {
        proof {
            assert(*key == ks[it.index()]);
            assert(ks.to_set().contains(ks[it.index()]));
        }
        match from.get(key) {
            Some(v) => {
                into.insert(*key, *v);
            },
            None => {},
        }
        proof {
            let i = it.index();
            assert(ks.take(i + 1) =~= ks.take(i).push(ks[i]));
            assert forall|x: u32| ks.take(i + 1).to_set().contains(x) <==> ks.take(i).to_set().insert(
                ks[i],
            ).contains(x) by {
                let t1 = ks.take(i + 1);
                let t0 = ks.take(i);
                if t1.contains(x) {
                    let j = choose|j: int| 0 <= j < t1.len() && #[trigger] t1[j] == x;
                    if j < i {
                        assert(ks.take(i)[j] == x);
                    }
                }
                if t0.contains(x) {
                    let j = choose|j: int| 0 <= j < t0.len() && #[trigger] t0[j] == x;
                    assert(ks.take(i + 1)[j] == x);
                }
                if x == ks[i] {
                    assert(ks.take(i + 1)[i] == x);
                }
            }
            assert(ks.take(i + 1).to_set() =~= ks.take(i).to_set().insert(ks[i]));
            assert(into@ =~= start.union_prefer_right(from@.restrict(ks.take(i + 1).to_set())));
        }
    }
    proof {
        assert(ks.take(ks.len() as int) =~= ks);
        assert(from@.restrict(ks.to_set()) =~= from@);
    }
}

/// Where a point at `ts` goes when the time is `now`: nowhere when it is
/// older than `cfg.expire` seconds before `now` (no point is, while `now` is
/// below `cfg.expire`); else its window, the start time of that window, and
/// its offset in the window cut to a byte.
pub fn place_point(cfg: WindowCfg, ts: u32, now: u32) -> (r: Option<(u32, u32, u8)>)
    requires
        cfg.wf(),
    ensures
        r is None <==> ts + cfg.expire < now,
        r matches Some((idx, window_ts, offset)) ==> {
            &&& idx == window_of(cfg, ts)
            &&& idx < cfg.cnt
            &&& window_ts == ts - ts % cfg.size
            &&& offset == (ts % cfg.size) as u8
        },
{
    let expire_ts = now.saturating_sub(cfg.expire);
    if ts < expire_ts {
        return None;
    }
    let idx = (ts / cfg.size) % cfg.cnt;
    let window_offset = ts % cfg.size;
    proof {
        lemma_mod_decreases(ts as nat, cfg.size as nat);
    }
    Some((idx, ts - window_offset, window_offset as u8))
}

/// What the layout lock holds at every moment: a usable layout.
pub open spec fn usable_cfg() -> spec_fn(WindowCfg) -> bool {
    |c: WindowCfg| c.wf()
}

/// A window layout shared by window rings: each ring reads it on every
/// call, so changing it changes how every ring sharing it places and finds
/// points.
pub struct WindowLayout {
    cfg: RwLock<WindowCfg, spec_fn(WindowCfg) -> bool>,
}

impl WindowLayout {
    /// The lock holds a usable layout.
    #[verifier::type_invariant]
    spec fn inv(&self) -> bool {
        self.cfg.pred() == usable_cfg()
    }

    pub fn new(cfg: WindowCfg) -> (l: Self)
        requires
            cfg.wf(),
    {
        Self { cfg: RwLock::new(cfg, Ghost(usable_cfg())) }
    }

    /// The layout at the moment it was read; it is usable.
    pub fn get(&self) -> (c: WindowCfg)
        ensures
            c.wf(),
    {
        proof {
            use_type_invariant(self);
        }
        let handle = self.cfg.acquire_read();
        let c = *handle.borrow();
        handle.release_read();
        c
    }

    /// Replaces the layout.
    pub fn set(&self, cfg: WindowCfg)
        requires
            cfg.wf(),
    {
        proof {
            use_type_invariant(self);
        }
        let (_old, handle) = self.cfg.acquire_write();
        handle.release_write(cfg);
    }
}

/// A ring of time windows holding the most recent points, laid out by a
/// shared layout read on every call.
pub struct StdPointWindow {
    last_change_ts: AtomicU32,
    last_write_ts: AtomicU32,
    window_data: Vec<StdPointList>,
    write_lock: RwLock<(), spec_fn(()) -> bool>,
    layout: Arc<WindowLayout>,
}

impl StdPointWindow {
    /// The write lock guards no data.
    #[verifier::type_invariant]
    spec fn inv(&self) -> bool {
        self.write_lock.pred() == unit_guard()
    }

    /// The number of windows the ring was made with.
    pub closed spec fn window_count(&self) -> nat {
        self.window_data@.len()
    }

    /// The layout the ring reads on every call.
    pub closed spec fn spec_layout(&self) -> Arc<WindowLayout> {
        self.layout
    }

    /// A ring of as many empty windows as the layout has at this moment,
    /// reading that layout from then on.
    pub fn new(layout: Arc<WindowLayout>) -> (w: Self)
        ensures
            w.window_count() > 0,
            exists|c: WindowCfg| c.wf() && w.window_count() == #[trigger] c.cnt,
            w.spec_layout() == layout,
    {
        let cfg = layout.get();
        let w_cnt = cfg.cnt;
        let mut window_data: Vec<StdPointList> = Vec::new();
        let mut n: u32 = 0;
        while n < w_cnt
            invariant
                n <= w_cnt,
                window_data@.len() == n,
            decreases w_cnt - n,
        {
            window_data.push(StdPointList::new());
            n = n + 1;
        }
        let w = Self {
            last_change_ts: AtomicU32::new(0),
            last_write_ts: AtomicU32::new(0),
            window_data,
            write_lock: RwLock::new((), Ghost(unit_guard())),
            layout,
        };
        assert(cfg.wf() && w.window_count() == cfg.cnt);
        w
    }

    /// The layout in force at the moment it was read.
    pub fn cfg(&self) -> (c: WindowCfg)
        ensures
            c.wf(),
    {
        self.layout.get()
    }

    /// The point list of window `idx`, when the ring has that many windows.
    fn window_at(&self, idx: u32) -> (w: Option<&StdPointList>)
        ensures
            match w {
                Some(l) => idx < self.window_data@.len() && *l == self.window_data@[idx as int],
                None => idx >= self.window_data@.len(),
            },
    {
        if (idx as usize) < self.window_data.len() {
            Some(&self.window_data[idx as usize])
        } else {
            None
        }
    }

    /// A copy of windows `0..cnt`, read one after another; a window the ring
    /// does not have (the layout grew after the ring was made) reads as empty.
    fn snapshots(&self, cnt: u32) -> (snaps: Vec<WindowSnapshot>)
        ensures
            snaps@.len() == cnt,
    {
        let mut snaps: Vec<WindowSnapshot> = Vec::new();
        let mut i: u32 = 0;
        while i < cnt
            invariant
                i <= cnt,
                snaps@.len() == i,
            decreases cnt - i,
        {
            match self.window_at(i) {
                Some(w) => snaps.push(w.snapshot()),
                None => snaps.push(WindowSnapshot { ts: 0, points: Vec::new() }),
            }
            i = i + 1;
        }
        snaps
    }

    /// Stores `val` at timestamp `ts`, unless it is older than the layout's
    /// `expire` seconds before `now` (see `place_point`); a window that still
    /// holds an older window's points is emptied first (see `store_point`).
    /// Records `ts` as the latest write, and as the latest change when
    /// `is_changed`. A window the ring does not have is left alone.
    pub fn add(&self, ts: u32, val: &StdPoint, is_changed: bool, now: u32) {
        proof {
            use_type_invariant(self);
        }
        let cfg = self.cfg();
        let (idx, window_ts, offset_byte) = match place_point(cfg, ts, now) {
            Some(place) => place,
            None => {
                return;
            },
        };
        let w_data = match self.window_at(idx) {
            Some(w) => w,
            None => {
                return;
            },
        };
        let (unit, guard) = self.write_lock.acquire_write();
        w_data.renew_and_add(window_ts, offset_byte, val);
        self.last_write_ts.fetch_max(ts, Ordering::SeqCst);
        if is_changed {
            self.last_change_ts.fetch_max(ts, Ordering::SeqCst);
        }
        guard.release_write(unit);
    }

    /// The latest timestamp recorded as a change.
    pub fn get_last_change_ts(&self) -> (ts: u32) {
        self.last_change_ts.load(Ordering::Acquire)
    }

    /// The points of the windows from `begin`'s to `end`'s that lie in
    /// `[begin, end]` and have the asked quality; when none sits exactly at
    /// `begin`, the latest earlier point is added as well. The answer is
    /// `range_in` of the layout and the windows as they were read.
    pub fn range(&self, begin: u32, end: u32, quality_type: QualityType) -> (res: HashMap<
        u32,
        StdPoint,
    >)
        ensures
            exists|cfg: WindowCfg, snaps: Seq<WindowSnapshot>|
                cfg.wf() && snaps.len() == cfg.cnt && res@ == #[trigger] range_spec(
                    cfg,
                    snaps,
                    begin,
                    end,
                    quality_type,
                ),
    {
        let cfg = self.cfg();
        let snaps = self.snapshots(cfg.cnt);
        let res = range_in(cfg, &snaps, begin, end, quality_type);
        assert(res@ == range_spec(cfg, snaps@, begin, end, quality_type));
        res
    }

    /// The latest point at or before `end` with the asked quality, looking
    /// back from `end`'s window through the earlier windows of the ring. The
    /// answer is `latest_in` of the layout and the windows as they were read.
    pub fn latest(&self, end: u32, quality_type: QualityType) -> (r: Option<(u32, StdPoint)>)
        ensures
            exists|cfg: WindowCfg, snaps: Seq<WindowSnapshot>|
                cfg.wf() && snaps.len() == cfg.cnt && r == #[trigger] latest_spec(
                    cfg,
                    snaps,
                    end,
                    quality_type,
                ),
    {
        let cfg = self.cfg();
        let snaps = self.snapshots(cfg.cnt);
        let r = latest_in(cfg, &snaps, end, quality_type);
        assert(r == latest_spec(cfg, snaps@, end, quality_type));
        r
    }
}

} // verus!
