use std::collections::HashMap;
use std::sync::Arc;

use cache_kit::circular_window_cache::{
    copy_points, extend_map, filter_snapshot, latest_in, range_in, store_point, WindowSnapshot,
    filter_points_into, max_key, place_point, same_quality, CompressStdPoint, QualityType, StdPoint,
    StdPointList, StdPointWindow, WindowCfg, WindowLayout,
};

fn ring(size: u32, cnt: u32) -> StdPointWindow {
    StdPointWindow::new(Arc::new(WindowLayout::new(WindowCfg::new(size, cnt))))
}

fn point(v: f64, quality: i16) -> StdPoint {
    StdPoint { quality, value: v.to_bits() }
}

#[test]
fn same_quality_matches_codes() {
    assert!(same_quality(0, QualityType::Good));
    assert!(!same_quality(1, QualityType::Good));
    assert!(same_quality(1, QualityType::Bad));
    assert!(!same_quality(0, QualityType::Bad));
    assert!(!same_quality(2, QualityType::Bad));
}

#[test]
fn window_cfg_adds_extra_windows() {
    let cfg = WindowCfg::new(10, 5);
    assert_eq!(cfg.size, 10);
    assert_eq!(cfg.cnt, 7);
    assert_eq!(cfg.expire, 50);
    let d = WindowCfg::default_cfg();
    assert_eq!((d.size, d.cnt, d.expire), (60, 13, 660));
}

#[test]
fn filter_points_into_selects_range_and_quality() {
    let pts = vec![
        CompressStdPoint { val: 1, quality: 0, ts_offset: 0 },
        CompressStdPoint { val: 2, quality: 1, ts_offset: 1 },
        CompressStdPoint { val: 3, quality: 0, ts_offset: 2 },
        CompressStdPoint { val: 4, quality: 0, ts_offset: 9 },
        CompressStdPoint { val: 5, quality: 0, ts_offset: 2 },
    ];
    let mut out = HashMap::new();
    filter_points_into(&pts, 100, 100, 105, QualityType::Good, &mut out);
    assert_eq!(out.len(), 2);
    assert_eq!(out.get(&100).map(|p| p.value), Some(1));
    assert_eq!(out.get(&102).map(|p| p.value), Some(5));
    assert!(out.get(&101).is_none());
    assert!(out.get(&109).is_none());
}

#[test]
fn max_key_finds_greatest() {
    let mut m = HashMap::new();
    assert_eq!(max_key(&m), None);
    m.insert(5u32, point(1.0, 0));
    m.insert(17u32, point(2.0, 0));
    m.insert(3u32, point(3.0, 0));
    assert_eq!(max_key(&m), Some(17));
}

#[test]
fn point_list_add_filter_clear() {
    let list = StdPointList::new();
    list.add(0, &point(1.5, 0));
    list.add(3, &point(2.5, 1));
    let good = list.filter(0, 10, QualityType::Good);
    assert_eq!(good.len(), 1);
    assert_eq!(f64::from_bits(good[&0].value), 1.5);
    let bad = list.filter(0, 10, QualityType::Bad);
    assert_eq!(bad.len(), 1);
    assert_eq!(bad[&3].quality, 1);
    list.clear();
    assert!(list.filter(0, 10, QualityType::Good).is_empty());
}

#[test]
fn window_range_returns_points_in_range() {
    let w = ring(10, 5);
    let now = 1000;
    w.add(960, &point(1.0, 0), false, now);
    w.add(975, &point(2.0, 0), true, now);
    w.add(981, &point(3.0, 1), false, now);
    let r = w.range(960, 990, QualityType::Good);
    assert_eq!(r.len(), 2);
    assert_eq!(f64::from_bits(r[&960].value), 1.0);
    assert_eq!(f64::from_bits(r[&975].value), 2.0);
    assert_eq!(w.get_last_change_ts(), 975);
}

#[test]
fn window_range_adds_latest_before_begin() {
    let w = ring(10, 5);
    let now = 1000;
    w.add(962, &point(1.0, 0), false, now);
    w.add(975, &point(2.0, 0), false, now);
    let r = w.range(970, 990, QualityType::Good);
    assert_eq!(r.len(), 2);
    assert!(r.contains_key(&962));
    assert!(r.contains_key(&975));
}

#[test]
fn window_add_discards_expired_points() {
    let w = ring(10, 5);
    w.add(900, &point(1.0, 0), false, 1000);
    assert!(w.range(900, 900, QualityType::Good).is_empty());
}

#[test]
fn window_latest_finds_most_recent() {
    let w = ring(10, 5);
    let now = 1000;
    w.add(961, &point(1.0, 0), false, now);
    w.add(968, &point(2.0, 0), false, now);
    let l = w.latest(985, QualityType::Good);
    assert_eq!(l.map(|(t, _)| t), Some(968));
    assert!(w.latest(985, QualityType::Bad).is_none());
}

#[test]
fn window_slot_reuse_drops_older_points() {
    let w = ring(10, 1);
    let now = 1000;
    w.add(991, &point(1.0, 0), false, now);
    w.add(1021, &point(2.0, 0), false, now);
    let r = w.range(991, 991, QualityType::Good);
    assert!(!r.contains_key(&991));
}

#[test]
fn place_point_discards_expired_and_locates_others() {
    let cfg = WindowCfg::new(10, 5);
    assert_eq!(place_point(cfg, 949, 1000), None);
    assert_eq!(place_point(cfg, 950, 1000), Some((95 % 7, 950, 0)));
    assert_eq!(place_point(cfg, 987, 1000), Some((98 % 7, 980, 7)));
}

#[test]
fn place_point_cuts_offset_to_a_byte() {
    let cfg = WindowCfg::new(300, 2);
    assert_eq!(place_point(cfg, 1499, 1000), Some((4 % 4, 1200, (299u32 % 256) as u8)));
}

fn snap(ts: u32, pts: &[(u32, i16, u8)]) -> WindowSnapshot {
    WindowSnapshot {
        ts,
        points: pts
            .iter()
            .map(|&(val, quality, ts_offset)| CompressStdPoint { val: val as u64, quality, ts_offset })
            .collect(),
    }
}

#[test]
fn store_point_renews_older_window() {
    let mut pts = vec![CompressStdPoint { val: 1, quality: 0, ts_offset: 3 }];
    assert!(!store_point(&mut pts, 100, 100, 4, &point(2.0, 0)));
    assert_eq!(pts.len(), 2);
    assert!(store_point(&mut pts, 100, 110, 1, &point(3.0, 1)));
    assert_eq!(pts.len(), 1);
    assert_eq!(pts[0].ts_offset, 1);
    assert_eq!(pts[0].quality, 1);
}

#[test]
fn copy_and_filter_snapshot() {
    let w = snap(50, &[(1, 0, 0), (2, 0, 5)]);
    let c = copy_points(&w.points);
    assert_eq!(c.len(), 2);
    let f = filter_snapshot(&w, 52, 60, QualityType::Good);
    assert_eq!(f.len(), 1);
    assert_eq!(f[&55].value, 2);
}

#[test]
fn window_cfg_index_arithmetic() {
    let cfg = WindowCfg::new(10, 2);
    assert_eq!(cfg.window_idx(95), 9 % 4);
    assert_eq!(cfg.next_window_idx(3), 0);
    assert_eq!(cfg.pre_window_idx(0), 3);
    assert_eq!(cfg.pre_window_idx(2), 1);
}

#[test]
fn latest_in_walks_back_to_first_window_with_an_answer() {
    let cfg = WindowCfg::new(10, 2);
    let snaps = vec![snap(0, &[]), snap(10, &[(7, 0, 1), (8, 0, 4)]), snap(0, &[]), snap(30, &[(9, 1, 2)])];
    let l = latest_in(cfg, &snaps, 35, QualityType::Good);
    assert_eq!(l.map(|(t, p)| (t, p.value)), Some((14, 8)));
    let b = latest_in(cfg, &snaps, 35, QualityType::Bad);
    assert_eq!(b.map(|(t, p)| (t, p.value)), Some((32, 9)));
}

#[test]
fn range_in_adds_latest_when_begin_missing() {
    let cfg = WindowCfg::new(10, 2);
    let snaps = vec![snap(0, &[]), snap(10, &[(7, 0, 1)]), snap(20, &[(8, 0, 3)]), snap(0, &[])];
    let r = range_in(cfg, &snaps, 20, 29, QualityType::Good);
    assert_eq!(r.len(), 2);
    assert_eq!(r[&23].value, 8);
    assert_eq!(r[&11].value, 7);
}

#[test]
fn extend_map_prefers_new_entries() {
    let mut a = HashMap::new();
    a.insert(1u32, point(1.0, 0));
    a.insert(2u32, point(2.0, 0));
    let mut b = HashMap::new();
    b.insert(2u32, point(5.0, 0));
    extend_map(&mut a, &b);
    assert_eq!(a.len(), 2);
    assert_eq!(f64::from_bits(a[&2].value), 5.0);
}

#[test]
fn point_list_snapshot_copies_points() {
    let list = StdPointList::new();
    list.add(2, &point(1.0, 0));
    let s = list.snapshot();
    assert_eq!(s.ts, 0);
    assert_eq!(s.points.len(), 1);
    assert_eq!(s.points[0].ts_offset, 2);
}

#[test]
fn place_point_keeps_every_point_when_now_is_early() {
    let cfg = WindowCfg::new(10, 5);
    assert_eq!(place_point(cfg, 100, 10), Some((10 % 7, 100, 0)));
    assert_eq!(place_point(cfg, 0, 10), Some((0, 0, 0)));
    assert_eq!(place_point(cfg, 3, 49), Some((0, 0, 3)));
    assert_eq!(place_point(cfg, 0, 51), None);
}

#[test]
fn layout_change_reaches_existing_ring() {
    let layout = Arc::new(WindowLayout::new(WindowCfg::new(10, 5)));
    let w = StdPointWindow::new(Arc::clone(&layout));
    assert_eq!(w.cfg().size, 10);
    layout.set(WindowCfg::new(20, 2));
    assert_eq!(w.cfg().size, 20);
    assert_eq!(w.cfg().cnt, 4);
    w.add(975, &point(1.0, 0), false, 1000);
    let r = w.range(975, 975, QualityType::Good);
    assert_eq!(r.len(), 1);
    assert_eq!(r[&975].value, 1.0f64.to_bits());
}

#[test]
fn layout_growth_reads_missing_windows_as_empty() {
    let layout = Arc::new(WindowLayout::new(WindowCfg::new(10, 1)));
    let w = StdPointWindow::new(Arc::clone(&layout));
    layout.set(WindowCfg::new(10, 10));
    w.add(995, &point(1.0, 0), false, 1000);
    assert!(w.range(995, 995, QualityType::Good).is_empty());
    w.add(1080, &point(2.0, 0), false, 1000);
    assert_eq!(w.range(1080, 1080, QualityType::Good).len(), 1);
}

#[test]
fn stored_point_is_answered_by_its_window() {
    let cfg = WindowCfg::new(10, 5);
    let (_, window_ts, offset) = place_point(cfg, 987, 1000).unwrap();
    let mut pts = vec![CompressStdPoint { val: 1, quality: 0, ts_offset: 3 }];
    assert!(store_point(&mut pts, 900, window_ts, offset, &point(4.0, 0)));
    let w = WindowSnapshot { ts: window_ts, points: pts };
    let f = filter_snapshot(&w, 980, 989, QualityType::Good);
    assert_eq!(f.len(), 1);
    assert_eq!(f[&987].value, 4.0f64.to_bits());
    assert!(filter_snapshot(&w, 980, 989, QualityType::Bad).is_empty());
}
