use std::collections::BTreeMap;

use phtheirichthys::frontier::{Alternative, Candidate, MaxRow, Nav, LANDING};
use phtheirichthys::slices::{file_jumps, merge_way_nav, register_reacher, reset_marks};

fn cand(node: usize, from_dist: i64, dist_to: i64) -> Candidate {
    Candidate { node, from_dist, dist_to, duration: 600, sail: 0, reach: 1_000, to_avoid: false }
}

fn keys(nav: &Nav) -> Vec<i32> {
    nav.alternatives.iter().map(|(k, _)| *k).collect()
}

#[test]
fn merge_fast_keeps_farthest() {
    let mut a = Alternative::from(cand(1, 100, 50));
    a.merge_fast(cand(2, 90, 10));
    assert_eq!(a.variants[0].unwrap().node, 1);
    a.merge_fast(cand(3, 120, 10));
    assert_eq!(a.variants[0].unwrap().node, 3);
    a.merge_fast(cand(4, 120, 10));
    assert_eq!(a.variants[0].unwrap().node, 3);
    assert_eq!(a.count(), 1);
    assert!(a.variants[1..].iter().all(|v| v.is_none()));
}

#[test]
fn best_is_first_farthest() {
    let mut a = Alternative::empty();
    assert_eq!(a.best(), None);
    assert_eq!(a.count(), 0);
    a.variants[2] = Some(cand(1, 100, 0));
    a.variants[5] = Some(cand(2, 300, 0));
    a.variants[7] = Some(cand(3, 300, 0));
    assert_eq!(a.best().unwrap().node, 2);
    assert_eq!(a.count(), 3);
}

#[test]
fn merge_all_by_slot() {
    let mut a = Alternative::empty();
    a.variants[1] = Some(cand(1, 100, 0));
    let mut b = Alternative::empty();
    b.variants[1] = Some(cand(2, 200, 0));
    b.variants[3] = Some(cand(3, 50, 0));
    a.merge_all(&b);
    assert_eq!(a.variants[1].unwrap().node, 2);
    assert_eq!(a.variants[3].unwrap().node, 3);
    let mut early = Alternative::empty();
    early.variants[0] = Some(Candidate { duration: 300, ..cand(4, 10, 0) });
    let mut late = Alternative::empty();
    late.variants[0] = Some(Candidate { duration: 900, ..cand(5, 99, 0) });
    late.merge_all_by_duration(&early);
    assert_eq!(late.variants[0].unwrap().node, 4);
    early.merge_all_by_duration(&Alternative::from(Candidate { duration: 300, ..cand(6, 10, 0) }));
    assert_eq!(early.variants[0].unwrap().node, 4);
}

#[test]
fn nav_buckets_stay_sorted() {
    let mut nav = Nav::from(600);
    nav.add_fast(5, cand(1, 100, 700));
    nav.add_fast(-3, cand(2, 100, 400));
    nav.add_fast(5, cand(3, 150, 900));
    nav.add_fast(2, cand(4, 80, 500));
    assert_eq!(keys(&nav), vec![-3, 2, 5]);
    assert_eq!(nav.min, Some(400));
    assert_eq!(nav.size(), 3);
    assert_eq!(nav.alternatives[2].1.variants[0].unwrap().node, 3);
    let mut other = Alternative::empty();
    other.variants[4] = Some(cand(5, 10, 0));
    nav.merge_alternative(7, &other);
    nav.merge_alternative(2, &other);
    assert_eq!(keys(&nav), vec![-3, 2, 5, 7]);
    assert_eq!(nav.size(), 5);
    nav.merge_min(Some(100));
    assert_eq!(nav.min, Some(100));
    nav.merge_min(None);
    assert_eq!(nav.min, Some(100));
}

#[test]
fn prune_drops_avoided_and_far_positions() {
    let mut nav = Nav::from(600);
    nav.add_fast(0, cand(1, 1_000, 1_000));
    nav.add_fast(1, Candidate { to_avoid: true, ..cand(2, 1_000, 1_000) });
    nav.add_fast(2, cand(3, 5_000, 6_000));
    let mut max: BTreeMap<i32, MaxRow> = BTreeMap::new();
    nav.prune(&mut max, 10_000);
    assert_eq!(keys(&nav), vec![0]);
    assert_eq!(max.get(&0).unwrap()[0], 1_001);
    assert!(max.get(&1).is_none());
    assert!(max.get(&2).is_none());
}

#[test]
fn prune_drops_positions_short_of_their_mark() {
    let mut nav = Nav::from(600);
    nav.add_fast(0, cand(1, 1_000, 1_000));
    nav.add_fast(1, cand(2, 3_000, 1_000));
    let mut max: BTreeMap<i32, MaxRow> = BTreeMap::new();
    max.insert(0, [2_000, 0, 0, 0, 0, 0, 0, 0]);
    max.insert(1, [2_000, 0, 0, 0, 0, 0, 0, 0]);
    nav.prune(&mut max, 100_000);
    assert_eq!(keys(&nav), vec![1]);
    assert_eq!(max.get(&0).unwrap()[0], 2_000);
    assert_eq!(max.get(&1).unwrap()[0], 3_003);
}

#[test]
fn prune_strays_only_while_many_remain() {
    let mut nav = Nav::from(600);
    for k in 0..27 {
        let dist_to = if k < 2 { 5_000 } else { 1_000 };
        nav.add_fast(k, cand(k as usize, 1_000, dist_to));
    }
    assert_eq!(nav.min, Some(1_000));
    let mut max: BTreeMap<i32, MaxRow> = BTreeMap::new();
    nav.prune(&mut max, 1_000_000);
    // the first stray goes while 27 remain, the second while 26 remain
    assert_eq!(nav.size(), 25);
    assert_eq!(keys(&nav)[0], 2);

    let mut few = Nav::from(600);
    for k in 0..26 {
        let dist_to = if k == 25 { 5_000 } else { 1_000 };
        few.add_fast(k, cand(k as usize, 1_000, dist_to));
    }
    let mut max: BTreeMap<i32, MaxRow> = BTreeMap::new();
    few.prune(&mut max, 1_000_000);
    assert_eq!(few.size(), 25);
}

#[test]
fn prune_drops_positions_far_behind_their_bucket() {
    let mut nav = Nav::from(600);
    let mut a = Alternative::empty();
    a.variants[0] = Some(cand(1, 10_000, 100));
    a.variants[1] = Some(Candidate { reach: 500, sail: 1, ..cand(2, 9_000, 100) });
    a.variants[2] = Some(Candidate { reach: 1_000, sail: 2, ..cand(3, 9_000, 100) });
    nav.merge_alternative(0, &a);
    let mut max: BTreeMap<i32, MaxRow> = BTreeMap::new();
    nav.prune(&mut max, 1_000_000);
    let slots = &nav.alternatives[0].1.variants;
    assert_eq!(slots[0].unwrap().node, 1);
    assert!(slots[1].is_none());
    assert_eq!(slots[2].unwrap().node, 3);
    assert_eq!(max.get(&0).unwrap(), &[10_010, 0, 9_009, 0, 0, 0, 0, 0]);
}

#[test]
fn landing_slice_is_not_pruned() {
    let mut nav = Nav::from(600);
    nav.add_fast(-1, Candidate { to_avoid: true, ..cand(1, 1_000, 0) });
    nav.reached_by_way = true;
    let mut max: BTreeMap<i32, MaxRow> = BTreeMap::new();
    nav.prune(&mut max, 10);
    assert_eq!(nav.size(), 1);
    assert!(max.is_empty());
}

#[test]
fn reachers_group_by_time() {
    let mut reachers: Vec<Nav> = Vec::new();
    register_reacher(&mut reachers, 3, Candidate { duration: 600, ..cand(1, 100, 0) });
    register_reacher(&mut reachers, 3, Candidate { duration: 600, ..cand(2, 200, 0) });
    register_reacher(&mut reachers, 4, Candidate { duration: 600, ..cand(3, 50, 0) });
    register_reacher(&mut reachers, 3, Candidate { duration: 1_200, ..cand(4, 10, 0) });
    assert_eq!(reachers.len(), 2);
    assert_eq!(reachers[0].absolute_duration, 600);
    assert_eq!(keys(&reachers[0]), vec![3, 4]);
    assert_eq!(reachers[0].alternatives[0].1.variants[0].unwrap().node, 2);
    assert_eq!(reachers[1].absolute_duration, 1_200);
    assert_eq!(reachers[1].size(), 1);
}

fn slice(abs: i64, entries: &[(i32, Candidate)]) -> Nav {
    let mut nav = Nav::from(abs);
    for (az, c) in entries {
        nav.add_fast(*az, *c);
    }
    nav
}

#[test]
fn merging_slices_joins_buckets() {
    let mut nav = slice(600, &[(1, cand(1, 100, 900)), (3, cand(2, 100, 800))]);
    let other = slice(600, &[(3, cand(3, 200, 500)), (4, cand(4, 100, 700))]);
    nav.merge_nav(&other);
    assert_eq!(keys(&nav), vec![1, 3, 4]);
    assert_eq!(nav.alternatives[1].1.variants[0].unwrap().node, 3);
    assert_eq!(nav.min, Some(500));
}

#[test]
fn way_slices_merge_by_time() {
    let mut navs = vec![slice(600, &[(1, cand(1, 100, 900))]), slice(1_200, &[(1, cand(2, 100, 900))])];
    let way = slice(900, &[(2, cand(3, 100, 400))]);
    assert_eq!(merge_way_nav(&mut navs, &way), 1);
    assert_eq!(navs.iter().map(|n| n.absolute_duration).collect::<Vec<_>>(), vec![600, 900, 1_200]);
    let again = slice(600, &[(1, cand(4, 300, 100))]);
    assert_eq!(merge_way_nav(&mut navs, &again), 0);
    assert_eq!(navs[0].alternatives[0].1.variants[0].unwrap().node, 4);
    assert_eq!(navs[0].min, Some(100));
    assert_eq!(navs.len(), 3);
}

#[test]
fn landing_drops_later_slices() {
    let mut navs = vec![slice(600, &[(1, cand(1, 100, 900))]), slice(1_200, &[(1, cand(2, 100, 900))])];
    let mut landing = Nav::from(700);
    landing.alternatives.push((LANDING, Alternative::from(Candidate { duration: 700, ..cand(3, 100, 0) })));
    landing.reached_by_way = true;
    assert_eq!(merge_way_nav(&mut navs, &landing), 1);
    assert_eq!(navs.len(), 2);
    assert!(navs[1].reached_by_way);
    assert_eq!(keys(&navs[1]), vec![LANDING]);
    // a landing at the time of a slice replaces its positions
    let mut navs = vec![slice(600, &[(1, cand(1, 100, 900))])];
    let mut landing = Nav::from(600);
    landing.alternatives.push((LANDING, Alternative::from(Candidate { duration: 600, ..cand(4, 100, 0) })));
    landing.reached_by_way = true;
    merge_way_nav(&mut navs, &landing);
    assert_eq!(keys(&navs[0]), vec![LANDING]);
    assert_eq!(navs[0].min, None);
    // a later slice does not reach into a landing
    let plain = slice(600, &[(5, cand(5, 100, 10))]);
    merge_way_nav(&mut navs, &plain);
    assert_eq!(keys(&navs[0]), vec![LANDING]);
}

#[test]
fn earlier_landing_wins() {
    let mut nav = Nav::from(600);
    nav.merge_landing(&Alternative::from(Candidate { duration: 900, ..cand(1, 0, 0) }));
    nav.merge_landing(&Alternative::from(Candidate { duration: 700, ..cand(2, 0, 0) }));
    nav.merge_landing(&Alternative::from(Candidate { duration: 800, ..cand(3, 0, 0) }));
    assert_eq!(nav.alternatives[0].1.variants[0].unwrap().node, 2);
}

#[test]
fn marks_restart_from_the_reaching_slice() {
    let mut nav = slice(600, &[(2, cand(1, 2_000, 0)), (-4, cand(2, 10_000, 0))]);
    nav.merge_alternative(7, &Alternative::empty());
    let marks = reset_marks(&nav);
    assert_eq!(marks.len(), 2);
    assert_eq!(marks.get(&2).unwrap(), &[2_002, 0, 0, 0, 0, 0, 0, 0]);
    assert_eq!(marks.get(&-4).unwrap(), &[10_010, 0, 0, 0, 0, 0, 0, 0]);
    assert!(marks.get(&7).is_none());
}

#[test]
fn closest_position_to_the_buoy() {
    let nav = slice(600, &[(1, cand(1, 100, 900)), (2, cand(2, 100, 400)), (3, cand(3, 100, 400))]);
    let (best, dist) = nav.closest(None, 10_000);
    assert_eq!((best.unwrap().node, dist), (2, 400));
    let (kept, dist) = nav.closest(Some(cand(9, 0, 300)), 300);
    assert_eq!((kept.unwrap().node, dist), (9, 300));
    // with no best yet the first position takes over, whatever the bound
    let (first, dist) = nav.closest(None, 0);
    assert_eq!((first.unwrap().node, dist), (2, 400));
    let far = slice(600, &[(1, cand(1, 100, 900))]);
    let (only, dist) = far.closest(None, 0);
    assert_eq!((only.unwrap().node, dist), (1, 900));
    let (none, dist) = Nav::from(0).closest(None, 5);
    assert!(none.is_none());
    assert_eq!(dist, 5);
}

#[test]
fn marks_follow_the_sail_of_each_position() {
    // a position in slot 0 that sails with sail 3 is tested against, and
    // raises, the mark of sail 3; the mark of sail 0 stays
    let mut nav = Nav::from(600);
    nav.add_fast(0, Candidate { sail: 3, ..cand(1, 1_000, 100) });
    let mut max: BTreeMap<i32, MaxRow> = BTreeMap::new();
    max.insert(0, [2_000, 0, 0, 0, 0, 0, 0, 0]);
    nav.prune(&mut max, 1_000_000);
    assert_eq!(nav.size(), 1);
    assert_eq!(max.get(&0).unwrap(), &[2_000, 0, 0, 1_001, 0, 0, 0, 0]);
}

#[test]
fn positions_short_of_their_mark_go_one_by_one() {
    let mut nav = Nav::from(600);
    let mut a = Alternative::empty();
    a.variants[0] = Some(cand(1, 5_000, 100));
    a.variants[1] = Some(Candidate { sail: 1, ..cand(2, 5_000, 100) });
    nav.merge_alternative(0, &a);
    let mut max: BTreeMap<i32, MaxRow> = BTreeMap::new();
    max.insert(0, [1_000, 6_000, 0, 0, 0, 0, 0, 0]);
    nav.prune(&mut max, 1_000_000);
    let slots = &nav.alternatives[0].1.variants;
    assert_eq!(slots[0].unwrap().node, 1);
    assert!(slots[1].is_none());
    assert_eq!(max.get(&0).unwrap(), &[5_005, 6_000, 0, 0, 0, 0, 0, 0]);
}

#[test]
fn marks_rise_when_positions_keep_up() {
    let mut nav = Nav::from(600);
    nav.add_fast(0, cand(1, 2_500, 100));
    let mut max: BTreeMap<i32, MaxRow> = BTreeMap::new();
    max.insert(0, [2_000, 0, 0, 0, 0, 0, 0, 0]);
    nav.prune(&mut max, 1_000_000);
    assert!(max.get(&0).unwrap()[0] >= 2_000);
    assert_eq!(max.get(&0).unwrap()[0], 2_502);
}

#[test]
fn jumps_are_filed_by_time_and_bucket() {
    let jumps = vec![
        (4, Candidate { duration: 1_200, ..cand(1, 100, 700) }),
        (2, Candidate { duration: 600, ..cand(2, 100, 900) }),
        (2, Candidate { duration: 600, ..cand(3, 300, 800) }),
        (5, Candidate { duration: 1_800, ..cand(4, 100, 300) }),
    ];
    let navs = file_jumps(600, &jumps);
    assert_eq!(navs.iter().map(|n| n.absolute_duration).collect::<Vec<_>>(), vec![600, 1_200, 1_800]);
    assert_eq!(keys(&navs[0]), vec![2]);
    assert_eq!(navs[0].alternatives[0].1.variants[0].unwrap().node, 3);
    assert_eq!(navs[0].min, Some(800));
    assert_eq!(navs[2].min, Some(300));
    let empty = file_jumps(600, &vec![]);
    assert_eq!(empty.len(), 1);
    assert_eq!(empty[0].size(), 0);
    assert_eq!(empty[0].min, None);
}
