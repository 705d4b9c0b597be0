//! Time slices of a step: filing the jumps from one position, merging the
//! slices of all positions, recording landings on the buoy, picking the
//! closest position and restarting the marks for the next leg.

use vstd::prelude::*;
use std::collections::BTreeMap;

use crate::frontier::{
    Alternative, Buckets, Candidate, LANDING, MaxRow, Nav, SLOTS, buckets_ok, candidate_ok,
    count_upto, empty_slots, has_key, lemma_count_upto, lemma_key_index, merged_fast,
    merged_slot, merged_slot_by_duration, min_of, min_with, seen, slots_of, slots_ok,
    way_bucket,
};
use crate::prune::{marks, raised};

verus! {

/// Records a position that reached the buoy, under azimuth key `az` seen from
/// the buoy: reachers are grouped in slices by time, a new slice opening
/// when the position comes at another time than the last slice.
pub fn register_reacher(reachers: &mut Vec<Nav>, az: i32, c: Candidate)
    requires
        forall|i: int| 0 <= i < old(reachers)@.len() ==> (#[trigger] old(reachers)@[i]).wf(),
    ensures
        forall|i: int| 0 <= i < final(reachers)@.len() ==> (#[trigger] final(reachers)@[i]).wf(),
        ({
            let fresh = old(reachers)@.len() == 0 || old(reachers)@.last().absolute_duration
                != c.duration;
            let before = if fresh {
                Seq::<(i32, Alternative)>::empty()
            } else {
                old(reachers)@.last().alternatives@
            };
            let n = final(reachers)@.len() as int;
            &&& n == if fresh {
                old(reachers)@.len() + 1int
            } else {
                old(reachers)@.len() as int
            }
            &&& forall|i: int| 0 <= i < n - 1 ==> #[trigger] final(reachers)@[i] == old(reachers)@[i]
            &&& final(reachers)@[n - 1].absolute_duration == c.duration
            &&& slots_of(final(reachers)@[n - 1].alternatives@, az) == merged_fast(slots_of(before, az), c)
            &&& forall|k: i32|
                k != az ==> (has_key(final(reachers)@[n - 1].alternatives@, k) <==> has_key(before, k))
                    && slots_of(final(reachers)@[n - 1].alternatives@, k) == slots_of(before, k)
        }),
{
    let fresh = match reachers.last() {
        Some(last) => last.absolute_duration != c.duration,
        None => true,
    };
    let mut last = if fresh {
        Nav::from(c.duration)
    } else {
        reachers.pop().unwrap()
    };
    proof {
        if !fresh {
            assert(last == old(reachers)@.last());
        }
    }
    let (i, mut alt) = last.take_bucket(az);
    alt.merge(c);
    last.put_bucket(i, az, alt);
    let ghost kept = reachers@;
    reachers.push(last);
    proof {
        assert forall|i: int| 0 <= i < reachers@.len() - 1 implies #[trigger] reachers@[i] == old(reachers)@[i] by {
            assert(reachers@[i] == kept[i]);
        }
    }
}

/// Whether time slices are well formed and in strictly increasing order of
/// time.
pub open spec fn slices_ok(s: Seq<Nav>) -> bool {
    &&& forall|i: int| 0 <= i < s.len() ==> (#[trigger] s[i]).wf()
    &&& forall|i: int, j: int| 0 <= i < j < s.len() ==> s[i].absolute_duration < s[j].absolute_duration
}

/// Where the slice of time `d` stands, or would be inserted, among sorted
/// slices.
fn locate_slice(navs: &Vec<Nav>, d: i64) -> (r: (usize, bool))
    requires
        slices_ok(navs@),
    ensures
        r.0 <= navs@.len(),
        forall|j: int| 0 <= j < r.0 ==> navs@[j].absolute_duration < d,
        r.1 <==> (r.0 < navs@.len() && navs@[r.0 as int].absolute_duration == d),
        !r.1 ==> forall|j: int| r.0 <= j < navs@.len() ==> navs@[j].absolute_duration > d,
        r.1 ==> forall|j: int| r.0 < j < navs@.len() ==> navs@[j].absolute_duration > d,
{
    let mut i: usize = 0;
    while i < navs.len() && navs[i].absolute_duration < d
        invariant
            i <= navs@.len(),
            forall|j: int| 0 <= j < i ==> navs@[j].absolute_duration < d,
        decreases navs@.len() - i,
    {
        i = i + 1;
    }
    let found = i < navs.len() && navs[i].absolute_duration == d;
    proof {
        if i < navs@.len() {
            assert forall|j: int| i < j < navs@.len() implies navs@[j].absolute_duration > d by {
                assert(navs@[i as int].absolute_duration < navs@[j].absolute_duration);
            }
        }
    }
    (i, found)
}

/// Merges the slices that the expansion of one position produced into the
/// slices of the step. A landing on the buoy drops every later slice and
/// takes over the slice of its time, whose positions it replaces unless
/// that slice is a landing already; the landings merge in bucket -1, the
/// earlier one winning. Another slice merges into the slice of its time,
/// unless that slice is a landing. Returns where that slice stands.
pub fn merge_way_nav(navs: &mut Vec<Nav>, way: &Nav) -> (r: usize)
    requires
        slices_ok(old(navs)@),
        way.wf(),
    ensures
        slices_ok(final(navs)@),
        r < final(navs)@.len(),
        final(navs)@[r as int].absolute_duration == way.absolute_duration,
        forall|q: int| 0 <= q < r ==> #[trigger] final(navs)@[q] == old(navs)@[q],
        ({
            let d = way.absolute_duration;
            let found = r < old(navs)@.len() && old(navs)@[r as int].absolute_duration == d;
            let base_alts = if found {
                old(navs)@[r as int].alternatives@
            } else {
                Seq::<(i32, Alternative)>::empty()
            };
            let base_reached = found && old(navs)@[r as int].reached_by_way;
            let base_min = if found {
                old(navs)@[r as int].min
            } else {
                None
            };
            let nav = final(navs)@[r as int];
            &&& forall|q: int| r <= q < old(navs)@.len() && !(found && q == r)
                ==> old(navs)@[q].absolute_duration > d
            &&& way.reached_by_way ==> {
                &&& final(navs)@.len() == r + 1
                &&& nav.reached_by_way
                &&& nav.min == if base_reached {
                    base_min
                } else {
                    None
                }
                &&& forall|k: i32|
                    k != LANDING ==> (has_key(nav.alternatives@, k) <==> base_reached && has_key(base_alts, k))
                        && slots_of(nav.alternatives@, k) == if base_reached {
                        slots_of(base_alts, k)
                    } else {
                        empty_slots()
                    }
                &&& forall|i: int|
                    0 <= i < SLOTS ==> #[trigger] slots_of(nav.alternatives@, LANDING)[i]
                        == merged_slot_by_duration(
                        if base_reached {
                            slots_of(base_alts, LANDING)[i]
                        } else {
                            None
                        },
                        slots_of(way.alternatives@, LANDING)[i],
                    )
            }
            &&& !way.reached_by_way ==> {
                &&& final(navs)@.len() == if found {
                    old(navs)@.len() as int
                } else {
                    old(navs)@.len() + 1int
                }
                &&& forall|q: int|
                    r < q < final(navs)@.len() ==> #[trigger] final(navs)@[q] == old(navs)@[if found {
                        q
                    } else {
                        q - 1
                    }]
                &&& nav.reached_by_way == base_reached
                &&& base_reached ==> nav.alternatives@ == base_alts && nav.min == base_min
                &&& !base_reached ==> {
                    &&& nav.min == min_of(base_min, way.min)
                    &&& forall|k: i32|
                        has_key(nav.alternatives@, k) <==> (has_key(base_alts, k) || has_key(
                            way.alternatives@,
                            k,
                        ))
                    &&& forall|k: i32, i: int|
                        0 <= i < SLOTS ==> #[trigger] slots_of(nav.alternatives@, k)[i] == merged_slot(
                            slots_of(base_alts, k)[i],
                            slots_of(way.alternatives@, k)[i],
                        )
                }
            }
        }),
{
    let d = way.absolute_duration;
    let (i, found) = locate_slice(navs, d);
    if way.reached_by_way {
        let keep = if found && i < navs.len() {
            i + 1
        } else {
            i
        };
        navs.truncate(keep);
        let mut nav = if found {
            navs.pop().unwrap()
        } else {
            Nav::from(d)
        };
        if !nav.reached_by_way {
            nav.alternatives = Vec::new();
            nav.reached_by_way = true;
            nav.min = None;
        }
        let (_, landing) = way_bucket(way, LANDING);
        let ghost before = nav.alternatives@;
        nav.merge_landing(&landing);
        proof {
            assert forall|k: i32| k != LANDING implies slots_of(nav.alternatives@, k) == slots_of(before, k) by {}
            if !has_key(before, LANDING) {
                assert(slots_of(before, LANDING) == empty_slots());
            }
        }
        navs.push(nav);
        i
    } else {
        if found {
            let mut nav = navs.remove(i);
            let ghost base = nav;
            if !nav.reached_by_way {
                nav.merge_nav(way);
                proof {
                    assert forall|k: i32| #[trigger] has_key(nav.alternatives@, k) <==> (has_key(base.alternatives@, k) || has_key(way.alternatives@, k)) by {}
                }
            }
            navs.insert(i, nav);
            proof {
                assert(navs@[i as int] == nav);
                assert(base == old(navs)@[i as int]);
            }
        } else {
            let mut nav = Nav::from(d);
            assert(nav.alternatives@ =~= Seq::<(i32, Alternative)>::empty());
            nav.merge_nav(way);
            proof {
                assert forall|k: i32| !has_key(Seq::<(i32, Alternative)>::empty(), k) by {}
                assert forall|k: i32| #[trigger] has_key(nav.alternatives@, k) <==> (has_key(Seq::<(i32, Alternative)>::empty(), k) || has_key(way.alternatives@, k)) by {}
            }
            navs.insert(i, nav);
            proof {
                assert(navs@[i as int] == nav);
            }
        }
        proof {
            assert forall|a: int, b: int| 0 <= a < b < navs@.len() implies navs@[a].absolute_duration < navs@[b].absolute_duration by {
                if found {
                    if a != i && b != i {
                        assert(old(navs)@[a].absolute_duration < old(navs)@[b].absolute_duration);
                    }
                } else {
                    if a < i && b > i {
                        assert(old(navs)@[a].absolute_duration < old(navs)@[b - 1].absolute_duration);
                    } else if a > i {
                        assert(old(navs)@[a - 1].absolute_duration < old(navs)@[b - 1].absolute_duration);
                    } else if b < i {
                        assert(old(navs)@[a].absolute_duration < old(navs)@[b].absolute_duration);
                    }
                }
            }
        }
        i
    }
}

/// The marks that a slice leaves: each filled slot marks the distance from
/// the start of its position raised by a thousandth, each empty slot zero.
pub open spec fn row_marks(s: Seq<Option<Candidate>>) -> Seq<i64> {
    Seq::new(
        SLOTS as nat,
        |m: int|
            match s[m] {
                Some(c) => raised(c.from_dist),
                None => 0i64,
            },
    )
}

/// The marks with which the next leg starts, from the slice that reached
/// the buoy first: one row for each bucket that holds a position.
pub fn reset_marks(nav: &Nav) -> (r: BTreeMap<i32, MaxRow>)
    requires
        nav.wf(),
        buckets_ok(nav.alternatives@),
    ensures
        forall|k: i32|
            #[trigger] marks(r@).contains_key(k) <==> has_key(nav.alternatives@, k) && count_upto(
                slots_of(nav.alternatives@, k),
                SLOTS as nat,
            ) > 0,
        forall|k: i32|
            #[trigger] marks(r@).contains_key(k) ==> marks(r@)[k] == row_marks(
                slots_of(nav.alternatives@, k),
            ),
{
    broadcast use vstd::std_specs::btree::group_btree_axioms, vstd::laws_cmp::group_laws_cmp;

    let mut r: BTreeMap<i32, MaxRow> = BTreeMap::new();
    let ghost s = nav.alternatives@;
    let mut j: usize = 0;
    while j < nav.alternatives.len()
        invariant
            nav.wf(),
            buckets_ok(nav.alternatives@),
            s == nav.alternatives@,
            j <= s.len(),
            forall|k: i32|
                #[trigger] r@.contains_key(k) <==> exists|w: int|
                    0 <= w < j && s[w].0 == k && count_upto(s[w].1@, SLOTS as nat) > 0,
            forall|w: int|
                0 <= w < j && #[trigger] r@.contains_key(s[w].0) ==> r@[s[w].0]@ == row_marks(
                    s[w].1@,
                ),
        decreases s.len() - j,
    {
        let az = nav.alternatives[j].0;
        let alt = &nav.alternatives[j].1;
        proof {
            assert(s[j as int].1.wf() && slots_ok(s[j as int].1@));
        }
        let mut row: MaxRow = [0i64, 0i64, 0i64, 0i64, 0i64, 0i64, 0i64, 0i64];
        let mut any = false;
        let mut m: usize = 0;
        while m < SLOTS
            invariant
                alt.wf(),
                slots_ok(alt@),
                m <= SLOTS,
                any <==> count_upto(alt@, m as nat) > 0,
                forall|q: int| 0 <= q < m ==> #[trigger] row@[q] == row_marks(alt@)[q],
                forall|q: int| m <= q < SLOTS ==> #[trigger] row@[q] == 0,
            decreases SLOTS - m,
        {
            if let Some(c) = alt.variants[m] {
                proof {
                    assert(candidate_ok(c));
                }
                row[m] = c.from_dist + c.from_dist / 1000;
                any = true;
            }
            m = m + 1;
        }
        proof {
            assert(row@ =~= row_marks(alt@));
            lemma_count_upto(alt@, SLOTS as nat);
        }
        if any {
            r.insert(az, row);
        }
        proof {
            assert forall|w: int| 0 <= w < j implies s[w].0 != az by {
                assert(s[w].0 < s[j as int].0);
            }
        }
        j = j + 1;
    }
    proof {
        assert forall|k: i32| #[trigger] marks(r@).contains_key(k) <==> has_key(s, k) && count_upto(slots_of(s, k), SLOTS as nat) > 0 by {
            if has_key(s, k) {
                let w = choose|w: int| 0 <= w < s.len() && s[w].0 == k;
                lemma_key_index(s, w);
            }
            if r@.contains_key(k) {
                let w = choose|w: int| 0 <= w < j && s[w].0 == k && count_upto(s[w].1@, SLOTS as nat) > 0;
                lemma_key_index(s, w);
            }
        }
        assert forall|k: i32| #[trigger] marks(r@).contains_key(k) implies marks(r@)[k] == row_marks(slots_of(s, k)) by {
            let w = choose|w: int| 0 <= w < j && s[w].0 == k && count_upto(s[w].1@, SLOTS as nat) > 0;
            lemma_key_index(s, w);
            assert(r@.contains_key(s[w].0));
        }
    }
    r
}

/// The slots of all buckets, bucket after bucket.
pub open spec fn flat(s: Buckets) -> Seq<Option<Candidate>>
    decreases s.len(),
{
    if s.len() == 0 {
        seq![]
    } else {
        flat(s.drop_last()) + s.last().1@
    }
}

/// The position closest to the buoy met along `items`, starting from
/// `best` at distance `best_dist`: a position takes over when there is none
/// yet or it lies strictly closer.
pub open spec fn closest_of(items: Seq<Option<Candidate>>, best: Option<Candidate>, best_dist: int) -> (
    Option<Candidate>,
    int,
)
    decreases items.len(),
{
    if items.len() == 0 {
        (best, best_dist)
    } else {
        let (b, d) = closest_of(items.drop_last(), best, best_dist);
        match items.last() {
            None => (b, d),
            Some(c) => if b is None || c.dist_to < d {
                (Some(c), c.dist_to as int)
            } else {
                (b, d)
            },
        }
    }
}

impl Nav {
    /// The position of the slice closest to the buoy, in order of buckets
    /// and slots, against the best one so far and its distance.
    pub fn closest(&self, best: Option<Candidate>, best_dist: i64) -> (r: (Option<Candidate>, i64))
        requires
            self.wf(),
        ensures
            (r.0, r.1 as int) == closest_of(flat(self.alternatives@), best, best_dist as int),
    {
        let ghost s = self.alternatives@;
        let mut b = best;
        let mut d = best_dist;
        let mut j: usize = 0;
        assert(s.subrange(0, 0) =~= Seq::<(i32, Alternative)>::empty());
        while j < self.alternatives.len()
            invariant
                self.wf(),
                s == self.alternatives@,
                j <= s.len(),
                (b, d as int) == closest_of(flat(s.subrange(0, j as int)), best, best_dist as int),
            decreases s.len() - j,
        {
            let alt = &self.alternatives[j].1;
            proof {
                assert(s[j as int].1.wf());
            }
            let ghost prefix = flat(s.subrange(0, j as int));
            let mut m: usize = 0;
            assert(alt@.subrange(0, 0) =~= Seq::<Option<Candidate>>::empty());
            assert(prefix + alt@.subrange(0, 0) =~= prefix);
            while m < SLOTS
                invariant
                    alt.wf(),
                    m <= SLOTS,
                    (b, d as int) == closest_of(prefix + alt@.subrange(0, m as int), best, best_dist as int),
                decreases SLOTS - m,
            {
                proof {
                    let before = prefix + alt@.subrange(0, m as int);
                    let after = prefix + alt@.subrange(0, m + 1);
                    assert(after.drop_last() =~= before);
                    assert(after.last() == alt@[m as int]);
                }
                if let Some(c) = alt.variants[m] {
                    let take = match b {
                        None => true,
                        Some(_) => c.dist_to < d,
                    };
                    if take {
                        b = Some(c);
                        d = c.dist_to;
                    }
                }
                m = m + 1;
            }
            proof {
                assert(alt@.subrange(0, SLOTS as int) =~= alt@);
                let next = s.subrange(0, j + 1);
                assert(next.drop_last() =~= s.subrange(0, j as int));
                assert(next.last() == s[j as int]);
            }
            j = j + 1;
        }
        proof {
            assert(s.subrange(0, s.len() as int) =~= s);
        }
        (b, d)
    }
}

/// The slots of bucket `k` of the slice of time `t` once the jumps `js` are
/// filed in order, each under its key in the slice of its time.
pub open spec fn filed_slots(js: Seq<(i32, Candidate)>, t: i64, k: i32) -> Seq<Option<Candidate>>
    decreases js.len(),
{
    if js.len() == 0 {
        empty_slots()
    } else {
        let prev = filed_slots(js.drop_last(), t, k);
        let (az, c) = js.last();
        if c.duration == t && az == k {
            merged_fast(prev, c)
        } else {
            prev
        }
    }
}

/// The least distance to the buoy of the jumps of time `t`.
pub open spec fn filed_min(js: Seq<(i32, Candidate)>, t: i64) -> Option<i64>
    decreases js.len(),
{
    if js.len() == 0 {
        None
    } else {
        let prev = filed_min(js.drop_last(), t);
        let c = js.last().1;
        if c.duration == t {
            min_with(prev, c.dist_to)
        } else {
            prev
        }
    }
}

/// Whether one of the jumps has time `t` and, if `k` is given, key `k`.
pub open spec fn filed(js: Seq<(i32, Candidate)>, t: i64, k: Option<i32>) -> bool {
    exists|i: int| 0 <= i < js.len() && js[i].1.duration == t && (k matches Some(key) ==> js[i].0 == key)
}

/// Whether one of the slices has time `t`.
pub open spec fn has_slice(r: Seq<Nav>, t: i64) -> bool {
    exists|q: int| 0 <= q < r.len() && r[q].absolute_duration == t
}

/// What the slices built from `js` hold, with a slice for `default_abs`.
pub open spec fn filed_ok(r: Seq<Nav>, js: Seq<(i32, Candidate)>, default_abs: i64) -> bool {
    &&& slices_ok(r)
    &&& forall|t: i64| #[trigger] has_slice(r, t) <==> (t == default_abs || filed(js, t, None))
    &&& forall|q: int|
        0 <= q < r.len() ==> {
            &&& !(#[trigger] r[q]).reached_by_way
            &&& !r[q].crossed
            &&& r[q].min == filed_min(js, r[q].absolute_duration)
            &&& forall|k: i32|
                (#[trigger] has_key(r[q].alternatives@, k) <==> filed(js, r[q].absolute_duration, Some(k)))
                    && slots_of(r[q].alternatives@, k) == filed_slots(js, r[q].absolute_duration, k)
        }
}

/// Files the positions that the jumps from one position reach: each goes,
/// under its azimuth key, into the slice of its time, the farthest one of
/// each bucket kept and the least distance to the buoy noted; the slice of
/// the plain step is there even when empty. Slices come in order of time.
pub fn file_jumps(default_abs: i64, jumps: &Vec<(i32, Candidate)>) -> (r: Vec<Nav>)
    ensures
        filed_ok(r@, jumps@, default_abs),
{
    let mut navs: Vec<Nav> = Vec::new();
    navs.push(Nav::from(default_abs));
    let ghost js = jumps@;
    proof {
        lemma_file_start(navs@, js.subrange(0, 0), default_abs);
    }
    let mut j: usize = 0;
    while j < jumps.len()
        invariant
            js == jumps@,
            j <= js.len(),
            filed_ok(navs@, js.subrange(0, j as int), default_abs),
        decreases js.len() - j,
    {
        let (az, c) = jumps[j];
        let ghost done = js.subrange(0, j as int);
        let ghost next = js.subrange(0, j + 1);
        proof {
            assert(next =~= done.push((az, c)));
        }
        let ghost old_navs = navs@;
        let (i, found) = locate_slice(&navs, c.duration);
        let mut nav = if found {
            navs.remove(i)
        } else {
            Nav::from(c.duration)
        };
        let ghost base = nav;
        proof {
            if found {
                assert(base == old_navs[i as int]);
                assert(navs@ =~= old_navs.remove(i as int));
            } else {
                assert(nav.alternatives@ =~= Seq::<(i32, Alternative)>::empty());
                assert(navs@ == old_navs);
            }
        }
        nav.add_fast(az, c);
        navs.insert(i, nav);
        proof {
            if found {
                assert(navs@ =~= old_navs.update(i as int, nav));
            } else {
                assert(navs@ =~= old_navs.insert(i as int, nav));
            }
            lemma_filed_push(done, az, c);
            lemma_file_step(old_navs, navs@, i as int, found, base, nav, done, next, az, c, default_abs);
        }
        j = j + 1;
    }
    proof {
        assert(js.subrange(0, js.len() as int) =~= js);
    }
    navs
}

proof fn lemma_file_start(r: Seq<Nav>, none: Seq<(i32, Candidate)>, default_abs: i64)
    requires
        none.len() == 0,
        r.len() == 1,
        r[0].absolute_duration == default_abs,
        r[0].alternatives@.len() == 0,
        r[0].min is None,
        !r[0].reached_by_way,
        !r[0].crossed,
    ensures
        filed_ok(r, none, default_abs),
{
    assert forall|t: i64| #[trigger] has_slice(r, t) <==> (t == default_abs || filed(none, t, None)) by {
        if t == default_abs {
            assert(r[0].absolute_duration == t);
        }
    }
    assert forall|k: i32|
        (#[trigger] has_key(r[0].alternatives@, k) <==> filed(none, r[0].absolute_duration, Some(k)))
            && slots_of(r[0].alternatives@, k) == filed_slots(none, r[0].absolute_duration, k) by {}
}

/// How filing one more jump changes what is filed.
proof fn lemma_filed_push(done: Seq<(i32, Candidate)>, az: i32, c: Candidate)
    ensures
        forall|t: i64| #[trigger] filed(done.push((az, c)), t, None) <==> (filed(done, t, None) || t == c.duration),
        forall|t: i64, k: i32|
            #[trigger] filed(done.push((az, c)), t, Some(k)) <==> (filed(done, t, Some(k)) || (t == c.duration && k == az)),
        forall|t: i64, k: i32|
            #[trigger] filed_slots(done.push((az, c)), t, k) == if t == c.duration && k == az {
                merged_fast(filed_slots(done, t, k), c)
            } else {
                filed_slots(done, t, k)
            },
        forall|t: i64|
            #[trigger] filed_min(done.push((az, c)), t) == if t == c.duration {
                min_with(filed_min(done, t), c.dist_to)
            } else {
                filed_min(done, t)
            },
{
    let next = done.push((az, c));
    assert(next.drop_last() =~= done);
    assert forall|t: i64| #[trigger] filed(next, t, None) <==> (filed(done, t, None) || t == c.duration) by {
        if filed(next, t, None) {
            let w = choose|w: int| 0 <= w < next.len() && next[w].1.duration == t && (None::<i32> matches Some(key) ==> next[w].0 == key);
            if w < done.len() {
                assert(done[w] == next[w]);
            }
        }
        if filed(done, t, None) {
            let w = choose|w: int| 0 <= w < done.len() && done[w].1.duration == t && (None::<i32> matches Some(key) ==> done[w].0 == key);
            assert(next[w] == done[w]);
        }
        if t == c.duration {
            assert(next[done.len() as int] == (az, c));
        }
    }
    assert forall|t: i64, k: i32| #[trigger] filed(next, t, Some(k)) <==> (filed(done, t, Some(k)) || (t == c.duration && k == az)) by {
        if filed(next, t, Some(k)) {
            let w = choose|w: int| 0 <= w < next.len() && next[w].1.duration == t && (Some(k) matches Some(key) ==> next[w].0 == key);
            if w < done.len() {
                assert(done[w] == next[w]);
            }
        }
        if filed(done, t, Some(k)) {
            let w = choose|w: int| 0 <= w < done.len() && done[w].1.duration == t && (Some(k) matches Some(key) ==> done[w].0 == key);
            assert(next[w] == done[w]);
        }
        if t == c.duration && k == az {
            assert(next[done.len() as int] == (az, c));
        }
    }
    assert forall|t: i64, k: i32| #[trigger] filed_slots(next, t, k) == if t == c.duration && k == az {
            merged_fast(filed_slots(done, t, k), c)
        } else {
            filed_slots(done, t, k)
        } by {}
    assert forall|t: i64| #[trigger] filed_min(next, t) == if t == c.duration {
            min_with(filed_min(done, t), c.dist_to)
        } else {
            filed_min(done, t)
        } by {}
}

/// Filing one jump into the slice of its time keeps the slices in order and
/// in step with what is filed.
#[verifier::rlimit(60)]
proof fn lemma_file_step(
    old_navs: Seq<Nav>,
    r: Seq<Nav>,
    i: int,
    found: bool,
    base: Nav,
    nav: Nav,
    done: Seq<(i32, Candidate)>,
    next: Seq<(i32, Candidate)>,
    az: i32,
    c: Candidate,
    default_abs: i64,
)
    requires
        filed_ok(old_navs, done, default_abs),
        next == done.push((az, c)),
        0 <= i <= old_navs.len(),
        forall|q: int| 0 <= q < i ==> old_navs[q].absolute_duration < c.duration,
        found <==> (i < old_navs.len() && old_navs[i].absolute_duration == c.duration),
        !found ==> forall|q: int| i <= q < old_navs.len() ==> old_navs[q].absolute_duration > c.duration,
        found ==> forall|q: int| i < q < old_navs.len() ==> old_navs[q].absolute_duration > c.duration,
        found ==> base == old_navs[i],
        !found ==> base.absolute_duration == c.duration && base.alternatives@.len() == 0 && base.min is None
            && !base.reached_by_way && !base.crossed,
        base.wf(),
        nav.wf(),
        nav.min == min_with(base.min, c.dist_to),
        slots_of(nav.alternatives@, az) == merged_fast(slots_of(base.alternatives@, az), c),
        has_key(nav.alternatives@, az),
        forall|k: i32|
            k != az ==> (has_key(nav.alternatives@, k) <==> has_key(base.alternatives@, k))
                && slots_of(nav.alternatives@, k) == slots_of(base.alternatives@, k),
        nav.absolute_duration == base.absolute_duration,
        nav.reached_by_way == base.reached_by_way,
        nav.crossed == base.crossed,
        r == if found {
            old_navs.update(i, nav)
        } else {
            old_navs.insert(i, nav)
        },
        forall|t: i64| #[trigger] filed(next, t, None) <==> (filed(done, t, None) || t == c.duration),
        forall|t: i64, k: i32|
            #[trigger] filed(next, t, Some(k)) <==> (filed(done, t, Some(k)) || (t == c.duration && k == az)),
        forall|t: i64, k: i32|
            #[trigger] filed_slots(next, t, k) == if t == c.duration && k == az {
                merged_fast(filed_slots(done, t, k), c)
            } else {
                filed_slots(done, t, k)
            },
        forall|t: i64|
            #[trigger] filed_min(next, t) == if t == c.duration {
                min_with(filed_min(done, t), c.dist_to)
            } else {
                filed_min(done, t)
            },
    ensures
        filed_ok(r, next, default_abs),
{
    let d = c.duration;
    if !found {
        assert(!filed(done, d, None)) by {
            if filed(done, d, None) {
                assert(has_slice(old_navs, d));
                let q = choose|q: int| 0 <= q < old_navs.len() && old_navs[q].absolute_duration == d;
                if q < i {
                    assert(old_navs[q].absolute_duration < d);
                } else {
                    assert(old_navs[q].absolute_duration > d);
                }
            }
        }
        lemma_filed_none(done, d);
        assert forall|k: i32| !filed(done, d, Some(k)) by {
            if filed(done, d, Some(k)) {
                let w = choose|w: int| 0 <= w < done.len() && done[w].1.duration == d && (Some(k) matches Some(key) ==> done[w].0 == key);
                assert(filed(done, d, None));
            }
        }
    }
    // the slice of time d now matches what is filed
    assert(r[i].absolute_duration == d);
    assert forall|k: i32|
        (#[trigger] has_key(r[i].alternatives@, k) <==> filed(next, d, Some(k)))
            && slots_of(r[i].alternatives@, k) == filed_slots(next, d, k) by {
        if found {
            assert(old_navs[i].absolute_duration == d);
        } else {
            assert(!has_key(base.alternatives@, k));
            assert(slots_of(base.alternatives@, k) == empty_slots());
        }
    }
    assert(r[i].min == filed_min(next, d)) by {
        if found {
            assert(old_navs[i].absolute_duration == d);
        }
    }
    // the other slices keep their place in order, and what is filed for them
    assert forall|q: int| 0 <= q < r.len() && q != i implies #[trigger] r[q] == old_navs[if found || q < i { q } else { q - 1 }]
        && r[q].absolute_duration != d by {
        let oq = if found || q < i { q } else { q - 1 };
        if found {
            if oq < i {
                assert(old_navs[oq].absolute_duration < d);
            } else {
                assert(old_navs[oq].absolute_duration > d);
            }
        }
    }
    assert(slices_ok(r)) by {
        assert forall|a: int, b: int| 0 <= a < b < r.len() implies r[a].absolute_duration < r[b].absolute_duration by {
            if a != i && b != i {
                let oa = if found || a < i { a } else { a - 1 };
                let ob = if found || b < i { b } else { b - 1 };
                assert(old_navs[oa].absolute_duration < old_navs[ob].absolute_duration);
            }
        }
        assert forall|q: int| 0 <= q < r.len() implies (#[trigger] r[q]).wf() by {
            if q != i {
                let oq = if found || q < i { q } else { q - 1 };
                assert(r[q] == old_navs[oq]);
            }
        }
    }
    assert forall|t: i64| #[trigger] has_slice(r, t) <==> (t == default_abs || filed(next, t, None)) by {
        if has_slice(r, t) {
            let q = choose|q: int| 0 <= q < r.len() && r[q].absolute_duration == t;
            if q != i {
                let oq = if found || q < i { q } else { q - 1 };
                assert(r[q] == old_navs[oq]);
                assert(old_navs[oq].absolute_duration == t);
                assert(has_slice(old_navs, t));
            }
        }
        if t != d && (t == default_abs || filed(done, t, None)) {
            assert(has_slice(old_navs, t));
            let p = choose|p: int| 0 <= p < old_navs.len() && old_navs[p].absolute_duration == t;
            if found {
                assert(p != i);
                assert(r[p] == old_navs[p]);
                assert(r[p].absolute_duration == t);
            } else if p < i {
                assert(r[p] == old_navs[p]);
                assert(r[p].absolute_duration == t);
            } else {
                assert(r[p + 1] == old_navs[p]);
                assert(r[p + 1].absolute_duration == t);
            }
        }
        if t == d {
            assert(r[i].absolute_duration == t);
        }
    }
    assert forall|q: int| 0 <= q < r.len() && q != i implies {
        &&& !(#[trigger] r[q]).reached_by_way
        &&& !r[q].crossed
        &&& r[q].min == filed_min(next, r[q].absolute_duration)
        &&& forall|k: i32|
            (#[trigger] has_key(r[q].alternatives@, k) <==> filed(next, r[q].absolute_duration, Some(k)))
                && slots_of(r[q].alternatives@, k) == filed_slots(next, r[q].absolute_duration, k)
    } by {
        let oq = if found || q < i { q } else { q - 1 };
        assert(r[q] == old_navs[oq]);
    }
    assert(!r[i].reached_by_way && !r[i].crossed) by {
        if found {
            assert(!old_navs[i].reached_by_way && !old_navs[i].crossed);
        }
    }
}

proof fn lemma_filed_none(js: Seq<(i32, Candidate)>, t: i64)
    requires
        !filed(js, t, None),
    ensures
        filed_min(js, t) is None,
        forall|k: i32| #[trigger] filed_slots(js, t, k) == empty_slots(),
    decreases js.len(),
{
    if js.len() > 0 {
        assert(!filed(js.drop_last(), t, None)) by {
            if filed(js.drop_last(), t, None) {
                let w = choose|w: int| 0 <= w < js.drop_last().len() && js.drop_last()[w].1.duration == t && (None::<i32> matches Some(key) ==> js.drop_last()[w].0 == key);
                assert(js[w] == js.drop_last()[w]);
            }
        }
        assert(js.last().1.duration != t) by {
            if js.last().1.duration == t {
                assert(js[js.len() - 1].1.duration == t);
            }
        }
        lemma_filed_none(js.drop_last(), t);
        assert forall|k: i32| #[trigger] filed_slots(js, t, k) == empty_slots() by {
            assert(filed_slots(js, t, k) == filed_slots(js.drop_last(), t, k));
        }
    }
}

} // verus!
