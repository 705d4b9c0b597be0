//! Pruning of a time slice after a step: which positions survive, the
//! high-water marks they leave, and what holds of both.

use vstd::prelude::*;
use std::collections::BTreeMap;

use crate::frontier::{
    Alternative, BUCKETS_MAX, Buckets, Candidate, DIST_MAX, MaxRow, Nav, SLOTS, best_upto,
    buckets_ok, candidate_ok, count_upto, empty_slots, keys_sorted, lemma_best_upto,
    lemma_sizes_upto, sizes_upto, slots_ok, has_key, slots_of, lemma_key_index,
};

verus! {

pub open spec fn zero_row() -> Seq<i64> {
    seq![0i64, 0i64, 0i64, 0i64, 0i64, 0i64, 0i64, 0i64]
}

/// The mark left by a kept position: its distance from the start raised by
/// a thousandth.
pub open spec fn raised(d: i64) -> i64 {
    (d + d / 1000) as i64
}

/// The marks of bucket `az`: all zero when it has none.
pub open spec fn row_of(max: Map<i32, Seq<i64>>, az: i32) -> Seq<i64> {
    if max.contains_key(az) {
        max[az]
    } else {
        zero_row()
    }
}

/// The distance from the start of the best position of some slots, zero
/// when they are empty.
pub open spec fn best_from(s: Seq<Option<Candidate>>) -> int {
    match best_upto(s, SLOTS as nat) {
        Some(b) => b.from_dist as int,
        None => 0,
    }
}

/// Whether a position survives the step: outside the triangles to avoid,
/// within `max_radius` of the start and the buoy together, not more than
/// twice as far from the buoy as the closest position while more than 25
/// remain, not so far behind the best of its bucket that 300 minutes of
/// sailing would not make up for it, and not short of the mark of its
/// bucket for its sail.
pub open spec fn kept(
    c: Candidate,
    max_radius: i64,
    double_min: Option<i64>,
    size: int,
    best: int,
    row: Seq<i64>,
) -> bool {
    &&& !c.to_avoid
    &&& c.from_dist + c.dist_to <= max_radius
    &&& !(double_min matches Some(dm) && size > 25 && c.dist_to > dm)
    &&& c.from_dist + c.reach >= best
    &&& c.from_dist >= row[c.sail as int]
}

/// The state of the pruning of one bucket: its slots, the running number of
/// positions of the slice, the marks of the bucket and whether a mark was set.
pub type SlotsState = (Seq<Option<Candidate>>, int, Seq<i64>, bool);

/// Prunes the slots of one bucket from slot `k` on.
pub open spec fn prune_slots(
    st: SlotsState,
    k: nat,
    best: int,
    max_radius: i64,
    double_min: Option<i64>,
) -> SlotsState
    decreases SLOTS - k,
{
    if k >= SLOTS {
        st
    } else {
        let (s, size, row, touched) = st;
        match s[k as int] {
            None => prune_slots(st, k + 1, best, max_radius, double_min),
            Some(c) => if kept(c, max_radius, double_min, size, best, row) {
                prune_slots(
                    (s, size, row.update(c.sail as int, raised(c.from_dist)), true),
                    k + 1,
                    best,
                    max_radius,
                    double_min,
                )
            } else {
                prune_slots(
                    (s.update(k as int, None), size - 1, row, touched),
                    k + 1,
                    best,
                    max_radius,
                    double_min,
                )
            },
        }
    }
}

/// Prunes one bucket: each position is tested in turn against the marks of
/// the bucket as they stand, and each kept one raises the mark of its sail.
pub open spec fn prune_bucket(
    s: Seq<Option<Candidate>>,
    az: i32,
    size: int,
    max: Map<i32, Seq<i64>>,
    max_radius: i64,
    double_min: Option<i64>,
) -> (Seq<Option<Candidate>>, int, Map<i32, Seq<i64>>) {
    let r = prune_slots((s, size, row_of(max, az), false), 0, best_from(s), max_radius, double_min);
    let new_max = if r.3 {
        max.insert(az, r.2)
    } else {
        max
    };
    (r.0, r.1, new_max)
}

/// The views of the buckets of a slice.
pub open spec fn bucket_views(s: Buckets) -> Seq<(i32, Seq<Option<Candidate>>)> {
    s.map_values(|p: (i32, Alternative)| (p.0, p.1@))
}

/// The state of the pruning of a slice: the buckets done, the running
/// number of positions and the marks.
pub type NavState = (Seq<(i32, Seq<Option<Candidate>>)>, int, Map<i32, Seq<i64>>);

/// The marks of a table, row by row.
pub open spec fn marks(m: Map<i32, MaxRow>) -> Map<i32, Seq<i64>> {
    m.map_values(|a: MaxRow| a@)
}

/// Prunes the buckets of a slice from bucket `j` on, in order.
pub open spec fn prune_buckets(
    b: Seq<(i32, Seq<Option<Candidate>>)>,
    j: nat,
    st: NavState,
    max_radius: i64,
    double_min: Option<i64>,
) -> NavState
    decreases b.len() - j,
{
    if j >= b.len() {
        st
    } else {
        let (done, size, max) = st;
        let r = prune_bucket(b[j as int].1, b[j as int].0, size, max, max_radius, double_min);
        prune_buckets(b, j + 1, (done.push((b[j as int].0, r.0)), r.1, r.2), max_radius, double_min)
    }
}

/// The buckets that still hold a position.
pub open spec fn non_empty(b: Seq<(i32, Seq<Option<Candidate>>)>) -> Seq<(i32, Seq<Option<Candidate>>)> {
    b.filter(|p: (i32, Seq<Option<Candidate>>)| count_upto(p.1, SLOTS as nat) > 0)
}

proof fn lemma_views_push(s: Buckets, x: (i32, Alternative))
    ensures
        bucket_views(s.push(x)) == bucket_views(s).push((x.0, x.1@)),
{
    assert(bucket_views(s.push(x)) =~= bucket_views(s).push((x.0, x.1@)));
}

proof fn lemma_non_empty_push(b: Seq<(i32, Seq<Option<Candidate>>)>, x: (i32, Seq<Option<Candidate>>))
    ensures
        non_empty(b.push(x)) == if count_upto(x.1, SLOTS as nat) > 0 {
            non_empty(b).push(x)
        } else {
            non_empty(b)
        },
{
    reveal(Seq::filter);
    assert(b.push(x).drop_last() =~= b);
}

pub open spec fn rows_ok(max: Map<i32, Seq<i64>>) -> bool {
    forall|k: i32| #[trigger] max.contains_key(k) ==> max[k].len() == SLOTS
}

/// Whether `after` keeps every bucket of `before`, each of its marks at
/// least as high.
pub open spec fn marks_risen(before: Map<i32, Seq<i64>>, after: Map<i32, Seq<i64>>) -> bool {
    &&& forall|k: i32| #[trigger] before.contains_key(k) ==> after.contains_key(k)
    &&& forall|k: i32, m: int| 0 <= m < SLOTS ==> #[trigger] row_of(after, k)[m] >= #[trigger] row_of(before, k)[m]
}

/// Whether `res`, the slots of a bucket after pruning, holds only positions
/// that stood in the same slot of `orig` before it and pass the tests that
/// do not depend on the order: outside the triangles to avoid, within the
/// radius of the leg, within reach of the best of the bucket, and not short
/// of the mark `row` of their sail at the start of the step.
pub open spec fn survivors(res: Seq<Option<Candidate>>, orig: Seq<Option<Candidate>>, row: Seq<i64>, max_radius: i64) -> bool {
    forall|m: int|
        0 <= m < res.len() && #[trigger] res[m] is Some ==> {
            let c = res[m]->0;
            &&& m < orig.len() && orig[m] == res[m]
            &&& !c.to_avoid
            &&& c.from_dist + c.dist_to <= max_radius
            &&& c.from_dist + c.reach >= best_from(orig)
            &&& c.from_dist >= row[c.sail as int]
        }
}

proof fn lemma_raised(d: i64)
    requires
        0 <= d <= DIST_MAX,
    ensures
        raised(d) >= d,
{
}

proof fn lemma_prune_slots_marks(st: SlotsState, k: nat, best: int, max_radius: i64, double_min: Option<i64>)
    requires
        st.0.len() == SLOTS,
        st.2.len() == SLOTS,
        slots_ok(st.0),
    ensures
        prune_slots(st, k, best, max_radius, double_min).2.len() == SLOTS,
        forall|m: int| 0 <= m < SLOTS ==> #[trigger] prune_slots(st, k, best, max_radius, double_min).2[m] >= st.2[m],
    decreases SLOTS - k,
{
    if k < SLOTS {
        let (s, size, row, touched) = st;
        match s[k as int] {
            None => {
                lemma_prune_slots_marks(st, k + 1, best, max_radius, double_min);
            },
            Some(c) => {
                assert(candidate_ok(c));
                if kept(c, max_radius, double_min, size, best, row) {
                    lemma_raised(c.from_dist);
                    let next = (s, size, row.update(c.sail as int, raised(c.from_dist)), true);
                    lemma_prune_slots_marks(next, k + 1, best, max_radius, double_min);
                } else {
                    let next = (s.update(k as int, None), size - 1, row, touched);
                    assert(slots_ok(next.0));
                    lemma_prune_slots_marks(next, k + 1, best, max_radius, double_min);
                }
            },
        }
    }
}

proof fn lemma_prune_slots_survivors(
    st: SlotsState,
    k: nat,
    orig: Seq<Option<Candidate>>,
    row0: Seq<i64>,
    max_radius: i64,
    double_min: Option<i64>,
)
    requires
        st.0.len() == SLOTS,
        orig.len() == SLOTS,
        st.2.len() == SLOTS,
        row0.len() == SLOTS,
        slots_ok(orig),
        forall|m: int| 0 <= m < SLOTS ==> #[trigger] st.2[m] >= row0[m],
        forall|m: int| k <= m < SLOTS ==> #[trigger] st.0[m] == orig[m],
        forall|m: int|
            0 <= m < k && #[trigger] st.0[m] is Some ==> {
                let c = st.0[m]->0;
                &&& orig[m] == st.0[m]
                &&& !c.to_avoid
                &&& c.from_dist + c.dist_to <= max_radius
                &&& c.from_dist + c.reach >= best_from(orig)
                &&& c.from_dist >= row0[c.sail as int]
            },
    ensures
        survivors(prune_slots(st, k, best_from(orig), max_radius, double_min).0, orig, row0, max_radius),
    decreases SLOTS - k,
{
    let best = best_from(orig);
    if k < SLOTS {
        let (s, size, row, touched) = st;
        match s[k as int] {
            None => {
                lemma_prune_slots_survivors(st, k + 1, orig, row0, max_radius, double_min);
            },
            Some(c) => {
                assert(orig[k as int] == Some(c));
                assert(candidate_ok(c));
                if kept(c, max_radius, double_min, size, best, row) {
                    lemma_raised(c.from_dist);
                    let next = (s, size, row.update(c.sail as int, raised(c.from_dist)), true);
                    lemma_prune_slots_survivors(next, k + 1, orig, row0, max_radius, double_min);
                } else {
                    let next = (s.update(k as int, None), size - 1, row, touched);
                    lemma_prune_slots_survivors(next, k + 1, orig, row0, max_radius, double_min);
                }
            },
        }
    } else {
        assert forall|m: int| 0 <= m < st.0.len() && #[trigger] st.0[m] is Some implies {
            let c = st.0[m]->0;
            &&& m < orig.len() && orig[m] == st.0[m]
            &&& !c.to_avoid
            &&& c.from_dist + c.dist_to <= max_radius
            &&& c.from_dist + c.reach >= best_from(orig)
            &&& c.from_dist >= row0[c.sail as int]
        } by {}
    }
}

/// Pruning a bucket never lowers a mark nor drops a bucket from the marks,
/// and leaves the marks of the other buckets as they were; what it keeps
/// are survivors of the bucket.
pub proof fn lemma_bucket_marks_rise(
    s: Seq<Option<Candidate>>,
    az: i32,
    size: int,
    max: Map<i32, Seq<i64>>,
    max_radius: i64,
    double_min: Option<i64>,
)
    requires
        s.len() == SLOTS,
        slots_ok(s),
        rows_ok(max),
    ensures
        rows_ok(prune_bucket(s, az, size, max, max_radius, double_min).2),
        marks_risen(max, prune_bucket(s, az, size, max, max_radius, double_min).2),
        forall|k: i32| k != az ==> #[trigger] row_of(prune_bucket(s, az, size, max, max_radius, double_min).2, k) == row_of(max, k),
        survivors(prune_bucket(s, az, size, max, max_radius, double_min).0, s, row_of(max, az), max_radius),
{
    let row = row_of(max, az);
    assert(row.len() == SLOTS);
    let r = prune_slots((s, size, row, false), 0, best_from(s), max_radius, double_min);
    lemma_prune_slots_marks((s, size, row, false), 0, best_from(s), max_radius, double_min);
    lemma_prune_slots_survivors((s, size, row, false), 0, s, row, max_radius, double_min);
    let after = prune_bucket(s, az, size, max, max_radius, double_min).2;
    assert forall|k: i32, m: int| 0 <= m < SLOTS implies #[trigger] row_of(after, k)[m] >= #[trigger] row_of(max, k)[m] by {
        if k == az && r.3 {
            assert(row_of(after, k) == r.2);
        }
    }
}

/// Across a whole slice, the marks only rise: no mark drops and no bucket
/// leaves the marks. Each bucket pruned holds survivors of its bucket
/// before, against the marks at the start of the step.
pub proof fn lemma_marks_rise(
    b: Seq<(i32, Seq<Option<Candidate>>)>,
    j: nat,
    st: NavState,
    max_radius: i64,
    double_min: Option<i64>,
)
    requires
        forall|x: int, y: int| 0 <= x < y < b.len() ==> b[x].0 < b[y].0,
        forall|x: int| 0 <= x < b.len() ==> (#[trigger] b[x]).1.len() == SLOTS && slots_ok(b[x].1),
        rows_ok(st.2),
        st.0.len() == j,
        j <= b.len(),
    ensures
        rows_ok(prune_buckets(b, j, st, max_radius, double_min).2),
        marks_risen(st.2, prune_buckets(b, j, st, max_radius, double_min).2),
        prune_buckets(b, j, st, max_radius, double_min).0.len() == b.len(),
        forall|x: int| 0 <= x < j ==> #[trigger] prune_buckets(b, j, st, max_radius, double_min).0[x] == st.0[x],
        forall|x: int|
            j <= x < b.len() ==> (#[trigger] prune_buckets(b, j, st, max_radius, double_min).0[x]).0 == b[x].0
                && survivors(prune_buckets(b, j, st, max_radius, double_min).0[x].1, b[x].1, row_of(st.2, b[x].0), max_radius),
    decreases b.len() - j,
{
    if j < b.len() {
        let (done, size, max) = st;
        let r = prune_bucket(b[j as int].1, b[j as int].0, size, max, max_radius, double_min);
        lemma_bucket_marks_rise(b[j as int].1, b[j as int].0, size, max, max_radius, double_min);
        let next = (done.push((b[j as int].0, r.0)), r.1, r.2);
        lemma_marks_rise(b, j + 1, next, max_radius, double_min);
        let fin = prune_buckets(b, j, st, max_radius, double_min);
        assert(fin == prune_buckets(b, j + 1, next, max_radius, double_min));
        assert forall|k: i32, m: int| 0 <= m < SLOTS implies #[trigger] row_of(fin.2, k)[m] >= #[trigger] row_of(st.2, k)[m] by {
            assert(row_of(fin.2, k)[m] >= row_of(r.2, k)[m]);
            assert(row_of(r.2, k)[m] >= row_of(st.2, k)[m]);
        }
        assert forall|x: int| 0 <= x < j implies #[trigger] fin.0[x] == st.0[x] by {
            assert(next.0[x] == done[x]);
        }
        assert forall|x: int| j <= x < b.len() implies (#[trigger] fin.0[x]).0 == b[x].0
            && survivors(fin.0[x].1, b[x].1, row_of(st.2, b[x].0), max_radius) by {
            if x == j {
                assert(fin.0[x] == next.0[x]);
            } else {
                assert(b[j as int].0 < b[x].0);
                assert(row_of(r.2, b[x].0) == row_of(st.2, b[x].0));
            }
        }
    }
}

/// The marks left by the pruning of a step never drop below those it
/// started from, nor lose a bucket.
pub proof fn lemma_step_marks_rise(nav: Nav, max: Map<i32, MaxRow>, max_radius: i64)
    requires
        nav.wf(),
        buckets_ok(nav.alternatives@),
    ensures
        ({
            let double_min = match nav.min {
                Some(m) => Some((2 * m) as i64),
                None => None,
            };
            let r = prune_buckets(
                bucket_views(nav.alternatives@),
                0,
                (seq![], sizes_upto(nav.alternatives@, nav.alternatives@.len() as nat) as int, marks(max)),
                max_radius,
                double_min,
            );
            &&& marks_risen(marks(max), r.2)
            &&& r.0.len() == nav.alternatives@.len()
            &&& forall|x: int|
                0 <= x < r.0.len() ==> (#[trigger] r.0[x]).0 == nav.alternatives@[x].0 && survivors(
                    r.0[x].1,
                    nav.alternatives@[x].1@,
                    row_of(marks(max), nav.alternatives@[x].0),
                    max_radius,
                )
        }),
{
    let b = bucket_views(nav.alternatives@);
    let double_min = match nav.min {
        Some(m) => Some((2 * m) as i64),
        None => None,
    };
    assert forall|x: int| 0 <= x < b.len() implies (#[trigger] b[x]).1.len() == SLOTS && slots_ok(b[x].1) by {
        assert(nav.alternatives@[x].1.wf());
    }
    assert forall|x: int, y: int| 0 <= x < y < b.len() implies b[x].0 < b[y].0 by {}
    lemma_rows_ok(max);
    lemma_marks_rise(
        b,
        0,
        (seq![], sizes_upto(nav.alternatives@, nav.alternatives@.len() as nat) as int, marks(max)),
        max_radius,
        double_min,
    );
}

proof fn lemma_rows_ok(max: Map<i32, MaxRow>)
    ensures
        rows_ok(marks(max)),
{
    assert forall|k: i32| #[trigger] marks(max).contains_key(k) implies marks(max)[k].len() == SLOTS by {
        assert(marks(max)[k] == max[k]@);
    }
}

proof fn lemma_marks_insert(m: Map<i32, MaxRow>, k: i32, a: MaxRow)
    ensures
        marks(m.insert(k, a)) == marks(m).insert(k, a@),
{
    assert(marks(m.insert(k, a)) =~= marks(m).insert(k, a@));
}

impl Alternative {
    /// Prunes this bucket as `prune_bucket` says.
    fn prune_bucket_exec(
        &mut self,
        az: i32,
        size: i64,
        max: &mut BTreeMap<i32, MaxRow>,
        max_radius: i64,
        double_min: Option<i64>,
    ) -> (r: i64)
        requires
            old(self).wf(),
            slots_ok(old(self)@),
            -10_000_000 <= size <= 10_000_000,
            0 <= max_radius <= 4 * DIST_MAX,
        ensures
            final(self).wf(),
            slots_ok(final(self)@),
            size - 8 <= r <= size,
            prune_bucket(old(self)@, az, size as int, marks(old(max)@), max_radius, double_min) == (
                final(self)@,
                r as int,
                marks(final(max)@),
            ),
    {
        broadcast use vstd::std_specs::btree::group_btree_axioms, vstd::laws_cmp::group_laws_cmp;

        let best = self.best();
        proof {
            lemma_best_upto(self@, SLOTS as nat);
            if let Some(b) = best {
                let i = choose|i: int| 0 <= i < SLOTS && self@[i] == Some(b);
                assert(self@[i] is Some);
            }
        }
        let best_from: i64 = match best {
            Some(b) => b.from_dist,
            None => 0,
        };
        let row: MaxRow = match max.get(&az) {
            Some(row) => *row,
            None => [0i64, 0i64, 0i64, 0i64, 0i64, 0i64, 0i64, 0i64],
        };
        proof {
            assert(row@ == row_of(marks(old(max)@), az)) by {
                if !old(max)@.contains_key(az) {
                    assert(row@ =~= zero_row());
                }
            }
        }
        let (size, row, touched) = self.prune_slots_exec(size, row, best_from, max_radius, double_min);
        if touched {
            max.insert(az, row);
            proof {
                lemma_marks_insert(old(max)@, az, row);
            }
        }
        size
    }

    /// Prunes this bucket from slot `k` on, as `prune_slots` says.
    fn prune_slots_exec(
        &mut self,
        size: i64,
        row0: MaxRow,
        best: i64,
        max_radius: i64,
        double_min: Option<i64>,
    ) -> (r: (i64, MaxRow, bool))
        requires
            old(self).wf(),
            slots_ok(old(self)@),
            -10_000_000 <= size <= 10_000_000,
            0 <= max_radius <= 4 * DIST_MAX,
            0 <= best <= DIST_MAX,
        ensures
            final(self).wf(),
            slots_ok(final(self)@),
            size - 8 <= r.0 <= size,
            prune_slots((old(self)@, size as int, row0@, false), 0, best as int, max_radius, double_min)
                == (final(self)@, r.0 as int, r.1@, r.2),
    {
        let mut size = size;
        let mut row = row0;
        let mut touched = false;
        let mut k: usize = 0;
        let ghost size0 = size;
        while k < SLOTS
            invariant
                self.wf(),
                slots_ok(self@),
                k <= SLOTS,
                size0 - k <= size <= size0,
                -10_000_000 <= size0 <= 10_000_000,
                0 <= max_radius <= 4 * DIST_MAX,
                0 <= best <= DIST_MAX,
                prune_slots((old(self)@, size0 as int, row0@, false), 0, best as int, max_radius, double_min)
                    == prune_slots((self@, size as int, row@, touched), k as nat, best as int, max_radius, double_min),
            decreases SLOTS - k,
        {
            if let Some(c) = self.variants[k] {
                proof {
                    assert(candidate_ok(c));
                }
                let far_from_min = match double_min {
                    Some(dm) => size > 25 && c.dist_to > dm,
                    None => false,
                };
                let keep = !c.to_avoid && c.from_dist + c.dist_to <= max_radius && !far_from_min
                    && c.from_dist + c.reach >= best && c.from_dist >= row[c.sail];
                if keep {
                    row[c.sail] = c.from_dist + c.from_dist / 1000;
                    touched = true;
                } else {
                    self.variants.set(k, None);
                    size = size - 1;
                }
            }
            k = k + 1;
        }
        (size, row, touched)
    }
}

impl Nav {
    /// Prunes the slice after a step, unless it lands on the buoy: each bucket
    /// is pruned in order of its key as `prune_bucket` says, with the number
    /// of positions of the slice running down as positions go, and twice the
    /// least distance to the buoy as the bound on straying; the marks of
    /// the kept positions go into `max`; empty buckets are dropped.
    pub fn prune(&mut self, max: &mut BTreeMap<i32, MaxRow>, max_radius: i64)
        requires
            old(self).wf(),
            buckets_ok(old(self).alternatives@),
            old(self).alternatives@.len() <= BUCKETS_MAX,
            old(self).min matches Some(m) ==> 0 <= m <= DIST_MAX,
            0 <= max_radius <= 4 * DIST_MAX,
        ensures
            final(self).wf(),
            buckets_ok(final(self).alternatives@),
            final(self).min == old(self).min,
            final(self).absolute_duration == old(self).absolute_duration,
            final(self).reached_by_way == old(self).reached_by_way,
            final(self).crossed == old(self).crossed,
            old(self).reached_by_way ==> final(self).alternatives@ == old(self).alternatives@
                && final(max)@ == old(max)@,
            !old(self).reached_by_way ==> ({
                let double_min = match old(self).min {
                    Some(m) => Some((2 * m) as i64),
                    None => None,
                };
                let r = prune_buckets(
                    bucket_views(old(self).alternatives@),
                    0,
                    (
                        seq![],
                        sizes_upto(old(self).alternatives@, old(self).alternatives@.len() as nat) as int,
                        marks(old(max)@),
                    ),
                    max_radius,
                    double_min,
                );
                &&& bucket_views(final(self).alternatives@) == non_empty(r.0)
                &&& marks(final(max)@) == r.2
            }),
            !old(self).reached_by_way ==> marks_risen(marks(old(max)@), marks(final(max)@)),
            !old(self).reached_by_way ==> forall|x: int|
                0 <= x < final(self).alternatives@.len() ==> has_key(
                    old(self).alternatives@,
                    (#[trigger] final(self).alternatives@[x]).0,
                ) && survivors(
                    final(self).alternatives@[x].1@,
                    slots_of(old(self).alternatives@, final(self).alternatives@[x].0),
                    row_of(marks(old(max)@), final(self).alternatives@[x].0),
                    max_radius,
                ),
    {
        if self.reached_by_way {
            return;
        }
        let size0 = self.size();
        proof {
            lemma_sizes_upto(self.alternatives@, self.alternatives@.len() as nat);
        }
        let double_min = match self.min {
            Some(m) => Some(2 * m),
            None => None,
        };
        let ghost b = bucket_views(self.alternatives@);
        let ghost init: NavState = (seq![], size0 as int, marks(old(max)@));
        let mut out: Vec<(i32, Alternative)> = Vec::new();
        let mut size = size0 as i64;
        let mut j: usize = 0;
        assert(bucket_views(out@) =~= seq![]);
        while j < self.alternatives.len()
            invariant
                self.alternatives@ == old(self).alternatives@,
                self.wf(),
                buckets_ok(self.alternatives@),
                self.alternatives@.len() <= BUCKETS_MAX,
                b == bucket_views(self.alternatives@),
                0 <= max_radius <= 4 * DIST_MAX,
                j <= self.alternatives@.len(),
                size0 <= 8 * BUCKETS_MAX,
                size0 - 8 * j <= size <= size0,
                out@.len() == j,
                forall|i: int| 0 <= i < j ==> (#[trigger] out@[i]).0 == self.alternatives@[i].0,
                buckets_ok(out@),
                prune_buckets(b, 0, init, max_radius, double_min) == prune_buckets(
                    b,
                    j as nat,
                    (bucket_views(out@), size as int, marks(max@)),
                    max_radius,
                    double_min,
                ),
            decreases self.alternatives@.len() - j,
        {
            let az = self.alternatives[j].0;
            let mut alt = self.alternatives[j].1.copy();
            proof {
                assert(self.alternatives@[j as int].1.wf());
                assert(b[j as int] == (az, alt@));
            }
            let ghost before = out@;
            let ghost max_before = marks(max@);
            let ghost size_before = size as int;
            size = alt.prune_bucket_exec(az, size, max, max_radius, double_min);
            out.push((az, alt));
            proof {
                lemma_views_push(before, (az, alt));
                assert(out@ == before.push((az, alt)));
            }
            j = j + 1;
        }
        let mut kept: Vec<(i32, Alternative)> = Vec::new();
        let mut i: usize = 0;
        proof {
            assert(bucket_views(kept@) =~= non_empty(bucket_views(out@).subrange(0, 0))) by {
                reveal(Seq::filter);
            }
        }
        while i < out.len()
            invariant
                i <= out@.len(),
                buckets_ok(out@),
                buckets_ok(kept@),
                keys_sorted(self.alternatives@),
                out@.len() == self.alternatives@.len(),
                forall|q: int| 0 <= q < out@.len() ==> (#[trigger] out@[q]).0 == self.alternatives@[q].0,
                bucket_views(kept@) == non_empty(bucket_views(out@).subrange(0, i as int)),
                forall|q: int| 0 <= q < kept@.len() ==> exists|w: int| 0 <= w < i && (#[trigger] kept@[q]).0 == out@[w].0,
                forall|q: int, w: int| 0 <= q < kept@.len() && i <= w < out@.len() ==> #[trigger] kept@[q].0 < #[trigger] out@[w].0,
                keys_sorted(kept@),
            decreases out@.len() - i,
        {
            let n = out[i].1.count();
            proof {
                assert(out@[i as int].1.wf());
                let v = bucket_views(out@);
                assert(v.subrange(0, i + 1) =~= v.subrange(0, i as int).push(v[i as int]));
                lemma_non_empty_push(v.subrange(0, i as int), v[i as int]);
            }
            if n > 0 {
                let az = out[i].0;
                let alt = out[i].1.copy();
                let ghost before = kept@;
                kept.push((az, alt));
                proof {
                    lemma_views_push(before, (az, alt));
                }
            }
            proof {
                assert forall|q: int, w: int| 0 <= q < kept@.len() && i + 1 <= w < out@.len() implies #[trigger] kept@[q].0 < #[trigger] out@[w].0 by {
                    if q < kept@.len() - 1 || n == 0 {
                        assert(kept@[q].0 < out@[w].0);
                    } else {
                        assert(out@[i as int].0 == self.alternatives@[i as int].0);
                        assert(out@[w].0 == self.alternatives@[w].0);
                    }
                }
            }
            i = i + 1;
        }
        proof {
            let v = bucket_views(out@);
            assert(v.subrange(0, out@.len() as int) =~= v);
            let r = prune_buckets(b, 0, init, max_radius, double_min);
            assert(r == (v, size as int, marks(max@))) by {
                assert(prune_buckets(b, j as nat, (v, size as int, marks(max@)), max_radius, double_min)
                    == (v, size as int, marks(max@)));
            }
            lemma_step_marks_rise(*old(self), old(max)@, max_radius);
            assert forall|x: int| 0 <= x < b.len() implies (#[trigger] b[x]).1.len() == SLOTS && slots_ok(b[x].1) by {
                assert(old(self).alternatives@[x].1.wf());
            }
            lemma_rows_ok(old(max)@);
            lemma_marks_rise(b, 0, init, max_radius, double_min);
            assert(b == bucket_views(old(self).alternatives@));
            assert(double_min == match old(self).min {
                Some(m) => Some((2 * m) as i64),
                None => None,
            });
            assert(init == (Seq::<(i32, Seq<Option<Candidate>>)>::empty(), sizes_upto(old(self).alternatives@, old(self).alternatives@.len() as nat) as int, marks(old(max)@)));
            let pred = |p: (i32, Seq<Option<Candidate>>)| count_upto(p.1, SLOTS as nat) > 0;
            assert forall|x: int| 0 <= x < kept@.len() implies has_key(
                old(self).alternatives@,
                (#[trigger] kept@[x]).0,
            ) && survivors(
                kept@[x].1@,
                slots_of(old(self).alternatives@, kept@[x].0),
                row_of(marks(old(max)@), kept@[x].0),
                max_radius,
            ) by {
                let kv = bucket_views(kept@);
                assert(kv[x] == (kept@[x].0, kept@[x].1@));
                assert(kv == v.filter(pred));
                assert(v.filter(pred).contains(kv[x]));
                v.lemma_filter_contains_rev(pred, kv[x]);
                let w = choose|w: int| 0 <= w < v.len() && v[w] == kv[x];
                assert(r.0[w] == kv[x]);
                assert(0 <= w < r.0.len());
                assert(r.0[w].0 == old(self).alternatives@[w].0);
                assert(b[w] == (old(self).alternatives@[w].0, old(self).alternatives@[w].1@));
                assert(survivors(r.0[w].1, b[w].1, row_of(init.2, b[w].0), max_radius));
                lemma_key_index(old(self).alternatives@, w);
            }
        }
        self.alternatives = kept;
    }
}

} // verus!
