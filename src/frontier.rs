//! The isochrone frontier: positions ranked by integer distances, filed in
//! buckets by azimuth key, one slot per sail, within time slices.

use vstd::prelude::*;

verus! {

/// The key of the bucket that holds landings on the buoy.
pub const LANDING: i32 = -1;

/// Number of sail slots of an alternative.
pub const SLOTS: usize = 8;

/// A position of the isochrone frontier as the search ranks it: distances
/// in millimetres, times in seconds.
#[derive(Clone, Copy, Debug, PartialEq, Eq)]
pub struct Candidate {
    /// The position this stands for, in the caller's store.
    pub node: usize,
    /// Distance from the start of the leg.
    pub from_dist: i64,
    /// Distance to the buoy.
    pub dist_to: i64,
    /// Time since the start of the route.
    pub duration: i64,
    /// Index of the sail in use.
    pub sail: usize,
    /// Distance that the boat covers in 300 minutes at its speed.
    pub reach: i64,
    /// Whether the position lies inside a triangle that the buoy asks to avoid.
    pub to_avoid: bool,
}

/// The positions kept for one azimuth bucket, one slot per sail.
#[derive(Clone, Debug)]
pub struct Alternative {
    pub variants: Vec<Option<Candidate>>,
}

impl View for Alternative {
    type V = Seq<Option<Candidate>>;

    open spec fn view(&self) -> Seq<Option<Candidate>> {
        self.variants@
    }
}

pub open spec fn empty_slots() -> Seq<Option<Candidate>> {
    seq![None, None, None, None, None, None, None, None]
}

/// The slots once `c` is merged into the first one: it takes the slot when
/// the slot is empty or `c` lies farther from the start.
pub open spec fn merged_fast(s: Seq<Option<Candidate>>, c: Candidate) -> Seq<Option<Candidate>> {
    match s[0] {
        None => s.update(0, Some(c)),
        Some(v) => if v.from_dist < c.from_dist {
            s.update(0, Some(c))
        } else {
            s
        },
    }
}

/// Slot `i` once the slot of another alternative is merged in: the incoming
/// position wins when the slot is empty or it lies farther from the start.
pub open spec fn merged_slot(mine: Option<Candidate>, other: Option<Candidate>) -> Option<Candidate> {
    match other {
        None => mine,
        Some(o) => match mine {
            None => Some(o),
            Some(m) => if o.from_dist > m.from_dist {
                Some(o)
            } else {
                mine
            },
        },
    }
}

/// Slot `i` once the slot of another alternative is merged in, the earlier
/// position winning (the one in place on a tie).
pub open spec fn merged_slot_by_duration(mine: Option<Candidate>, other: Option<Candidate>) -> Option<
    Candidate,
> {
    match other {
        None => mine,
        Some(o) => match mine {
            Some(m) => if m.duration <= o.duration {
                mine
            } else {
                Some(o)
            },
            None => Some(o),
        },
    }
}

/// The best of the first `n` slots: the first one farthest from the start.
pub open spec fn best_upto(s: Seq<Option<Candidate>>, n: nat) -> Option<Candidate>
    decreases n,
{
    if n == 0 {
        None
    } else {
        let b = best_upto(s, (n - 1) as nat);
        match s[n - 1] {
            None => b,
            Some(v) => match b {
                None => Some(v),
                Some(w) => if v.from_dist > w.from_dist {
                    Some(v)
                } else {
                    b
                },
            },
        }
    }
}

/// Number of filled slots among the first `n`.
pub open spec fn count_upto(s: Seq<Option<Candidate>>, n: nat) -> nat
    decreases n,
{
    if n == 0 {
        0
    } else {
        count_upto(s, (n - 1) as nat) + if s[n - 1] is Some {
            1nat
        } else {
            0nat
        }
    }
}

pub(crate) proof fn lemma_best_upto(s: Seq<Option<Candidate>>, n: nat)
    requires
        n <= s.len(),
    ensures
        best_upto(s, n) is None <==> forall|i: int| 0 <= i < n ==> s[i] is None,
        best_upto(s, n) matches Some(b) ==> exists|i: int| 0 <= i < n && s[i] == Some(b),
        best_upto(s, n) matches Some(b) ==> forall|i: int|
            0 <= i < n && #[trigger] s[i] is Some ==> s[i]->0.from_dist <= b.from_dist,
    decreases n,
{
    if n > 0 {
        lemma_best_upto(s, (n - 1) as nat);
        let b = best_upto(s, (n - 1) as nat);
        if let Some(w) = b {
            let i = choose|i: int| 0 <= i < n - 1 && s[i] == Some(w);
            assert(0 <= i < n && s[i] == Some(w));
        }
        if let Some(v) = s[n - 1] {
            assert(s[n - 1] == Some(v));
        }
    }
}

pub(crate) proof fn lemma_count_upto(s: Seq<Option<Candidate>>, n: nat)
    requires
        n <= s.len(),
    ensures
        count_upto(s, n) <= n,
        count_upto(s, n) == 0 <==> forall|i: int| 0 <= i < n ==> s[i] is None,
    decreases n,
{
    if n > 0 {
        lemma_count_upto(s, (n - 1) as nat);
    }
}

impl Alternative {
    pub open spec fn wf(&self) -> bool {
        self@.len() == SLOTS
    }

    /// An alternative with every slot empty.
    pub fn empty() -> (r: Alternative)
        ensures
            r@ == empty_slots(),
            r.wf(),
    {
        let mut variants: Vec<Option<Candidate>> = Vec::new();
        let mut i: usize = 0;
        while i < SLOTS
            invariant
                i <= SLOTS,
                variants@.len() == i,
                forall|j: int| 0 <= j < i ==> variants@[j] is None,
            decreases SLOTS - i,
        {
            variants.push(None);
            i = i + 1;
        }
        assert(variants@ =~= empty_slots());
        Alternative { variants }
    }

    /// An alternative holding `c` in its first slot.
    pub fn from(c: Candidate) -> (r: Alternative)
        ensures
            r@ == empty_slots().update(0, Some(c)),
            r.wf(),
    {
        let mut res = Alternative::empty();
        res.merge_fast(c);
        res
    }

    /// Keeps `c` in the first slot when it lies farther from the start than
    /// the position there: the wavefront keeps the farthest position of
    /// each bucket.
    pub fn merge_fast(&mut self, c: Candidate)
        requires
            old(self).wf(),
        ensures
            final(self)@ == merged_fast(old(self)@, c),
            final(self).wf(),
    {
        let renew = match &self.variants[0] {
            None => true,
            Some(v) => v.from_dist < c.from_dist,
        };
        if renew {
            self.variants.set(0, Some(c));
        }
    }

    /// Keeps `c` in the first slot when it is better than the position
    /// there, that is farther from the start.
    pub fn merge(&mut self, c: Candidate)
        requires
            old(self).wf(),
        ensures
            final(self)@ == merged_fast(old(self)@, c),
            final(self).wf(),
    {
        let renew = match &self.variants[0] {
            None => true,
            Some(v) => c.from_dist > v.from_dist,
        };
        if renew {
            self.variants.set(0, Some(c));
        }
    }

    /// Merges another alternative slot by slot, the farther position winning.
    pub fn merge_all(&mut self, other: &Alternative)
        requires
            old(self).wf(),
            other.wf(),
        ensures
            final(self).wf(),
            forall|i: int|
                0 <= i < SLOTS ==> #[trigger] final(self)@[i] == merged_slot(old(self)@[i], other@[i]),
    {
        let mut s: usize = 0;
        while s < SLOTS
            invariant
                self.wf(),
                other.wf(),
                s <= SLOTS,
                forall|i: int|
                    0 <= i < s ==> #[trigger] self@[i] == merged_slot(old(self)@[i], other@[i]),
                forall|i: int| s <= i < SLOTS ==> #[trigger] self@[i] == old(self)@[i],
            decreases SLOTS - s,
        {
            if let Some(pos) = &other.variants[s] {
                let take = match &self.variants[s] {
                    None => true,
                    Some(mine) => pos.from_dist > mine.from_dist,
                };
                if take {
                    self.variants.set(s, Some(*pos));
                }
            }
            s = s + 1;
        }
    }

    /// Merges another alternative slot by slot, the earlier position winning.
    pub fn merge_all_by_duration(&mut self, other: &Alternative)
        requires
            old(self).wf(),
            other.wf(),
        ensures
            final(self).wf(),
            forall|i: int|
                0 <= i < SLOTS ==> #[trigger] final(self)@[i] == merged_slot_by_duration(
                    old(self)@[i],
                    other@[i],
                ),
    {
        let mut s: usize = 0;
        while s < SLOTS
            invariant
                self.wf(),
                other.wf(),
                s <= SLOTS,
                forall|i: int|
                    0 <= i < s ==> #[trigger] self@[i] == merged_slot_by_duration(
                        old(self)@[i],
                        other@[i],
                    ),
                forall|i: int| s <= i < SLOTS ==> #[trigger] self@[i] == old(self)@[i],
            decreases SLOTS - s,
        {
            if let Some(pos) = &other.variants[s] {
                let keep = match &self.variants[s] {
                    None => false,
                    Some(mine) => mine.duration <= pos.duration,
                };
                if !keep {
                    self.variants.set(s, Some(*pos));
                }
            }
            s = s + 1;
        }
    }

    /// The position farthest from the start, the first one on a tie.
    pub fn best(&self) -> (r: Option<Candidate>)
        requires
            self.wf(),
        ensures
            r == best_upto(self@, SLOTS as nat),
            r is None <==> forall|i: int| 0 <= i < SLOTS ==> self@[i] is None,
            r matches Some(b) ==> exists|i: int| 0 <= i < SLOTS && self@[i] == Some(b),
            r matches Some(b) ==> forall|i: int|
                0 <= i < SLOTS && #[trigger] self@[i] is Some ==> self@[i]->0.from_dist
                    <= b.from_dist,
    {
        let mut best: Option<Candidate> = None;
        let mut s: usize = 0;
        while s < SLOTS
            invariant
                self.wf(),
                s <= SLOTS,
                best == best_upto(self@, s as nat),
            decreases SLOTS - s,
        {
            if let Some(v) = &self.variants[s] {
                let replace = match &best {
                    None => true,
                    Some(b) => v.from_dist > b.from_dist,
                };
                if replace {
                    best = Some(*v);
                }
            }
            s = s + 1;
        }
        proof {
            lemma_best_upto(self@, SLOTS as nat);
        }
        best
    }

    /// Number of filled slots.
    pub fn count(&self) -> (r: usize)
        requires
            self.wf(),
        ensures
            r == count_upto(self@, SLOTS as nat),
            r <= SLOTS,
            r == 0 <==> forall|i: int| 0 <= i < SLOTS ==> self@[i] is None,
    {
        let mut n: usize = 0;
        let mut s: usize = 0;
        while s < SLOTS
            invariant
                self.wf(),
                s <= SLOTS,
                n == count_upto(self@, s as nat),
                n <= s,
            decreases SLOTS - s,
        {
            if self.variants[s].is_some() {
                n = n + 1;
            }
            s = s + 1;
        }
        proof {
            lemma_count_upto(self@, SLOTS as nat);
        }
        n
    }

    pub(crate) fn copy(&self) -> (r: Alternative)
        ensures
            r@ == self@,
    {
        let mut variants: Vec<Option<Candidate>> = Vec::new();
        let mut i: usize = 0;
        while i < self.variants.len()
            invariant
                i <= self@.len(),
                variants@ == self@.subrange(0, i as int),
            decreases self@.len() - i,
        {
            variants.push(self.variants[i]);
            i = i + 1;
            assert(variants@ =~= self@.subrange(0, i as int));
        }
        assert(variants@ =~= self@);
        Alternative { variants }
    }
}

/// The largest distance, in millimetres, that the search handles: a million
/// kilometres.
pub const DIST_MAX: i64 = 1_000_000_000_000;

/// The most buckets a time slice may hold.
pub const BUCKETS_MAX: usize = 1_000_000;

/// A row of the high-water marks of one bucket: one distance per sail slot.
pub type MaxRow = [i64; 8];

/// Whether a position's figures are in range: distances within `DIST_MAX`,
/// its sail one of the slots (sail indices run from 0 to 6).
pub open spec fn candidate_ok(c: Candidate) -> bool {
    &&& c.sail < SLOTS
    &&& 0 <= c.from_dist <= DIST_MAX
    &&& 0 <= c.dist_to <= DIST_MAX
    &&& 0 <= c.reach <= DIST_MAX
}

pub open spec fn slots_ok(s: Seq<Option<Candidate>>) -> bool {
    forall|i: int| 0 <= i < s.len() && #[trigger] s[i] is Some ==> candidate_ok(s[i]->0)
}

pub open spec fn buckets_ok(s: Buckets) -> bool {
    forall|i: int| 0 <= i < s.len() ==> (#[trigger] s[i]).1.wf() && slots_ok(s[i].1@)
}

/// The buckets of a time slice, by azimuth key.
pub type Buckets = Seq<(i32, Alternative)>;

pub open spec fn keys_sorted(s: Buckets) -> bool {
    forall|i: int, j: int| 0 <= i < j < s.len() ==> s[i].0 < s[j].0
}

/// Whether one of the first `j` buckets has key `k`.
pub open spec fn seen(s: Buckets, j: int, k: i32) -> bool {
    exists|w: int| 0 <= w < j && s[w].0 == k
}

pub open spec fn has_key(s: Buckets, k: i32) -> bool {
    exists|i: int| 0 <= i < s.len() && s[i].0 == k
}

/// The slots of bucket `k`: all empty when there is no such bucket.
pub open spec fn slots_of(s: Buckets, k: i32) -> Seq<Option<Candidate>> {
    if has_key(s, k) {
        s[choose|i: int| 0 <= i < s.len() && s[i].0 == k].1@
    } else {
        empty_slots()
    }
}

/// The smaller of a running minimum and a new distance.
pub open spec fn min_with(m: Option<i64>, d: i64) -> Option<i64> {
    match m {
        None => Some(d),
        Some(x) => if x > d {
            Some(d)
        } else {
            m
        },
    }
}

/// The smaller of two running minima, an absent one being ignored.
pub open spec fn min_of(a: Option<i64>, b: Option<i64>) -> Option<i64> {
    match (a, b) {
        (None, _) => b,
        (_, None) => a,
        (Some(x), Some(y)) => if x <= y {
            a
        } else {
            b
        },
    }
}

pub(crate) proof fn lemma_key_index(s: Buckets, i: int)
    requires
        keys_sorted(s),
        0 <= i < s.len(),
    ensures
        has_key(s, s[i].0),
        slots_of(s, s[i].0) == s[i].1@,
{
    assert(0 <= i < s.len() && s[i].0 == s[i].0);
    let j = choose|j: int| 0 <= j < s.len() && s[j].0 == s[i].0;
    if j < i {
        assert(s[j].0 < s[i].0);
    }
    if j > i {
        assert(s[i].0 < s[j].0);
    }
}

/// One time slice of the frontier: its time since the start of the route,
/// the least distance to the buoy seen in it, its buckets of positions by
/// azimuth key in increasing order, whether it holds a direct landing on the
/// buoy and whether a position in it crossed the buoy.
#[derive(Clone, Debug)]
pub struct Nav {
    pub absolute_duration: i64,
    pub min: Option<i64>,
    pub alternatives: Vec<(i32, Alternative)>,
    pub reached_by_way: bool,
    pub crossed: bool,
}

/// Where bucket `az` stands, or would be inserted, among sorted buckets.
pub(crate) fn locate(alternatives: &Vec<(i32, Alternative)>, az: i32) -> (r: (usize, bool))
    requires
        keys_sorted(alternatives@),
    ensures
        r.0 <= alternatives@.len(),
        forall|j: int| 0 <= j < r.0 ==> alternatives@[j].0 < az,
        r.1 <==> (r.0 < alternatives@.len() && alternatives@[r.0 as int].0 == az),
        !r.1 ==> forall|j: int| r.0 <= j < alternatives@.len() ==> alternatives@[j].0 > az,
{
    let mut i: usize = 0;
    while i < alternatives.len() && alternatives[i].0 < az
        invariant
            i <= alternatives@.len(),
            forall|j: int| 0 <= j < i ==> alternatives@[j].0 < az,
        decreases alternatives@.len() - i,
    {
        i = i + 1;
    }
    let found = i < alternatives.len() && alternatives[i].0 == az;
    proof {
        if !found && i < alternatives@.len() {
            assert forall|j: int| i <= j < alternatives@.len() implies alternatives@[j].0 > az by {
                if j > i {
                    assert(alternatives@[i as int].0 < alternatives@[j].0);
                }
            }
        }
    }
    (i, found)
}

impl Nav {
    pub open spec fn wf(&self) -> bool {
        &&& keys_sorted(self.alternatives@)
        &&& forall|i: int| 0 <= i < self.alternatives@.len() ==> (#[trigger] self.alternatives@[i]).1.wf()
    }

    /// An empty slice at time `absolute_duration`.
    pub fn from(absolute_duration: i64) -> (r: Nav)
        ensures
            r.wf(),
            r.absolute_duration == absolute_duration,
            r.min is None,
            r.alternatives@.len() == 0,
            !r.reached_by_way,
            !r.crossed,
    {
        Nav { absolute_duration, min: None, alternatives: Vec::new(), reached_by_way: false, crossed: false }
    }

    /// Lowers the running minimum of the distance to the buoy to `d`.
    pub fn note_distance(&mut self, d: i64)
        ensures
            final(self).min == min_with(old(self).min, d),
            final(self).alternatives == old(self).alternatives,
            final(self).absolute_duration == old(self).absolute_duration,
            final(self).reached_by_way == old(self).reached_by_way,
            final(self).crossed == old(self).crossed,
    {
        let lower = match self.min {
            None => true,
            Some(m) => m > d,
        };
        if lower {
            self.min = Some(d);
        }
    }

    /// Merges the running minimum of another slice.
    pub fn merge_min(&mut self, other: Option<i64>)
        ensures
            final(self).min == min_of(old(self).min, other),
            final(self).alternatives == old(self).alternatives,
            final(self).absolute_duration == old(self).absolute_duration,
            final(self).reached_by_way == old(self).reached_by_way,
            final(self).crossed == old(self).crossed,
    {
        self.min = match (self.min, other) {
            (None, o) => o,
            (m, None) => m,
            (Some(a), Some(b)) => if a <= b {
                Some(a)
            } else {
                Some(b)
            },
        };
    }

    /// Takes bucket `az` out of the slice, or an empty bucket when there is
    /// none, with the place where it goes back.
    pub(crate) fn take_bucket(&mut self, az: i32) -> (r: (usize, Alternative))
        requires
            old(self).wf(),
        ensures
            final(self).wf(),
            r.1.wf(),
            r.1@ == slots_of(old(self).alternatives@, az),
            !has_key(final(self).alternatives@, az),
            r.0 <= final(self).alternatives@.len(),
            forall|j: int| 0 <= j < r.0 ==> final(self).alternatives@[j].0 < az,
            forall|j: int|
                r.0 <= j < final(self).alternatives@.len() ==> final(self).alternatives@[j].0 > az,
            forall|k: i32|
                k != az ==> (has_key(final(self).alternatives@, k) <==> has_key(
                    old(self).alternatives@,
                    k,
                )) && slots_of(final(self).alternatives@, k) == slots_of(old(self).alternatives@, k),
            final(self).min == old(self).min,
            final(self).absolute_duration == old(self).absolute_duration,
            final(self).reached_by_way == old(self).reached_by_way,
            final(self).crossed == old(self).crossed,
    {
        let ghost s = self.alternatives@;
        let (i, found) = locate(&self.alternatives, az);
        if found {
            let (_, alt) = self.alternatives.remove(i);
            proof {
                lemma_key_index(s, i as int);
                let t = self.alternatives@;
                assert(t == s.remove(i as int));
                assert forall|k: i32| k != az implies (has_key(t, k) <==> has_key(s, k)) && slots_of(t, k) == slots_of(s, k) by {
                    if has_key(s, k) {
                        let j = choose|j: int| 0 <= j < s.len() && s[j].0 == k;
                        lemma_key_index(s, j);
                        let jj = if j < i { j } else { j - 1 };
                        assert(t[jj] == s[j]);
                        lemma_key_index(t, jj);
                    }
                    if has_key(t, k) {
                        let j = choose|j: int| 0 <= j < t.len() && t[j].0 == k;
                        let jj = if j < i { j } else { j + 1 };
                        assert(s[jj] == t[j]);
                    }
                }
                assert forall|j: int| 0 <= j < t.len() implies t[j].0 != az by {
                    let jj = if j < i { j } else { j + 1 };
                    assert(s[jj] == t[j]);
                    if jj > i {
                        assert(s[i as int].0 < s[jj].0);
                    }
                }
            }
            (i, alt)
        } else {
            proof {
                assert forall|j: int| 0 <= j < s.len() implies s[j].0 != az by {
                    if j >= i {
                    }
                }
            }
            (i, Alternative::empty())
        }
    }

    /// Puts a bucket back at its place.
    pub(crate) fn put_bucket(&mut self, i: usize, az: i32, alt: Alternative)
        requires
            old(self).wf(),
            alt.wf(),
            !has_key(old(self).alternatives@, az),
            i <= old(self).alternatives@.len(),
            forall|j: int| 0 <= j < i ==> old(self).alternatives@[j].0 < az,
            forall|j: int| i <= j < old(self).alternatives@.len() ==> old(self).alternatives@[j].0 > az,
        ensures
            final(self).wf(),
            has_key(final(self).alternatives@, az),
            slots_of(final(self).alternatives@, az) == alt@,
            forall|k: i32|
                k != az ==> (has_key(final(self).alternatives@, k) <==> has_key(
                    old(self).alternatives@,
                    k,
                )) && slots_of(final(self).alternatives@, k) == slots_of(old(self).alternatives@, k),
            final(self).min == old(self).min,
            final(self).absolute_duration == old(self).absolute_duration,
            final(self).reached_by_way == old(self).reached_by_way,
            final(self).crossed == old(self).crossed,
    {
        let ghost s = self.alternatives@;
        self.alternatives.insert(i, (az, alt));
        proof {
            let t = self.alternatives@;
            assert(t == s.insert(i as int, (az, alt)));
            assert(keys_sorted(t)) by {
                assert forall|a: int, b: int| 0 <= a < b < t.len() implies t[a].0 < t[b].0 by {
                    let aa = if a < i { a } else if a == i { -1 } else { a - 1 };
                    let bb = if b < i { b } else if b == i { -1 } else { b - 1 };
                    if aa >= 0 && bb >= 0 {
                        assert(s[aa].0 < s[bb].0);
                    }
                }
            }
            lemma_key_index(t, i as int);
            assert forall|k: i32| k != az implies (has_key(t, k) <==> has_key(s, k)) && slots_of(t, k) == slots_of(s, k) by {
                if has_key(s, k) {
                    let j = choose|j: int| 0 <= j < s.len() && s[j].0 == k;
                    lemma_key_index(s, j);
                    let jj = if j < i { j } else { j + 1 };
                    assert(t[jj] == s[j]);
                    lemma_key_index(t, jj);
                }
                if has_key(t, k) {
                    let j = choose|j: int| 0 <= j < t.len() && t[j].0 == k;
                    assert(j != i);
                    let jj = if j < i { j } else { j - 1 };
                    assert(s[jj] == t[j]);
                }
            }
        }
    }

    /// Adds a position to bucket `az`, keeping the farthest one, and lowers
    /// the running minimum of the distance to the buoy.
    pub fn add_fast(&mut self, az: i32, c: Candidate)
        requires
            old(self).wf(),
        ensures
            final(self).wf(),
            final(self).min == min_with(old(self).min, c.dist_to),
            slots_of(final(self).alternatives@, az) == merged_fast(
                slots_of(old(self).alternatives@, az),
                c,
            ),
            has_key(final(self).alternatives@, az),
            forall|k: i32|
                k != az ==> (has_key(final(self).alternatives@, k) <==> has_key(
                    old(self).alternatives@,
                    k,
                )) && slots_of(final(self).alternatives@, k) == slots_of(old(self).alternatives@, k),
            final(self).absolute_duration == old(self).absolute_duration,
            final(self).reached_by_way == old(self).reached_by_way,
            final(self).crossed == old(self).crossed,
    {
        self.note_distance(c.dist_to);
        let (i, mut alt) = self.take_bucket(az);
        alt.merge_fast(c);
        self.put_bucket(i, az, alt);
    }

    /// Merges an alternative into bucket `az`, slot by slot, the farther
    /// position winning.
    pub fn merge_alternative(&mut self, az: i32, other: &Alternative)
        requires
            old(self).wf(),
            other.wf(),
        ensures
            final(self).wf(),
            final(self).min == old(self).min,
            has_key(final(self).alternatives@, az),
            forall|i: int|
                0 <= i < SLOTS ==> #[trigger] slots_of(final(self).alternatives@, az)[i]
                    == merged_slot(slots_of(old(self).alternatives@, az)[i], other@[i]),
            forall|k: i32|
                k != az ==> (has_key(final(self).alternatives@, k) <==> has_key(
                    old(self).alternatives@,
                    k,
                )) && slots_of(final(self).alternatives@, k) == slots_of(old(self).alternatives@, k),
            final(self).absolute_duration == old(self).absolute_duration,
            final(self).reached_by_way == old(self).reached_by_way,
            final(self).crossed == old(self).crossed,
    {
        let (i, mut alt) = self.take_bucket(az);
        alt.merge_all(other);
        self.put_bucket(i, az, alt);
    }

    /// Merges another slice into this one: the running minima combine, and
    /// each bucket of the other slice merges into the bucket of the same
    /// key, slot by slot, the farther position winning.
    pub fn merge_nav(&mut self, other: &Nav)
        requires
            old(self).wf(),
            other.wf(),
        ensures
            final(self).wf(),
            final(self).min == min_of(old(self).min, other.min),
            forall|k: i32|
                #[trigger] has_key(final(self).alternatives@, k) <==> (has_key(old(self).alternatives@, k)
                    || has_key(other.alternatives@, k)),
            forall|k: i32, i: int|
                0 <= i < SLOTS ==> #[trigger] slots_of(final(self).alternatives@, k)[i] == merged_slot(
                    slots_of(old(self).alternatives@, k)[i],
                    slots_of(other.alternatives@, k)[i],
                ),
            final(self).absolute_duration == old(self).absolute_duration,
            final(self).reached_by_way == old(self).reached_by_way,
            final(self).crossed == old(self).crossed,
    {
        self.merge_min(other.min);
        let ghost start = self.alternatives@;
        let ghost theirs = other.alternatives@;
        let mut j: usize = 0;
        while j < other.alternatives.len()
            invariant
                self.wf(),
                other.wf(),
                theirs == other.alternatives@,
                j <= theirs.len(),
                self.min == min_of(old(self).min, other.min),
                self.absolute_duration == old(self).absolute_duration,
                self.reached_by_way == old(self).reached_by_way,
                self.crossed == old(self).crossed,
                start == old(self).alternatives@,
                forall|k: i32|
                    #[trigger] has_key(self.alternatives@, k) <==> (has_key(start, k) || seen(theirs, j as int, k)),
                forall|k: i32, i: int|
                    0 <= i < SLOTS ==> #[trigger] slots_of(self.alternatives@, k)[i] == if seen(theirs, j as int, k) {
                        merged_slot(slots_of(start, k)[i], slots_of(theirs, k)[i])
                    } else {
                        slots_of(start, k)[i]
                    },
            decreases theirs.len() - j,
        {
            let az = other.alternatives[j].0;
            proof {
                assert(theirs[j as int].1.wf());
                lemma_key_index(theirs, j as int);
                assert forall|k: i32| k != az implies (seen(theirs, j + 1, k) <==> seen(theirs, j as int, k)) by {
                    if seen(theirs, j + 1, k) {
                        let w = choose|w: int| 0 <= w < j + 1 && theirs[w].0 == k;
                        assert(w != j);
                        assert(0 <= w < j && theirs[w].0 == k);
                    }
                }
                assert(seen(theirs, j + 1, az)) by {
                    assert(0 <= j < j + 1 && theirs[j as int].0 == az);
                }
                assert(!seen(theirs, j as int, az)) by {
                    if seen(theirs, j as int, az) {
                        let w = choose|w: int| 0 <= w < j && theirs[w].0 == az;
                        assert(theirs[w].0 < theirs[j as int].0);
                    }
                }
            }
            self.merge_alternative(az, &other.alternatives[j].1);
            j = j + 1;
        }
        proof {
            assert forall|k: i32| seen(theirs, j as int, k) == has_key(theirs, k) by {}
            assert forall|k: i32, i: int| 0 <= i < SLOTS implies #[trigger] slots_of(self.alternatives@, k)[i] == merged_slot(
                    slots_of(old(self).alternatives@, k)[i],
                    slots_of(other.alternatives@, k)[i],
                ) by {
                if !has_key(theirs, k) {
                    assert(slots_of(theirs, k) == empty_slots());
                }
            }
        }
    }

    /// Merges a landing on the buoy into bucket -1, slot by slot, the
    /// earlier landing winning.
    pub fn merge_landing(&mut self, other: &Alternative)
        requires
            old(self).wf(),
            other.wf(),
        ensures
            final(self).wf(),
            final(self).min == old(self).min,
            has_key(final(self).alternatives@, LANDING),
            forall|i: int|
                0 <= i < SLOTS ==> #[trigger] slots_of(final(self).alternatives@, LANDING)[i]
                    == merged_slot_by_duration(slots_of(old(self).alternatives@, LANDING)[i], other@[i]),
            forall|k: i32|
                k != LANDING ==> (has_key(final(self).alternatives@, k) <==> has_key(
                    old(self).alternatives@,
                    k,
                )) && slots_of(final(self).alternatives@, k) == slots_of(old(self).alternatives@, k),
            final(self).absolute_duration == old(self).absolute_duration,
            final(self).reached_by_way == old(self).reached_by_way,
            final(self).crossed == old(self).crossed,
    {
        let (i, mut alt) = self.take_bucket(LANDING);
        alt.merge_all_by_duration(other);
        self.put_bucket(i, LANDING, alt);
    }

    /// Number of positions held by the slice.
    pub fn size(&self) -> (r: usize)
        requires
            self.wf(),
            self.alternatives@.len() <= usize::MAX / SLOTS,
        ensures
            r == sizes_upto(self.alternatives@, self.alternatives@.len() as nat),
    {
        let mut n: usize = 0;
        let mut i: usize = 0;
        while i < self.alternatives.len()
            invariant
                self.wf(),
                self.alternatives@.len() <= usize::MAX / SLOTS,
                i <= self.alternatives@.len(),
                n == sizes_upto(self.alternatives@, i as nat),
                n <= i * SLOTS,
            decreases self.alternatives@.len() - i,
        {
            let c = self.alternatives[i].1.count();
            proof {
                assert(self.alternatives@[i as int].1.wf());
                assert((i + 1) * SLOTS == i * SLOTS + SLOTS) by (nonlinear_arith);
                assert((i + 1) * SLOTS <= usize::MAX) by (nonlinear_arith)
                    requires
                        i + 1 <= usize::MAX / SLOTS,
                ;
            }
            n = n + c;
            i = i + 1;
        }
        n
    }
}

pub(crate) proof fn lemma_sizes_upto(s: Buckets, n: nat)
    requires
        n <= s.len(),
        forall|i: int| 0 <= i < s.len() ==> (#[trigger] s[i]).1.wf(),
    ensures
        sizes_upto(s, n) <= 8 * n,
    decreases n,
{
    if n > 0 {
        lemma_sizes_upto(s, (n - 1) as nat);
        lemma_count_upto(s[n - 1].1@, SLOTS as nat);
    }
}

/// Number of positions held by the first `n` buckets.
pub open spec fn sizes_upto(s: Buckets, n: nat) -> nat
    decreases n,
{
    if n == 0 {
        0
    } else {
        sizes_upto(s, (n - 1) as nat) + count_upto(s[n - 1].1@, SLOTS as nat)
    }
}

/// The bucket of key `k` of a slice, empty when there is none.
pub(crate) fn way_bucket(nav: &Nav, k: i32) -> (r: (bool, Alternative))
    requires
        nav.wf(),
    ensures
        r.0 == has_key(nav.alternatives@, k),
        r.1.wf(),
        r.1@ == slots_of(nav.alternatives@, k),
{
    let (i, found) = locate(&nav.alternatives, k);
    if found {
        proof {
            assert(nav.alternatives@[i as int].1.wf());
            lemma_key_index(nav.alternatives@, i as int);
        }
        (true, nav.alternatives[i].1.copy())
    } else {
        proof {
            assert forall|j: int| 0 <= j < nav.alternatives@.len() implies nav.alternatives@[j].0 != k by {}
        }
        (false, Alternative::empty())
    }
}

} // verus!
