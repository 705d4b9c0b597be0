//! Timing of the isochrone search: node times, the step schedule, the
//! length of a jump under penalties, and which isochrones are drawn.

use vstd::prelude::*;

verus! {

/// The time of a node of the search: since the start of the route, and of
/// the last jump that led to it, in seconds.
#[derive(Clone, Copy, Debug)]
pub struct NavDuration {
    pub absolute: i64,
    pub relative: i64,
}

impl NavDuration {
    /// The time of the start of the route.
    pub fn zero() -> (r: NavDuration)
        ensures
            r == (NavDuration { absolute: 0, relative: 0 }),
    {
        NavDuration { absolute: 0, relative: 0 }
    }

    /// The time after one more jump of `d` seconds.
    pub fn add(self, d: i64) -> (r: NavDuration)
        requires
            i64::MIN <= self.absolute + d <= i64::MAX,
        ensures
            r == (NavDuration { absolute: (self.absolute + d) as i64, relative: d }),
    {
        NavDuration { absolute: self.absolute + d, relative: d }
    }

    /// Whether a node of this time is drawn on the isochrones: all are when
    /// `display_all`, else those of the first jump after each whole hour.
    pub fn visible(&self, display_all: bool) -> (r: bool)
        requires
            self.absolute >= 0,
        ensures
            r == (display_all || (self.absolute / 60) % 60 < self.relative / 60),
    {
        display_all || (self.absolute / 60) % 60 < self.relative / 60
    }

    /// Whether this node comes strictly earlier than another one.
    pub fn is_before(&self, other: &NavDuration) -> (r: bool)
        ensures
            r == (self.absolute < other.absolute),
    {
        self.absolute < other.absolute
    }
}

impl PartialEq for NavDuration {
    fn eq(&self, other: &NavDuration) -> (r: bool) {
        self.absolute == other.absolute
    }
}

impl vstd::std_specs::cmp::PartialEqSpecImpl for NavDuration {
    open spec fn obeys_eq_spec() -> bool {
        true
    }

    open spec fn eq_spec(&self, other: &NavDuration) -> bool {
        self.absolute == other.absolute
    }
}

/// One entry of the step schedule: up to `horizon` seconds after the start,
/// the search advances by `step` seconds at a time.
#[derive(Clone, Copy, Debug, PartialEq, Eq)]
pub struct Step {
    pub horizon: i64,
    pub step: i64,
}

/// The default step schedule: ten minutes for the first hour, an hour up to
/// six hours, three minutes up to a day, six hours beyond.
pub fn default_steps() -> (r: Vec<Step>)
    ensures
        r@ == seq![
            Step { horizon: 3600, step: 600 },
            Step { horizon: 21600, step: 3600 },
            Step { horizon: 86400, step: 180 },
            Step { horizon: 35_996_400, step: 21600 },
        ],
{
    let mut r = Vec::new();
    r.push(Step { horizon: 3600, step: 600 });
    r.push(Step { horizon: 21600, step: 3600 });
    r.push(Step { horizon: 86400, step: 180 });
    r.push(Step { horizon: 35_996_400, step: 21600 });
    r
}

/// The step in use `elapsed` seconds after the start: that of the first
/// entry whose horizon lies beyond, else that of the last entry.
pub open spec fn step_at(steps: Seq<Step>, elapsed: int) -> i64
    decreases steps.len(),
{
    if steps.len() == 0 {
        0
    } else if steps.len() == 1 || steps[0].horizon > elapsed {
        steps[0].step
    } else {
        step_at(steps.drop_first(), elapsed)
    }
}

/// The step in use `elapsed` seconds after the start, as `step_at` says.
pub fn step_for(steps: &Vec<Step>, elapsed: i64) -> (r: i64)
    requires
        steps@.len() > 0,
    ensures
        r == step_at(steps@, elapsed as int),
{
    let mut i: usize = 0;
    assert(steps@.subrange(0, steps@.len() as int) =~= steps@);
    while i < steps.len() - 1 && steps[i].horizon <= elapsed
        invariant
            i < steps@.len(),
            step_at(steps@.subrange(i as int, steps@.len() as int), elapsed as int) == step_at(
                steps@,
                elapsed as int,
            ),
        decreases steps@.len() - i,
    {
        proof {
            let s = steps@.subrange(i as int, steps@.len() as int);
            assert(s.drop_first() =~= steps@.subrange(i + 1, steps@.len() as int));
        }
        i = i + 1;
    }
    steps[i].step
}

pub open spec fn ceil_div(a: int, b: int) -> int {
    (a + b - 1) / b
}

/// The length of a jump of one step when penalties run for `penalty`
/// seconds: a penalty longer than the step stretches the jump to the next
/// whole number of steps that covers it.
pub open spec fn jump_length(step: int, penalty: int) -> int {
    if penalty > step {
        step * ceil_div(penalty, step)
    } else {
        step
    }
}

/// The length of a jump of one step of `step` seconds under penalties that
/// run for `penalty` seconds, as `jump_length` says.
pub fn jump_duration(step: i64, penalty: i64) -> (r: i64)
    requires
        0 < step <= 1_000_000_000,
        0 <= penalty <= 1_000_000_000,
    ensures
        r == jump_length(step as int, penalty as int),
        r >= step,
        r >= penalty,
        r % step == 0,
{
    if penalty > step {
        let n = (penalty + step - 1) / step;
        proof {
            let (pi, ni, st) = (penalty as int, n as int, step as int);
            assert(ni >= 1) by (nonlinear_arith)
                requires
                    pi >= st,
                    st >= 1,
                    ni == (pi + st - 1) / st,
            ;
            assert(ni * st >= pi) by (nonlinear_arith)
                requires
                    st >= 1,
                    ni == (pi + st - 1) / st,
            ;
            assert(ni <= 1_000_000_000) by (nonlinear_arith)
                requires
                    st >= 1,
                    pi <= 1_000_000_000,
                    ni == (pi + st - 1) / st,
            ;
            assert(st * ni <= 1_000_000_000 * 1_000_000_000) by (nonlinear_arith)
                requires
                    st <= 1_000_000_000,
                    ni <= 1_000_000_000,
                    ni >= 1,
            ;
            assert(st * ni >= st) by (nonlinear_arith)
                requires
                    ni >= 1,
                    st >= 0,
            ;
            assert((st * ni) % st == 0) by (nonlinear_arith)
                requires
                    st >= 1,
            ;
        }
        step * n
    } else {
        proof {
            assert((step as int) % (step as int) == 0) by (nonlinear_arith)
                requires
                    step >= 1,
            ;
        }
        step
    }
}

/// How many of the pending slices, sorted by time, are overtaken by a step
/// of `step` seconds from `duration`: those due strictly before its end.
pub fn stale_count(pending: &Vec<i64>, duration: i64, step: i64) -> (r: usize)
    requires
        i64::MIN <= duration + step <= i64::MAX,
    ensures
        r <= pending@.len(),
        forall|k: int| 0 <= k < r ==> #[trigger] pending@[k] < duration + step,
        r < pending@.len() ==> pending@[r as int] >= duration + step,
{
    let end = duration + step;
    let mut i: usize = 0;
    while i < pending.len() && pending[i] < end
        invariant
            i <= pending@.len(),
            forall|k: int| 0 <= k < i ==> #[trigger] pending@[k] < end,
        decreases pending@.len() - i,
    {
        i = i + 1;
    }
    i
}

/// Which isochrones are drawn, `minutes` after the start with a step of
/// `step_minutes`: the one that follows each whole hour (all of them when
/// `display_all`), marked 24 after a whole day, 6 after six hours, 1 after
/// an hour and 0 otherwise; `None` when it is not drawn.
pub open spec fn isochrone_mark(minutes: int, step_minutes: int, display_all: bool) -> Option<u32> {
    if display_all || minutes % 60 < step_minutes {
        if minutes % 1440 < step_minutes {
            Some(24)
        } else if minutes % 360 < step_minutes {
            Some(6)
        } else if minutes % 60 < step_minutes {
            Some(1)
        } else {
            Some(0)
        }
    } else {
        None
    }
}

/// Whether, and how marked, the isochrone `minutes` after the start is
/// drawn, as `isochrone_mark` says.
pub fn isochrone_color(minutes: i64, step_minutes: i64, display_all: bool) -> (r: Option<u32>)
    requires
        minutes >= 0,
    ensures
        r == isochrone_mark(minutes as int, step_minutes as int, display_all),
{
    if display_all || minutes % 60 < step_minutes {
        if minutes % 1440 < step_minutes {
            Some(24)
        } else if minutes % 360 < step_minutes {
            Some(6)
        } else if minutes % 60 < step_minutes {
            Some(1)
        } else {
            Some(0)
        }
    } else {
        None
    }
}

/// Whether a new isochrone path starts at the `k`-th of the sorted azimuth
/// keys: when it lies more than 6 beyond the previous key, the first key
/// being compared with -99.
pub open spec fn path_breaks_at(azs: Seq<i32>, k: int) -> bool {
    let previous = if k == 0 {
        -99
    } else {
        azs[k - 1] as int
    };
    azs[k] - previous > 6
}

/// The positions, in increasing order, at which the sorted azimuth keys of
/// an isochrone break into separate paths.
pub fn path_breaks(azs: &Vec<i32>) -> (r: Vec<usize>)
    ensures
        forall|i: int, j: int| 0 <= i < j < r@.len() ==> r@[i] < r@[j],
        forall|i: int|
            0 <= i < r@.len() ==> #[trigger] r@[i] < azs@.len() && path_breaks_at(azs@, r@[i] as int),
        forall|k: int|
            0 <= k < azs@.len() && #[trigger] path_breaks_at(azs@, k) ==> r@.contains(k as usize),
{
    let mut r: Vec<usize> = Vec::new();
    let mut previous: i64 = -99;
    let mut k: usize = 0;
    while k < azs.len()
        invariant
            k <= azs@.len(),
            k > 0 ==> previous == azs@[k - 1] as int,
            k == 0 ==> previous == -99,
            forall|i: int, j: int| 0 <= i < j < r@.len() ==> r@[i] < r@[j],
            forall|i: int| 0 <= i < r@.len() ==> #[trigger] r@[i] < k,
            forall|i: int|
                0 <= i < r@.len() ==> path_breaks_at(azs@, #[trigger] r@[i] as int),
            forall|q: int|
                0 <= q < k && #[trigger] path_breaks_at(azs@, q) ==> r@.contains(q as usize),
        decreases azs@.len() - k,
    {
        let az = azs[k] as i64;
        if az - previous > 6 {
            let ghost old_r = r@;
            r.push(k);
            proof {
                assert forall|q: int|
                    0 <= q < k + 1 && #[trigger] path_breaks_at(azs@, q) implies r@.contains(
                    q as usize,
                ) by {
                    if q < k {
                        assert(old_r.contains(q as usize));
                        let w = choose|w: int| 0 <= w < old_r.len() && old_r[w] == q as usize;
                        assert(r@[w] == q as usize);
                    } else {
                        assert(r@[old_r.len() as int] == q as usize);
                    }
                }
            }
        }
        previous = az;
        k = k + 1;
    }
    r
}

} // verus!
