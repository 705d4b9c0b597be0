//! Sails and maneuver penalties: how long each penalty still runs, at what
//! speed ratio, and how sailing under them splits into stretches.

use vstd::prelude::*;

verus! {

/// The unit in which speed ratios are expressed: a ratio of `RATIO_ONE` is 1.0.
pub const RATIO_ONE: u32 = 1_000_000;

/// A sail of the boat: its index in the polar, its id (index + 1) and whether
/// it was chosen automatically.
#[derive(Clone, Copy, Debug)]
pub struct Sail {
    pub index: usize,
    pub id: usize,
    pub auto: bool,
}

/// Integer code of a sail: its id when chosen by hand, 10 when automatic.
pub open spec fn sail_code(s: Sail) -> nat {
    if s.auto {
        10
    } else {
        s.id as nat
    }
}

/// The sail that an integer code stands for.
pub open spec fn sail_of_code(code: nat) -> Sail {
    let c = if code % 10 == 0 {
        1
    } else {
        code % 10
    };
    Sail { index: (c - 1) as usize, id: c as usize, auto: code >= 10 }
}

impl Sail {
    /// The synthetic sail that matches whatever sail the polar selects.
    pub fn auto() -> (r: Sail)
        ensures
            r == (Sail { index: 0, id: 1, auto: true }),
    {
        Sail { index: 0, id: 1, auto: true }
    }

    /// The sail of a given index, chosen by hand.
    pub fn from_index(sail: usize) -> (r: Sail)
        requires
            sail < usize::MAX,
        ensures
            r == (Sail { index: sail, id: (sail + 1) as usize, auto: false }),
    {
        Sail { index: sail, id: sail + 1, auto: false }
    }

    /// Decodes an integer sail code: the last digit is the id (0 read as 1),
    /// a code of 10 or more marks an automatic sail.
    pub fn from_code(code: usize) -> (r: Sail)
        ensures
            r == sail_of_code(code as nat),
    {
        let digit = code % 10;
        let c = if digit == 0 {
            1
        } else {
            digit
        };
        Sail { index: c - 1, id: c, auto: code >= 10 }
    }

    /// The integer code of the sail, as `sail_code` says.
    pub fn code(&self) -> (r: usize)
        ensures
            r as nat == sail_code(*self),
    {
        if self.auto {
            10
        } else {
            self.id
        }
    }

    /// Two sails are the same sail when their ids agree.
    pub fn same(&self, other: &Sail) -> (r: bool)
        ensures
            r == (self.id == other.id),
    {
        self.id == other.id
    }
}

impl PartialEq for Sail {
    fn eq(&self, other: &Sail) -> (r: bool) {
        self.id == other.id
    }
}

impl vstd::std_specs::cmp::PartialEqSpecImpl for Sail {
    open spec fn obeys_eq_spec() -> bool {
        true
    }

    open spec fn eq_spec(&self, other: &Sail) -> bool {
        self.id == other.id
    }
}

/// Encoding a sail chosen by hand with id 1 to 9, or an automatic one, and
/// decoding the code gives back the same sail (as compared by id and mode).
pub proof fn lemma_sail_code_round_trip(s: Sail)
    requires
        s.auto ==> s.id == 1 && s.index == 0,
        !s.auto ==> 1 <= s.id <= 9 && s.index == s.id - 1,
    ensures
        sail_of_code(sail_code(s)) == s,
{
}


/// A maneuver penalty: how long it still runs, in seconds, and the speed ratio
/// it imposes meanwhile, in millionths (`0 < ratio <= RATIO_ONE`).
#[derive(Clone, Copy, Debug, PartialEq, Eq)]
pub struct Penalty {
    pub duration: u64,
    pub ratio: u32,
}

impl Penalty {
    pub open spec fn wf(self) -> bool {
        0 < self.ratio <= RATIO_ONE
    }
}

pub open spec fn slot_wf(p: Option<Penalty>) -> bool {
    p matches Some(q) ==> q.wf()
}

/// The remaining time of a slot, zero when it is empty.
pub open spec fn slot_remaining(p: Option<Penalty>) -> nat {
    match p {
        Some(q) => q.duration as nat,
        None => 0,
    }
}

/// A slot is active when it holds a penalty with time left.
pub open spec fn slot_active(p: Option<Penalty>) -> bool {
    p matches Some(q) && q.duration > 0
}

/// The speed factor of a slot, in millionths: 1.0 when it is empty.
pub open spec fn slot_factor(p: Option<Penalty>) -> nat {
    match p {
        Some(q) => q.ratio as nat,
        None => RATIO_ONE as nat,
    }
}

/// The slot once `d` seconds have elapsed: dropped when it runs out.
pub open spec fn slot_minus(p: Option<Penalty>, d: nat) -> Option<Penalty> {
    match p {
        Some(q) => if q.duration <= d {
            None
        } else {
            Some(Penalty { duration: (q.duration - d) as u64, ratio: q.ratio })
        },
        None => None,
    }
}

pub open spec fn slot_duration(p: Option<Penalty>) -> Option<u64> {
    match p {
        Some(q) => Some(q.duration),
        None => None,
    }
}

pub open spec fn slot_active_duration(p: Option<Penalty>) -> Option<u64> {
    if slot_active(p) {
        slot_duration(p)
    } else {
        None
    }
}

/// The smaller of two optional durations, an absent one being ignored.
pub open spec fn min_opt(a: Option<u64>, b: Option<u64>) -> Option<u64> {
    match (a, b) {
        (Some(x), Some(y)) => if x <= y {
            Some(x)
        } else {
            Some(y)
        },
        (None, _) => b,
        (_, None) => a,
    }
}

pub open spec fn max_nat(a: nat, b: nat) -> nat {
    if a >= b {
        a
    } else {
        b
    }
}

/// The pending penalties of a boat, one slot per kind of maneuver.
#[derive(Clone, Copy, Debug)]
pub struct Penalties {
    pub gybe: Option<Penalty>,
    pub sail_change: Option<Penalty>,
    pub tack: Option<Penalty>,
}

/// A penalty as reported along a route, with its kind: 1 gybe, 2 tack, 4 sail change.
#[derive(Clone, Copy, Debug, PartialEq, Eq)]
pub struct RoutePenalty {
    pub duration: u64,
    pub ratio: u32,
    pub typ: u8,
}

pub open spec fn reported(p: Option<Penalty>, typ: u8) -> Seq<RoutePenalty> {
    match p {
        Some(q) => if q.duration > 0 {
            seq![RoutePenalty { duration: q.duration, ratio: q.ratio, typ }]
        } else {
            seq![]
        },
        None => seq![],
    }
}

impl Penalties {
    pub open spec fn wf(self) -> bool {
        slot_wf(self.gybe) && slot_wf(self.sail_change) && slot_wf(self.tack)
    }

    /// Whether any penalty still has time left.
    pub open spec fn active(self) -> bool {
        slot_active(self.gybe) || slot_active(self.sail_change) || slot_active(self.tack)
    }

    /// The shortest remaining time over the active penalties.
    pub open spec fn shortest_active(self) -> Option<u64> {
        min_opt(
            min_opt(slot_active_duration(self.gybe), slot_active_duration(self.sail_change)),
            slot_active_duration(self.tack),
        )
    }

    /// The longest remaining time: when every penalty has run out.
    pub open spec fn longest(self) -> nat {
        max_nat(
            slot_remaining(self.gybe),
            max_nat(slot_remaining(self.sail_change), slot_remaining(self.tack)),
        )
    }

    pub open spec fn total_remaining(self) -> nat {
        slot_remaining(self.gybe) + slot_remaining(self.sail_change) + slot_remaining(self.tack)
    }

    /// The penalties once `d` seconds have elapsed.
    pub open spec fn minus(self, d: nat) -> Penalties {
        Penalties {
            gybe: slot_minus(self.gybe, d),
            sail_change: slot_minus(self.sail_change, d),
            tack: slot_minus(self.tack, d),
        }
    }

    /// The product of the ratios of the held penalties, in millionths
    /// (rounded down).
    pub open spec fn combined_ratio(self) -> nat {
        (slot_factor(self.gybe) * slot_factor(self.sail_change) * slot_factor(self.tack)) / (
        (RATIO_ONE as nat) * (RATIO_ONE as nat))
    }

    /// The held penalties that still have time left, as reported along a route.
    pub open spec fn reported(self) -> Seq<RoutePenalty> {
        reported(self.gybe, 1) + reported(self.tack, 2) + reported(self.sail_change, 4)
    }
}

/// How `d` seconds of sailing split into stretches of constant speed ratio:
/// each stretch lasts until the next active penalty runs out (or until `d`),
/// at the product of the ratios of the penalties active during it; once none
/// is active the rest is sailed at full speed.
pub open spec fn plan(p: Penalties, d: nat) -> Seq<Penalty>
    decreases d,
{
    if d == 0 {
        seq![]
    } else {
        match p.shortest_active() {
            None => seq![Penalty { duration: d as u64, ratio: RATIO_ONE }],
            // an active penalty has time left, so `m` is never zero
            Some(m) => if m == 0 {
                seq![]
            } else if d <= m {
                seq![Penalty { duration: d as u64, ratio: p.minus(0).combined_ratio() as u32 }]
            } else {
                seq![Penalty { duration: m, ratio: p.minus(0).combined_ratio() as u32 }] + plan(
                    p.minus(m as nat),
                    (d - m) as nat,
                )
            },
        }
    }
}

/// The total time of a sequence of stretches.
pub open spec fn sum_durations(s: Seq<Penalty>) -> nat
    decreases s.len(),
{
    if s.len() == 0 {
        0
    } else {
        s[0].duration as nat + sum_durations(s.drop_first())
    }
}

/// The shortest remaining time of the running penalties is positive, and
/// there is one exactly when a penalty runs.
pub proof fn lemma_shortest_active_positive(p: Penalties)
    ensures
        p.shortest_active() matches Some(m) ==> m > 0,
        p.shortest_active() is None <==> !p.active(),
{
}

proof fn lemma_minus_minus(p: Penalties, a: nat, b: nat)
    ensures
        p.minus(a).minus(b) == p.minus(a + b),
{
}

/// The shortest remaining penalty never outlasts the longest one, and once
/// the longest one has elapsed no penalty is left.
pub proof fn lemma_shortest_within_longest(p: Penalties, d: nat)
    ensures
        p.shortest_active() matches Some(m) ==> m <= p.longest(),
        d >= p.longest() ==> p.minus(d) == (Penalties { gybe: None, sail_change: None, tack: None }),
        d >= p.longest() ==> !p.minus(d).active(),
{
}

/// The stretches of a plan add up to the time sailed, and each one runs at
/// a ratio no greater than 1.0.
pub proof fn lemma_plan_covers(p: Penalties, d: nat)
    requires
        p.wf(),
        d <= u64::MAX,
    ensures
        sum_durations(plan(p, d)) == d,
        forall|i: int| 0 <= i < plan(p, d).len() ==> #[trigger] plan(p, d)[i].ratio <= RATIO_ONE,
    decreases d,
{
    lemma_shortest_active_positive(p);
    lemma_ratio_bounded(p.minus(0));
    if d > 0 {
        match p.shortest_active() {
            None => {
                let s = plan(p, d);
                assert(s.drop_first() =~= seq![]);
                assert(sum_durations(s.drop_first()) == 0);
            },
            Some(m) => {
                if d <= m {
                    let s = plan(p, d);
                    assert(s.drop_first() =~= seq![]);
                    assert(sum_durations(s.drop_first()) == 0);
                } else {
                    let rest = plan(p.minus(m as nat), (d - m) as nat);
                    lemma_plan_covers(p.minus(m as nat), (d - m) as nat);
                    let s = plan(p, d);
                    assert(s.drop_first() =~= rest);
                }
            },
        }
    }
}

/// With no penalty running, `d` seconds are sailed in one stretch at full
/// speed.
pub proof fn lemma_plan_without_penalties(p: Penalties, d: nat)
    requires
        !p.active(),
        0 < d <= u64::MAX,
    ensures
        plan(p, d) == seq![Penalty { duration: d as u64, ratio: RATIO_ONE }],
{
    lemma_shortest_active_positive(p);
}

/// The combined ratio of well-formed penalties is at most 1.0.
pub proof fn lemma_ratio_bounded(p: Penalties)
    requires
        p.wf(),
    ensures
        p.combined_ratio() <= RATIO_ONE,
{
    let a = slot_factor(p.gybe);
    let b = slot_factor(p.sail_change);
    let c = slot_factor(p.tack);
    assert(a * b <= 1_000_000_000_000) by (nonlinear_arith)
        requires
            a <= 1_000_000,
            b <= 1_000_000,
    ;
    assert(a * b * c <= 1_000_000_000_000_000_000) by (nonlinear_arith)
        requires
            a * b <= 1_000_000_000_000,
            c <= 1_000_000,
    ;
    assert((a * b * c) / 1_000_000_000_000 <= 1_000_000) by (nonlinear_arith)
        requires
            a * b * c <= 1_000_000_000_000_000_000,
    ;
}

fn slot_min(acc: Option<u64>, p: &Option<Penalty>) -> (r: Option<u64>)
    ensures
        r == min_opt(acc, slot_duration(*p)),
{
    match p {
        Some(q) => match acc {
            Some(m) => if m <= q.duration {
                Some(m)
            } else {
                Some(q.duration)
            },
            None => Some(q.duration),
        },
        None => acc,
    }
}

fn slot_min_active(acc: Option<u64>, p: &Option<Penalty>) -> (r: Option<u64>)
    ensures
        r == min_opt(acc, slot_active_duration(*p)),
{
    match p {
        Some(q) => if q.duration > 0 {
            slot_min(acc, p)
        } else {
            acc
        },
        None => acc,
    }
}

fn slot_minus_exec(p: &Option<Penalty>, d: u64) -> (r: Option<Penalty>)
    ensures
        r == slot_minus(*p, d as nat),
{
    match p {
        Some(q) => if q.duration <= d {
            None
        } else {
            Some(Penalty { duration: q.duration - d, ratio: q.ratio })
        },
        None => None,
    }
}

fn slot_factor_exec(p: &Option<Penalty>) -> (r: u64)
    requires
        slot_wf(*p),
    ensures
        r as nat == slot_factor(*p),
        0 < r <= RATIO_ONE,
{
    match p {
        Some(q) => q.ratio as u64,
        None => RATIO_ONE as u64,
    }
}

fn slot_remaining_exec(p: &Option<Penalty>) -> (r: u64)
    ensures
        r as nat == slot_remaining(*p),
{
    match p {
        Some(q) => q.duration,
        None => 0,
    }
}

fn push_reported(res: &mut Vec<RoutePenalty>, p: &Option<Penalty>, typ: u8)
    ensures
        final(res)@ == old(res)@ + reported(*p, typ),
{
    if let Some(q) = p {
        if q.duration > 0 {
            res.push(RoutePenalty { duration: q.duration, ratio: q.ratio, typ });
        }
    }
}

impl Penalties {
    /// No penalty at all.
    pub fn new() -> (r: Penalties)
        ensures
            r == (Penalties { gybe: None, sail_change: None, tack: None }),
            !r.active(),
    {
        Penalties { gybe: None, sail_change: None, tack: None }
    }

    /// Whether any penalty still has time left.
    pub fn is_some(&self) -> (r: bool)
        ensures
            r == self.active(),
    {
        let g = match &self.gybe {
            Some(p) => p.duration != 0,
            None => false,
        };
        let s = match &self.sail_change {
            Some(p) => p.duration != 0,
            None => false,
        };
        let t = match &self.tack {
            Some(p) => p.duration != 0,
            None => false,
        };
        g || s || t
    }

    /// The shortest remaining time over the penalties that still run,
    /// `None` when none runs.
    pub fn min_penalty_duration(&self) -> (r: Option<u64>)
        ensures
            r == self.shortest_active(),
    {
        let m = slot_min_active(None, &self.gybe);
        let m = slot_min_active(m, &self.sail_change);
        slot_min_active(m, &self.tack)
    }

    /// The time after which no penalty runs any more.
    pub fn duration(&self) -> (r: u64)
        ensures
            r as nat == self.longest(),
    {
        let g = slot_remaining_exec(&self.gybe);
        let s = slot_remaining_exec(&self.sail_change);
        let t = slot_remaining_exec(&self.tack);
        let st = if s >= t {
            s
        } else {
            t
        };
        if g >= st {
            g
        } else {
            st
        }
    }

    /// The sum of the remaining times.
    pub fn total(&self) -> (r: u64)
        requires
            self.total_remaining() <= u64::MAX,
        ensures
            r as nat == self.total_remaining(),
    {
        slot_remaining_exec(&self.gybe) + slot_remaining_exec(&self.sail_change)
            + slot_remaining_exec(&self.tack)
    }

    /// The penalties once `d` seconds have elapsed: each one loses `d`
    /// seconds and is dropped when it runs out.
    pub fn sub(&self, d: u64) -> (r: Penalties)
        ensures
            r == self.minus(d as nat),
    {
        Penalties {
            gybe: slot_minus_exec(&self.gybe, d),
            sail_change: slot_minus_exec(&self.sail_change, d),
            tack: slot_minus_exec(&self.tack, d),
        }
    }

    /// Sails `d` seconds under the held penalties: returns the penalties left
    /// afterwards and the combined speed ratio, the product of the ratios of
    /// all held penalties, in millionths.
    pub fn navigate(&self, d: u64) -> (r: (Penalties, u32))
        requires
            self.wf(),
        ensures
            r.0 == self.minus(d as nat),
            r.1 as nat == self.combined_ratio(),
            r.1 <= RATIO_ONE,
    {
        let fg = slot_factor_exec(&self.gybe);
        let fs = slot_factor_exec(&self.sail_change);
        let ft = slot_factor_exec(&self.tack);
        proof {
            assert(fg * fs <= 1_000_000_000_000) by (nonlinear_arith)
                requires
                    fg <= 1_000_000,
                    fs <= 1_000_000,
            ;
            assert(fg * fs * ft <= 1_000_000_000_000_000_000) by (nonlinear_arith)
                requires
                    fg * fs <= 1_000_000_000_000,
                    ft <= 1_000_000,
            ;
            assert(fg * fs * ft >= 1) by (nonlinear_arith)
                requires
                    fg >= 1,
                    fs >= 1,
                    ft >= 1,
            ;
        }
        let product = fg * fs * ft;
        let ratio = product / 1_000_000_000_000;
        proof {
            assert(ratio <= 1_000_000);
        }
        (self.sub(d), ratio as u32)
    }

    /// The stretches of constant speed ratio over the next `d` seconds, and
    /// the penalties left after them.
    pub fn split(&self, d: u64) -> (r: (Vec<Penalty>, Penalties))
        requires
            self.wf(),
        ensures
            r.0@ == plan(*self, d as nat),
            r.1 == self.minus(d as nat),
    {
        let mut res: Vec<Penalty> = Vec::new();
        let mut cur = *self;
        let mut rem = d;
        while rem > 0
            invariant
                cur.wf(),
                res@ + plan(cur, rem as nat) == plan(*self, d as nat),
                cur.minus(rem as nat) == self.minus(d as nat),
            decreases rem,
        {
            proof {
                lemma_shortest_active_positive(cur);
            }
            let ghost before = res@;
            match cur.min_penalty_duration() {
                None => {
                    res.push(Penalty { duration: rem, ratio: RATIO_ONE });
                    proof {
                        assert(res@ == before + plan(cur, rem as nat));
                        lemma_minus_minus(cur, rem as nat, 0);
                    }
                    cur = cur.sub(rem);
                    rem = 0;
                },
                Some(m) => {
                    let (_, ratio) = cur.sub(0).navigate(0);
                    if rem <= m {
                        res.push(Penalty { duration: rem, ratio });
                        proof {
                            assert(res@ == before + plan(cur, rem as nat));
                            lemma_minus_minus(cur, rem as nat, 0);
                        }
                        cur = cur.sub(rem);
                        rem = 0;
                    } else {
                        res.push(Penalty { duration: m, ratio });
                        proof {
                            let rest = plan(cur.minus(m as nat), (rem - m) as nat);
                            assert(plan(cur, rem as nat) == seq![Penalty { duration: m, ratio }] + rest);
                            assert(res@ + rest =~= before + plan(cur, rem as nat));
                            lemma_minus_minus(cur, m as nat, (rem - m) as nat);
                        }
                        cur = cur.sub(m);
                        rem = rem - m;
                    }
                },
            }
        }
        proof {
            assert(res@ =~= plan(*self, d as nat));
            lemma_minus_minus(cur, 0, 0);
        }
        (res, cur.sub(0))
    }

    /// The stretches of constant speed ratio until every penalty has run
    /// out, each at the product of the ratios of the penalties running then.
    pub fn to_vec(&self) -> (r: Vec<Penalty>)
        requires
            self.wf(),
        ensures
            r@ == plan(*self, self.longest()),
    {
        let longest = self.duration();
        let (r, _) = self.split(longest);
        r
    }

    /// The penalties that still run, in the order gybe, tack, sail change,
    /// each tagged with its kind.
    pub fn to_route_penalties(&self) -> (r: Vec<RoutePenalty>)
        ensures
            r@ == self.reported(),
    {
        let mut res = Vec::new();
        push_reported(&mut res, &self.gybe, 1);
        push_reported(&mut res, &self.tack, 2);
        push_reported(&mut res, &self.sail_change, 4);
        res
    }
}

} // verus!
