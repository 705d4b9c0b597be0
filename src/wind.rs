//! Wind forecasts: decoding of the grids, choice of the forecasts to blend
//! at a time, and the reference times of forecast runs.

use vstd::prelude::*;
use chrono::DurationRound;

verus! {

/// Rows of a wind grid: one per degree of latitude from -90 to 90.
pub const GRID_ROWS: usize = 181;
/// Columns of a wind grid: one per degree of longitude from -180 to 179.
pub const GRID_COLS: usize = 360;
/// Points of a wind grid.
pub const GRID_POINTS: usize = 65160;
/// Seconds in six hours: the spacing of forecast reference times.
pub const REF_TIME_SPAN: i64 = 21600;

/// The earliest and latest instants, in seconds since the epoch, that the
/// time arithmetic accepts (years 1717 to 2223).
pub const TIME_MIN: i64 = -8_000_000_000;
pub const TIME_MAX: i64 = 8_000_000_000;

#[derive(Clone, Copy, Debug, PartialEq, Eq)]
pub enum WindError {
    /// A wind blob is shorter than a whole grid.
    BadFormat,
}

/// A byte of a wind blob read as a signed integer.
pub open spec fn signed_byte(b: u8) -> int {
    if b < 128 {
        b as int
    } else {
        b as int - 256
    }
}

/// A wind vector component encoded by byte `b`, in 1/64 km/h: the signed
/// value `v` of the byte gives `sign(v) * (v / 8)^2` km/h.
pub open spec fn wind_component(b: u8) -> int {
    let v = signed_byte(b);
    if v < 0 {
        -(v * v)
    } else {
        v * v
    }
}

/// The position in a blob of the pair for grid point `i`: the blob runs
/// from latitude 90 down to -90, and west to east along each row, while the
/// grid runs from latitude -90 up.
pub open spec fn blob_pair(i: int) -> int {
    (180 - i / 360) * 360 + i % 360
}

/// The last multiple of `span` seconds since the epoch at or before `secs`.
pub open spec fn floor_to(secs: int, span: int) -> int {
    secs - secs % span
}

/// Relies on chrono's `DurationRound::duration_trunc` on a UTC time built by
/// `DateTime::from_timestamp`: the time is brought down to the last multiple
/// of the span since the epoch, which needs the time in nanoseconds to fit
/// an `i64`.
#[verifier::external_body]
fn truncate_time(secs: i64, span: i64) -> (r: Option<i64>)
    requires
        0 < span <= 1_000_000_000,
    ensures
        r matches Some(t) ==> t == floor_to(secs as int, span as int),
        -9_000_000_000 <= secs <= 9_000_000_000 ==> r is Some,
{
    let time = chrono::DateTime::from_timestamp(secs, 0)?;
    let truncated = time.duration_trunc(chrono::TimeDelta::seconds(span)).ok()?;
    Some(truncated.timestamp())
}

fn wind_component_exec(b: u8) -> (r: i32)
    ensures
        r as int == wind_component(b),
{
    let v: i32 = if b < 128 {
        b as i32
    } else {
        b as i32 - 256
    };
    assert(0 <= v * v <= 16384) by (nonlinear_arith)
        requires
            -128 <= v <= 127,
    ;
    if v < 0 {
        -(v * v)
    } else {
        v * v
    }
}

/// Decodes a wind blob into its grid of `(u, v)` components in 1/64 km/h,
/// point `lat_index * 360 + lon_index` for latitude `lat_index - 90` and
/// longitude `lon_index - 180`.
pub fn decode_wind_blob(bytes: &Vec<u8>) -> (r: Result<Vec<(i32, i32)>, WindError>)
    ensures
        r is Err <==> bytes@.len() < 2 * GRID_POINTS,
        r matches Ok(grid) ==> grid@.len() == GRID_POINTS && forall|i: int|
            0 <= i < GRID_POINTS ==> (#[trigger] grid@[i]).0 == wind_component(
                bytes@[2 * blob_pair(i)],
            ) && grid@[i].1 == wind_component(bytes@[2 * blob_pair(i) + 1]),
{
    if bytes.len() < 2 * GRID_POINTS {
        return Err(WindError::BadFormat);
    }
    let mut grid: Vec<(i32, i32)> = Vec::new();
    let mut i: usize = 0;
    while i < GRID_POINTS
        invariant
            bytes@.len() >= 2 * GRID_POINTS,
            i <= GRID_POINTS,
            grid@.len() == i,
            forall|j: int|
                0 <= j < i ==> (#[trigger] grid@[j]).0 == wind_component(bytes@[2 * blob_pair(j)])
                    && grid@[j].1 == wind_component(bytes@[2 * blob_pair(j) + 1]),
        decreases GRID_POINTS - i,
    {
        let k = (180 - i / 360) * 360 + i % 360;
        assert(k == blob_pair(i as int));
        let u = wind_component_exec(bytes[2 * k]);
        let v = wind_component_exec(bytes[2 * k + 1]);
        grid.push((u, v));
        i = i + 1;
    }
    Ok(grid)
}

/// The forecasts to blend at a given time: the group `w1`, and when the time
/// falls strictly between two groups, the next group `w2` with the weight
/// `elapsed_minutes / span_minutes` that it takes.
#[derive(Clone, Copy, Debug, PartialEq, Eq)]
pub struct ForecastPick {
    pub w1: usize,
    pub w2: Option<usize>,
    pub elapsed_minutes: i64,
    pub span_minutes: i64,
}

/// The index of the first forecast valid strictly after `t`, if any.
pub open spec fn first_after(valid: Seq<i64>, t: int) -> Option<nat> {
    if exists|g: int| 0 <= g < valid.len() && valid[g] > t {
        let g = choose|g: int|
            0 <= g < valid.len() && valid[g] > t && forall|h: int| 0 <= h < g ==> valid[h] <= t;
        Some(g as nat)
    } else {
        None
    }
}

/// Minutes between two times, as whole minutes rounded toward zero.
pub open spec fn minutes_between(from: int, to: int) -> int {
    let d = to - from;
    if d >= 0 {
        d / 60
    } else {
        -((-d) / 60)
    }
}

pub open spec fn time_ok(t: int) -> bool {
    TIME_MIN <= t <= TIME_MAX
}

/// Picks, for time `m`, the forecast groups to blend: `m` less a minute is
/// brought down to ten minutes, then the first group valid after that is
/// found; before the first group only it is used, after the last group only
/// the last.
pub fn find_forecast(valid: &Vec<i64>, m: i64) -> (r: ForecastPick)
    requires
        valid@.len() > 0,
        time_ok(m as int),
        forall|g: int| 0 <= g < valid@.len() ==> time_ok(#[trigger] valid@[g] as int),
    ensures
        ({
            let t = floor_to(m - 60, 600);
            match first_after(valid@, t) {
                None => r == ForecastPick {
                    w1: (valid@.len() - 1) as usize,
                    w2: None,
                    elapsed_minutes: 0,
                    span_minutes: 0,
                },
                Some(g) => if g == 0 {
                    r == ForecastPick { w1: 0, w2: None, elapsed_minutes: 0, span_minutes: 0 }
                } else {
                    let h = minutes_between(valid@[g - 1] as int, t);
                    let delta = minutes_between(valid@[g - 1] as int, valid@[g as int] as int);
                    if h == 0 {
                        r == ForecastPick {
                            w1: (g - 1) as usize,
                            w2: None,
                            elapsed_minutes: 0,
                            span_minutes: 0,
                        }
                    } else {
                        r == ForecastPick {
                            w1: (g - 1) as usize,
                            w2: Some(g as usize),
                            elapsed_minutes: h as i64,
                            span_minutes: delta as i64,
                        }
                    }
                },
            }
        }),
{
    // within the accepted range the truncation always succeeds
    let t = match truncate_time(m - 60, 600) {
        Some(t) => t,
        None => m - 60,
    };
    let ghost gt = floor_to(m - 60, 600);
    assert(t == gt);
    proof {
        vstd::arithmetic::div_mod::lemma_mod_bound(m - 60, 600);
    }
    match first_valid_after(valid, t) {
        None => ForecastPick { w1: valid.len() - 1, w2: None, elapsed_minutes: 0, span_minutes: 0 },
        Some(g) => {
            if g == 0 {
                return ForecastPick { w1: 0, w2: None, elapsed_minutes: 0, span_minutes: 0 };
            }
            let previous = valid[g - 1];
            let h = minutes(previous, t);
            if h == 0 {
                return ForecastPick { w1: g - 1, w2: None, elapsed_minutes: 0, span_minutes: 0 };
            }
            let delta = minutes(previous, valid[g]);
            ForecastPick { w1: g - 1, w2: Some(g), elapsed_minutes: h, span_minutes: delta }
        },
    }
}

fn first_valid_after(valid: &Vec<i64>, t: i64) -> (r: Option<usize>)
    ensures
        r matches Some(g) ==> g < valid@.len() && first_after(valid@, t as int) == Some(g as nat),
        r is None ==> first_after(valid@, t as int) is None,
{
    let mut g: usize = 0;
    while g < valid.len()
        invariant
            g <= valid@.len(),
            forall|h: int| 0 <= h < g ==> valid@[h] <= t,
        decreases valid@.len() - g,
    {
        if valid[g] > t {
            proof {
                assert(exists|x: int| 0 <= x < valid@.len() && valid@[x] > t);
                let c = choose|x: int|
                    0 <= x < valid@.len() && valid@[x] > t && forall|h: int|
                        0 <= h < x ==> valid@[h] <= t;
                assert(0 <= c < valid@.len() && valid@[c] > t && forall|h: int|
                        0 <= h < c ==> valid@[h] <= t) by {
                    assert(0 <= g < valid@.len() && valid@[g as int] > t && forall|h: int|
                        0 <= h < g ==> valid@[h] <= t);
                }
                assert(c == g) by {
                    if c < g {
                        assert(valid@[c] <= t);
                    }
                    if c > g {
                        assert(valid@[g as int] <= t);
                    }
                }
            }
            return Some(g);
        }
        g = g + 1;
    }
    None
}

fn minutes(from: i64, to: i64) -> (r: i64)
    requires
        -20_000_000_000 <= from <= 20_000_000_000,
        -20_000_000_000 <= to <= 20_000_000_000,
    ensures
        r == minutes_between(from as int, to as int),
{
    let d = to - from;
    if d >= 0 {
        d / 60
    } else {
        -((-d) / 60)
    }
}

/// The reference time of the forecast run that a time belongs to: the time
/// brought down to six hours.
pub fn ref_time_of(time: i64) -> (r: i64)
    requires
        time_ok(time as int),
    ensures
        r == floor_to(time as int, REF_TIME_SPAN as int),
{
    // within the accepted range the truncation always succeeds
    match truncate_time(time, REF_TIME_SPAN) {
        Some(t) => t,
        None => time,
    }
}

/// The time of forecast hour `h` of the run of reference time `ref_time`.
pub fn forecast_time(ref_time: i64, h: u16) -> (r: i64)
    requires
        time_ok(ref_time as int),
    ensures
        r == ref_time + 3600 * h,
{
    ref_time + 3600 * (h as i64)
}

/// The forecast hour of a forecast time within the run of a reference time.
pub fn forecast_hour(ref_time: i64, forecast: i64) -> (r: u16)
    requires
        ref_time <= forecast,
        forecast - ref_time < 3600 * 65536,
    ensures
        r == (forecast - ref_time) / 3600,
{
    ((forecast - ref_time) / 3600) as u16
}

/// The reference times of the runs that the forecasts of a group come from:
/// each forecast, valid at `valid`, was made `delta_ref` hours before.
pub fn forecast_runs(valid: i64, delta_refs: &Vec<u8>) -> (r: Vec<i64>)
    requires
        time_ok(valid as int),
    ensures
        r@.len() == delta_refs@.len(),
        forall|i: int| 0 <= i < r@.len() ==> #[trigger] r@[i] == valid - 3600 * delta_refs@[i],
{
    let mut r: Vec<i64> = Vec::new();
    let mut i: usize = 0;
    while i < delta_refs.len()
        invariant
            time_ok(valid as int),
            i <= delta_refs@.len(),
            r@.len() == i,
            forall|j: int| 0 <= j < i ==> #[trigger] r@[j] == valid - 3600 * delta_refs@[j],
        decreases delta_refs@.len() - i,
    {
        r.push(valid - 3600 * (delta_refs[i] as i64));
        i = i + 1;
    }
    r
}

/// Seconds after its reference time at which a forecast run is published.
pub const PUBLICATION_DELAY: i64 = 12600;

/// When the run of the current six hours is published: three and a half
/// hours after its reference time.
pub fn next_update_time(now: i64) -> (r: i64)
    requires
        time_ok(now as int),
    ensures
        r == floor_to(now as int, REF_TIME_SPAN as int) + PUBLICATION_DELAY,
{
    proof {
        vstd::arithmetic::div_mod::lemma_mod_bound(now as int, REF_TIME_SPAN as int);
    }
    ref_time_of(now) + PUBLICATION_DELAY
}

/// The reference time of the latest run published at `now`: that of the
/// current six hours once published, else the one before.
pub fn current_ref_time(now: i64) -> (r: i64)
    requires
        time_ok(now as int),
    ensures
        ({
            let current = floor_to(now as int, REF_TIME_SPAN as int);
            r == if now < current + PUBLICATION_DELAY {
                current - REF_TIME_SPAN
            } else {
                current
            }
        }),
{
    proof {
        vstd::arithmetic::div_mod::lemma_mod_bound(now as int, REF_TIME_SPAN as int);
    }
    let ref_time = ref_time_of(now);
    if now < next_update_time(now) {
        ref_time - REF_TIME_SPAN
    } else {
        ref_time
    }
}

} // verus!
