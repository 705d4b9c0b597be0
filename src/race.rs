//! Progress along the buoys of a course.

use vstd::prelude::*;

verus! {

/// Whether `i` is the first buoy of the course that is not validated yet.
pub open spec fn is_next(validated: Seq<bool>, i: int) -> bool {
    0 <= i < validated.len() && !validated[i] && forall|j: int| 0 <= j < i ==> validated[j]
}

/// The next buoy to round: the first one not validated yet, given the
/// validation state of each buoy of the course in order.
pub fn next_waypoint(validated: &Vec<bool>) -> (r: Option<usize>)
    ensures
        r matches Some(i) ==> is_next(validated@, i as int),
        r is None ==> forall|j: int| 0 <= j < validated@.len() ==> validated@[j],
{
    let mut i: usize = 0;
    while i < validated.len()
        invariant
            i <= validated@.len(),
            forall|j: int| 0 <= j < i ==> validated@[j],
        decreases validated@.len() - i,
    {
        if !validated[i] {
            return Some(i);
        }
        i = i + 1;
    }
    None
}

/// Marks the next buoy to round as validated; nothing changes once every
/// buoy is.
pub fn validate_next_waypoint(validated: &mut Vec<bool>)
    ensures
        (forall|j: int| 0 <= j < old(validated)@.len() ==> old(validated)@[j])
            ==> final(validated)@ == old(validated)@,
        forall|i: int| #[trigger] is_next(old(validated)@, i)
            ==> final(validated)@ == old(validated)@.update(i, true),
{
    match next_waypoint(validated) {
        Some(i) => {
            proof {
                assert forall|k: int| #[trigger] is_next(old(validated)@, k) implies k == i by {
                    if k < i {
                        assert(old(validated)@[k]);
                    }
                    if k > i {
                        assert(old(validated)@[i as int]);
                    }
                }
            }
            validated.set(i, true);
        },
        None => {},
    }
}

} // verus!
