//! The ancestry of the positions of a search: each position names the one it
//! was reached from, always an earlier one, as indices into one store.

use vstd::prelude::*;

verus! {

/// How many ancestors of a position are looked at for a landing.
pub const LANDING_DEPTH: usize = 10;

/// Whether the parent indices point back only: each parent comes before its
/// child.
pub open spec fn parents_ok(parents: Seq<Option<usize>>) -> bool {
    forall|i: int| 0 <= i < parents.len() && #[trigger] parents[i] is Some ==> parents[i]->0 < i
}

/// Whether `node`, or one of its `depth` nearest ancestors, reached the buoy.
pub open spec fn landed_within(parents: Seq<Option<usize>>, reached: Seq<bool>, node: int, depth: nat) -> bool
    decreases depth,
{
    reached[node] || (depth > 0 && match parents[node] {
        Some(p) => landed_within(parents, reached, p as int, (depth - 1) as nat),
        None => false,
    })
}

/// Whether a position reached the buoy, itself or through one of its ten
/// nearest ancestors: such a position registers a landing.
pub fn landed(parents: &Vec<Option<usize>>, reached: &Vec<bool>, node: usize) -> (r: bool)
    requires
        parents@.len() == reached@.len(),
        node < parents@.len(),
        parents_ok(parents@),
    ensures
        r == landed_within(parents@, reached@, node as int, LANDING_DEPTH as nat),
{
    let mut cur = node;
    let mut i: usize = 0;
    while i < LANDING_DEPTH
        invariant
            parents@.len() == reached@.len(),
            cur < parents@.len(),
            parents_ok(parents@),
            i <= LANDING_DEPTH,
            landed_within(parents@, reached@, node as int, LANDING_DEPTH as nat) == landed_within(
                parents@,
                reached@,
                cur as int,
                (LANDING_DEPTH - i) as nat,
            ),
        decreases LANDING_DEPTH - i,
    {
        if reached[cur] {
            return true;
        }
        match parents[cur] {
            None => {
                return false;
            },
            Some(p) => {
                proof {
                    assert(parents@[cur as int] is Some);
                }
                cur = p;
                i = i + 1;
            },
        }
    }
    reached[cur]
}

/// Whether `path` leads from a position with no parent down to `node`, each
/// step from a parent to its child.
pub open spec fn is_lineage(parents: Seq<Option<usize>>, path: Seq<usize>, node: int) -> bool {
    &&& path.len() > 0
    &&& path.last() == node
    &&& parents[path[0] as int] is None
    &&& forall|k: int| 0 <= k < path.len() ==> #[trigger] path[k] < parents.len()
    &&& forall|k: int| 0 <= k < path.len() - 1 ==> parents[#[trigger] path[k + 1] as int] == Some(path[k])
}

/// The way to a position: the positions from the start down to it.
pub fn lineage(parents: &Vec<Option<usize>>, node: usize) -> (r: Vec<usize>)
    requires
        node < parents@.len(),
        parents_ok(parents@),
    ensures
        is_lineage(parents@, r@, node as int),
{
    let mut back: Vec<usize> = Vec::new();
    back.push(node);
    let mut cur = node;
    while parents[cur].is_some()
        invariant
            cur < parents@.len(),
            parents_ok(parents@),
            back@.len() > 0,
            back@[0] == node,
            back@.last() == cur,
            forall|k: int| 0 <= k < back@.len() ==> #[trigger] back@[k] < parents@.len(),
            forall|k: int| 0 <= k < back@.len() - 1 ==> parents@[#[trigger] back@[k] as int] == Some(back@[k + 1]),
        decreases cur,
    {
        let p = parents[cur].unwrap();
        proof {
            assert(parents@[cur as int] is Some);
        }
        back.push(p);
        cur = p;
    }
    let mut path: Vec<usize> = Vec::new();
    let mut k: usize = back.len();
    while k > 0
        invariant
            k <= back@.len(),
            back@.len() > 0,
            path@.len() == back@.len() - k,
            forall|q: int| 0 <= q < path@.len() ==> #[trigger] path@[q] == back@[back@.len() - 1 - q],
        decreases k,
    {
        k = k - 1;
        path.push(back[k]);
    }
    proof {
        let n = back@.len() as int;
        assert forall|q: int| 0 <= q < path@.len() - 1 implies parents@[#[trigger] path@[q + 1] as int] == Some(path@[q]) by {
            assert(path@[q + 1] == back@[n - 2 - q]);
            assert(path@[q] == back@[n - 1 - q]);
        }
        assert(path@[0] == back@[n - 1]);
        assert(path@.last() == back@[0]);
    }
    path
}

} // verus!
