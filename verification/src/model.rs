use vstd::prelude::*;

verus! {

/// Coordinates are bounded so that every squared distance and every route
/// length fits comfortably in the machine integers used below.
pub const COORD_LIMIT: i64 = 1_000_000;

/// Demands are bounded so that summing one demand per customer cannot
/// overflow a `u64`.
pub const DEMAND_LIMIT: u64 = 1_000_000;

/// Bound on the number of nodes of an instance (depot included).
pub const MAX_NODES: usize = 100_000;

/// Distances are kept in fixed point: the real Euclidean distance times
/// `FP_ONE` (2^20), truncated.  `FP_ONE` is the unit used when a saving is
/// truncated to a whole number.
pub const FP_ONE: u64 = 1_048_576;

/// `FP_ONE * FP_ONE` (2^40): multiplying a squared distance by this before
/// taking the integer square root yields the fixed-point distance.
pub const SCALE_SQ: u128 = 1_099_511_627_776;

/// Strict upper bound (2^42) on every fixed-point distance the matrix can
/// hold, given the coordinate limit.
pub const DIST_BOUND: u64 = 4_398_046_511_104;

/// One node of the instance: a 1-based identity, planar integer coordinates,
/// and a non-negative demand (conventionally 0 for the depot).
#[derive(Clone, Copy, PartialEq, Eq, Structural, Debug)]
pub struct Node {
    pub id: u64,
    pub x: i64,
    pub y: i64,
    pub demand: u64,
}

/// A single node is in range for the arithmetic of this crate.
pub open spec fn node_ok(n: Node) -> bool {
    &&& -COORD_LIMIT <= n.x <= COORD_LIMIT
    &&& -COORD_LIMIT <= n.y <= COORD_LIMIT
    &&& n.demand <= DEMAND_LIMIT
}

/// A well-formed instance: a non-empty, bounded node list whose first entry
/// is the depot, with contiguous 1-based ids, in-range nodes, and every
/// customer demand within the capacity limit (a customer that alone exceeds
/// the capacity could never be served by any route).
pub open spec fn instance_wf(nodes: Seq<Node>, capacity: u64) -> bool {
    &&& 1 <= nodes.len() <= MAX_NODES
    &&& forall|k: int| 0 <= k < nodes.len() ==> node_ok(#[trigger] nodes[k])
    &&& forall|k: int| 0 <= k < nodes.len() ==> (#[trigger] nodes[k]).id == k + 1
    &&& forall|k: int| 1 <= k < nodes.len() ==> (#[trigger] nodes[k]).demand <= capacity
}

/// Fail-fast validation of an instance, exactly as `instance_wf` states it;
/// the loader is expected to reject anything this refuses.
pub fn check_instance(nodes: &Vec<Node>, capacity: u64) -> (r: bool)
    ensures
        r == instance_wf(nodes@, capacity),
{
    if nodes.len() < 1 || nodes.len() > MAX_NODES {
        return false;
    }
    let n = nodes.len();
    let mut k: usize = 0;
    while k < n
        invariant
            0 <= k <= n,
            n == nodes@.len(),
            1 <= n <= MAX_NODES,
            forall|i: int| 0 <= i < k ==> node_ok(#[trigger] nodes@[i]),
            forall|i: int| 0 <= i < k ==> (#[trigger] nodes@[i]).id == i + 1,
            forall|i: int| 1 <= i < k ==> (#[trigger] nodes@[i]).demand <= capacity,
        decreases n - k,
    {
        let nd = nodes[k];
        if nd.x < -COORD_LIMIT || nd.x > COORD_LIMIT || nd.y < -COORD_LIMIT || nd.y > COORD_LIMIT {
            return false;
        }
        if nd.demand > DEMAND_LIMIT {
            return false;
        }
        if nd.id != (k as u64) + 1 {
            return false;
        }
        if k >= 1 && nd.demand > capacity {
            return false;
        }
        k = k + 1;
    }
    true
}

} // verus!
