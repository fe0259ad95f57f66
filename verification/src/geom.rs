use vstd::prelude::*;
use crate::model::{Node, COORD_LIMIT, DIST_BOUND, SCALE_SQ};

verus! {

/// `r` is the integer square root (rounded down) of `x`.
pub open spec fn is_sqrt_floor(x: int, r: int) -> bool {
    &&& 0 <= r
    &&& r * r <= x
    &&& x < (r + 1) * (r + 1)
}

/// The integer square root of a number is unique.
pub proof fn lemma_sqrt_floor_unique(x: int, a: int, b: int)
    requires
        is_sqrt_floor(x, a),
        is_sqrt_floor(x, b),
    ensures
        a == b,
{
    assert(a == b) by (nonlinear_arith)
        requires
            0 <= a,
            a * a <= x,
            x < (a + 1) * (a + 1),
            0 <= b,
            b * b <= x,
            x < (b + 1) * (b + 1),
    ;
}

/// The squared Euclidean distance between two nodes.
pub open spec fn dist_sq(a: Node, b: Node) -> int {
    (a.x - b.x) * (a.x - b.x) + (a.y - b.y) * (a.y - b.y)
}

/// The fixed-point distance `v` between `a` and `b`: the integer square root
/// of the squared distance scaled by `SCALE_SQ`, i.e. the real Euclidean
/// distance times `FP_ONE`, truncated.
pub open spec fn is_scaled_dist(a: Node, b: Node, v: int) -> bool {
    is_sqrt_floor(dist_sq(a, b) * SCALE_SQ, v)
}

/// Integer square root by binary search.
pub fn isqrt(x: u128) -> (r: u64)
    requires
        x < 0x100000_00000000_00000000u128,  // 2^84
    ensures
        is_sqrt_floor(x as int, r as int),
        r < DIST_BOUND,
{
    let mut lo: u64 = 0;
    let mut hi: u64 = 4_398_046_511_103;  // 2^42 - 1
    proof {
        assert((hi as int + 1) * (hi as int + 1) == 0x100000_00000000_00000000) by (nonlinear_arith)
            requires
                hi == 4_398_046_511_103u64,
        ;
    }
    while lo < hi
        invariant
            lo <= hi,
            hi < DIST_BOUND,
            (lo as int) * (lo as int) <= x as int,
            (x as int) < (hi as int + 1) * (hi as int + 1),
        decreases hi - lo,
    {
        let mid: u64 = lo + (hi - lo + 1) / 2;
        proof {
            assert((mid as int) * (mid as int) < 0x100000_00000000_00000000) by (nonlinear_arith)
                requires
                    0 <= mid <= 4_398_046_511_103u64,
            ;
        }
        let m2: u128 = (mid as u128) * (mid as u128);
        if m2 <= x {
            lo = mid;
        } else {
            hi = mid - 1;
        }
    }
    lo
}

/// The fixed-point distance between two in-range nodes.
pub fn scaled_distance(a: &Node, b: &Node) -> (r: u64)
    requires
        -COORD_LIMIT <= a.x <= COORD_LIMIT,
        -COORD_LIMIT <= a.y <= COORD_LIMIT,
        -COORD_LIMIT <= b.x <= COORD_LIMIT,
        -COORD_LIMIT <= b.y <= COORD_LIMIT,
    ensures
        is_scaled_dist(*a, *b, r as int),
        r < DIST_BOUND,
{
    let dx: i64 = a.x - b.x;
    let dy: i64 = a.y - b.y;
    proof {
        assert(dx * dx >= 0 && dx * dx <= 4_000_000_000_000 && dy * dy >= 0 && dy * dy
            <= 4_000_000_000_000) by (nonlinear_arith)
            requires
                -2_000_000 <= dx <= 2_000_000,
                -2_000_000 <= dy <= 2_000_000,
        ;
    }
    let d2: u64 = ((dx * dx) as u64) + ((dy * dy) as u64);
    let arg: u128 = (d2 as u128) * SCALE_SQ;
    proof {
        assert(arg == dist_sq(*a, *b) * SCALE_SQ);
        assert(arg < 0x100000_00000000_00000000u128) by (nonlinear_arith)
            requires
                arg == (d2 as int) * (SCALE_SQ as int),
                d2 <= 8_000_000_000_000,
                SCALE_SQ == 1_099_511_627_776u128,
        ;
    }
    isqrt(arg)
}

/// A zero squared distance has a zero fixed-point distance.
pub proof fn lemma_scaled_dist_self(a: Node, v: int)
    requires
        is_scaled_dist(a, a, v),
    ensures
        v == 0,
{
    assert(dist_sq(a, a) == 0) by (nonlinear_arith);
    lemma_sqrt_floor_unique(0, v, 0);
}

/// The fixed-point distance is symmetric.
pub proof fn lemma_scaled_dist_symmetric(a: Node, b: Node, v1: int, v2: int)
    requires
        is_scaled_dist(a, b, v1),
        is_scaled_dist(b, a, v2),
    ensures
        v1 == v2,
{
    assert(dist_sq(a, b) == dist_sq(b, a)) by (nonlinear_arith);
    lemma_sqrt_floor_unique(dist_sq(a, b) * SCALE_SQ, v1, v2);
}

} // verus!
