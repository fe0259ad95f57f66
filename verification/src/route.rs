use vstd::prelude::*;
use vstd::multiset::Multiset;
use crate::model::{Node, DEMAND_LIMIT, DIST_BOUND};
use crate::matrix::{lemma_matrix_symmetric, matrix_wf, DistanceMatrix};

verus! {

/// One route: an ordered sequence of node positions starting and ending at
/// the depot (position 0), with its cached total fixed-point distance and
/// its cached total demand.  Routes are values: a merge builds a new one.
#[derive(Clone, Debug)]
pub struct Route {
    pub stops: Vec<usize>,
    pub dist: u64,
    pub demand: u64,
}

/// The customer part of a stop sequence: everything strictly between the
/// two depot endpoints.
pub open spec fn interior(s: Seq<usize>) -> Seq<usize> {
    s.subrange(1, s.len() - 1)
}

/// The sum of the consecutive pairwise distances of `s`, read from the
/// matrix `m`.
pub open spec fn route_dist(s: Seq<usize>, m: Seq<Seq<u64>>) -> int
    decreases s.len(),
{
    if s.len() < 2 {
        0
    } else {
        route_dist(s.drop_last(), m) + m[s[s.len() - 2] as int][s[s.len() - 1] as int]
    }
}

/// The sum of the demands of the nodes listed in `s`.
pub open spec fn demand_sum(s: Seq<usize>, nodes: Seq<Node>) -> int
    decreases s.len(),
{
    if s.len() == 0 {
        0
    } else {
        demand_sum(s.drop_last(), nodes) + nodes[s[s.len() - 1] as int].demand
    }
}

/// The route invariant: depot at both ends and nowhere else, every customer
/// position in range and visited at most once, and both caches exact.
pub open spec fn route_wf(r: Route, nodes: Seq<Node>, m: Seq<Seq<u64>>) -> bool {
    let s = r.stops@;
    &&& 3 <= s.len()
    &&& s.len() <= nodes.len() + 1
    &&& s[0] == 0
    &&& s[s.len() - 1] == 0
    &&& forall|k: int| 1 <= k < s.len() - 1 ==> 0 < #[trigger] s[k] < nodes.len()
    &&& forall|k: int, l: int| #![trigger s[k], s[l]] 1 <= k < l < s.len() - 1 ==> s[k] != s[l]
    &&& r.dist == route_dist(s, m)
    &&& r.demand == demand_sum(interior(s), nodes)
}

/// The customers of a route, as a multiset of positions.
pub open spec fn int_mset(r: Route) -> Multiset<usize> {
    interior(r.stops@).to_multiset()
}

/// Appending a stop extends the cached distance by one matrix entry.
pub proof fn lemma_route_dist_push(s: Seq<usize>, m: Seq<Seq<u64>>, v: usize)
    requires
        s.len() >= 1,
    ensures
        route_dist(s.push(v), m) == route_dist(s, m) + m[s[s.len() - 1] as int][v as int],
{
    assert(s.push(v).drop_last() =~= s);
}

/// Appending a node extends the demand sum by its demand.
pub proof fn lemma_demand_sum_push(s: Seq<usize>, nodes: Seq<Node>, v: usize)
    ensures
        demand_sum(s.push(v), nodes) == demand_sum(s, nodes) + nodes[v as int].demand,
{
    assert(s.push(v).drop_last() =~= s);
}

/// The demand sum distributes over concatenation.
pub proof fn lemma_demand_sum_concat(a: Seq<usize>, b: Seq<usize>, nodes: Seq<Node>)
    ensures
        demand_sum(a + b, nodes) == demand_sum(a, nodes) + demand_sum(b, nodes),
    decreases b.len(),
{
    if b.len() == 0 {
        assert(a + b =~= a);
    } else {
        lemma_demand_sum_concat(a, b.drop_last(), nodes);
        assert((a + b).drop_last() =~= a + b.drop_last());
        assert((a + b)[(a + b).len() - 1] == b[b.len() - 1]);
    }
}

/// Removing one node lowers the demand sum by exactly its demand.
pub proof fn lemma_demand_sum_remove(s: Seq<usize>, nodes: Seq<Node>, i: int)
    requires
        0 <= i < s.len(),
    ensures
        demand_sum(s.remove(i), nodes) == demand_sum(s, nodes) - nodes[s[i] as int].demand,
{
    let left = s.subrange(0, i);
    let mid = s.subrange(i, i + 1);
    let right = s.subrange(i + 1, s.len() as int);
    assert(mid.len() == 1);
    assert(mid[0] == s[i]);
    assert(mid.drop_last() =~= Seq::<usize>::empty());
    assert(demand_sum(mid.drop_last(), nodes) == 0);
    assert(demand_sum(mid, nodes) == nodes[s[i] as int].demand);
    assert(s =~= (left + mid) + right);
    lemma_demand_sum_concat(left + mid, right, nodes);
    lemma_demand_sum_concat(left, mid, nodes);
    assert(s.remove(i) =~= left + right);
    lemma_demand_sum_concat(left, right, nodes);
}

/// A demand sum over in-range nodes is non-negative and bounded.
pub proof fn lemma_demand_sum_bound(s: Seq<usize>, nodes: Seq<Node>)
    requires
        forall|k: int| 0 <= k < s.len() ==> 0 <= #[trigger] s[k] < nodes.len(),
        forall|k: int| 0 <= k < nodes.len() ==> crate::model::node_ok(#[trigger] nodes[k]),
    ensures
        0 <= demand_sum(s, nodes) <= s.len() * DEMAND_LIMIT,
    decreases s.len(),
{
    if s.len() > 0 {
        lemma_demand_sum_bound(s.drop_last(), nodes);
    }
}

/// A route distance over bounded matrix entries is non-negative and bounded.
pub proof fn lemma_route_dist_bound(s: Seq<usize>, m: Seq<Seq<u64>>)
    requires
        forall|k: int| 0 <= k < s.len() ==> 0 <= #[trigger] s[k] < m.len(),
        forall|i: int| 0 <= i < m.len() ==> (#[trigger] m[i]).len() == m.len(),
        forall|i: int, j: int| 0 <= i < m.len() && 0 <= j < m.len() ==> #[trigger] m[i][j] < DIST_BOUND,
        s.len() >= 1,
    ensures
        0 <= route_dist(s, m) <= (s.len() - 1) * (DIST_BOUND - 1),
    decreases s.len(),
{
    if s.len() >= 2 {
        lemma_route_dist_bound(s.drop_last(), m);
    }
}

/// Whether position `v` occurs anywhere in the route's stop sequence.
pub fn route_contains(r: &Route, v: usize) -> (b: bool)
    ensures
        b == r.stops@.contains(v),
{
    let n = r.stops.len();
    let mut k: usize = 0;
    while k < n
        invariant
            0 <= k <= n,
            n == r.stops@.len(),
            forall|i: int| 0 <= i < k ==> r.stops@[i] != v,
        decreases n - k,
    {
        if r.stops[k] == v {
            assert(r.stops@[k as int] == v);
            return true;
        }
        k = k + 1;
    }
    assert(forall|i: int| 0 <= i < r.stops@.len() ==> r.stops@[i] != v);
    false
}

/// `r1` is dominated by `r2`: every node `r1` visits, `r2` visits too, so
/// `r1` is redundant once `r2` is accepted.  Comparison is by node identity
/// only.
pub open spec fn spec_dominated(r1: Route, r2: Route) -> bool {
    forall|k: int| 0 <= k < r1.stops@.len() ==> r2.stops@.contains(#[trigger] r1.stops@[k])
}

/// Decides dominance, exactly as `spec_dominated` states it.
pub fn is_dominated(r1: &Route, r2: &Route) -> (b: bool)
    ensures
        b == spec_dominated(*r1, *r2),
{
    let n = r1.stops.len();
    let mut k: usize = 0;
    while k < n
        invariant
            0 <= k <= n,
            n == r1.stops@.len(),
            forall|i: int| 0 <= i < k ==> r2.stops@.contains(#[trigger] r1.stops@[i]),
        decreases n - k,
    {
        if !route_contains(r2, r1.stops[k]) {
            return false;
        }
        k = k + 1;
    }
    true
}

/// Builds one depot-to-depot singleton route for every customer, in
/// customer order: route `k` serves customer position `k + 1`.
pub fn create_initial_routes(nodes: &Vec<Node>, dm: &DistanceMatrix) -> (rs: Vec<Route>)
    requires
        nodes@.len() >= 1,
        dm.wf(nodes@),
    ensures
        rs@.len() == nodes@.len() - 1,
        forall|k: int|
            0 <= k < rs@.len() ==> (#[trigger] rs@[k]).stops@ == seq![
                0usize,
                (k + 1) as usize,
                0usize,
            ],
        forall|k: int|
            0 <= k < rs@.len() ==> (#[trigger] rs@[k]).demand == nodes@[k + 1].demand,
        forall|k: int|
            0 <= k < rs@.len() ==> (#[trigger] rs@[k]).dist == 2 * dm.m()[0][k + 1],
        forall|k: int| 0 <= k < rs@.len() ==> route_wf(#[trigger] rs@[k], nodes@, dm.m()),
{
    let n = nodes.len();
    let mut rs: Vec<Route> = Vec::new();
    let mut c: usize = 1;
    while c < n
        invariant
            1 <= c <= n,
            n == nodes@.len(),
            dm.wf(nodes@),
            rs@.len() == c - 1,
            forall|k: int|
                0 <= k < rs@.len() ==> (#[trigger] rs@[k]).stops@ == seq![
                    0usize,
                    (k + 1) as usize,
                    0usize,
                ],
            forall|k: int|
                0 <= k < rs@.len() ==> (#[trigger] rs@[k]).demand == nodes@[k + 1].demand,
            forall|k: int|
                0 <= k < rs@.len() ==> (#[trigger] rs@[k]).dist == 2 * dm.m()[0][k + 1],
            forall|k: int| 0 <= k < rs@.len() ==> route_wf(#[trigger] rs@[k], nodes@, dm.m()),
        decreases n - c,
    {
        let d0: u64 = dm.dist(0, c);
        let mut stops: Vec<usize> = Vec::new();
        stops.push(0);
        stops.push(c);
        stops.push(0);
        let r = Route { stops, dist: d0 * 2, demand: nodes[c].demand };
        proof {
            assert(r.stops@ =~= seq![0usize, c, 0usize]);
            lemma_singleton_route_wf(nodes@, dm.m(), c, r);
        }
        rs.push(r);
        c = c + 1;
    }
    rs
}

/// A singleton route around one customer is well formed.
proof fn lemma_singleton_route_wf(nodes: Seq<Node>, m: Seq<Seq<u64>>, c: usize, r: Route)
    requires
        matrix_wf(m, nodes),
        1 <= c < nodes.len(),
        r.stops@ == seq![0usize, c, 0usize],
        r.dist == 2 * m[0][c as int],
        r.demand == nodes[c as int].demand,
    ensures
        route_wf(r, nodes, m),
{
    let s = r.stops@;
    let ci = c as int;
    lemma_matrix_symmetric(m, nodes, 0, ci);
    let dl = s.drop_last();
    assert(dl =~= seq![0usize, c]);
    assert(dl.drop_last() =~= seq![0usize]);
    assert(route_dist(seq![0usize], m) == 0);
    assert(route_dist(dl, m) == route_dist(dl.drop_last(), m) + m[dl[0] as int][dl[1] as int]);
    assert(route_dist(dl, m) == m[0][ci]);
    assert(route_dist(s, m) == route_dist(dl, m) + m[s[1] as int][s[2] as int]);
    assert(route_dist(s, m) == m[0][ci] + m[ci][0]);
    assert(interior(s) =~= seq![c]);
    assert(seq![c].drop_last() =~= Seq::<usize>::empty());
    assert(demand_sum(Seq::<usize>::empty(), nodes) == 0);
    assert(seq![c][0] == c);
    assert(demand_sum(seq![c], nodes) == demand_sum(seq![c].drop_last(), nodes) + nodes[ci].demand);
    assert(demand_sum(interior(s), nodes) == nodes[ci].demand);
}

/// Pigeonhole bound: distinct customer positions drawn from `1..n` cannot
/// number more than `n - 1`.
pub proof fn lemma_distinct_bounded_len(s: Seq<usize>, n: int)
    requires
        n >= 1,
        forall|k: int| 0 <= k < s.len() ==> 1 <= #[trigger] s[k] < n,
        forall|k: int, l: int| #![trigger s[k], s[l]] 0 <= k < l < s.len() ==> s[k] != s[l],
    ensures
        s.len() <= n - 1,
    decreases n,
{
    if s.len() == 0 {
    } else {
        assert(1 <= s[0] < n);
        assert(n >= 2);
        if exists|i: int| 0 <= i < s.len() && s[i] == n - 1 {
            let i = choose|i: int| 0 <= i < s.len() && s[i] == n - 1;
            let s2 = s.remove(i);
            s.remove_ensures(i);
            assert forall|k: int| 0 <= k < s2.len() implies 1 <= #[trigger] s2[k] < n - 1 by {
                if k < i {
                    assert(s2[k] == s[k]);
                    assert(s[k] != s[i]);
                } else {
                    assert(s2[k] == s[k + 1]);
                    assert(s[k + 1] != s[i]);
                }
            }
            assert forall|k: int, l: int| #![trigger s2[k], s2[l]]
                0 <= k < l < s2.len() implies s2[k] != s2[l] by {
                let k0 = if k < i { k } else { k + 1 };
                let l0 = if l < i { l } else { l + 1 };
                assert(s2[k] == s[k0] && s2[l] == s[l0]);
            }
            lemma_distinct_bounded_len(s2, n - 1);
        } else {
            assert forall|k: int| 0 <= k < s.len() implies 1 <= #[trigger] s[k] < n - 1 by {
                assert(s[k] != n - 1);
            }
            lemma_distinct_bounded_len(s, n - 1);
        }
    }
}

/// The interiors of two routes share no customer.
pub open spec fn interiors_disjoint(r1: Route, r2: Route) -> bool {
    forall|c: usize|
        #![trigger interior(r1.stops@).contains(c), interior(r2.stops@).contains(c)]
        !(interior(r1.stops@).contains(c) && interior(r2.stops@).contains(c))
}

} // verus!
