use vstd::prelude::*;
use crate::model::{node_ok, Node, DIST_BOUND, FP_ONE, MAX_NODES};
use crate::matrix::{matrix_wf, DistanceMatrix};
use crate::merge::{merge_inputs_ok, merge_result_ok, merge_routes_randomized};
use crate::route::{interiors_disjoint, lemma_route_dist_bound, route_wf, Route};
use rayon::iter::{IntoParallelRefIterator, ParallelIterator};

verus! {

/// One savings candidate: the would-be merged route of a pair of current
/// routes, and the whole-number distance saved by accepting it.
#[derive(Debug)]
pub struct Candidate {
    pub saving: i64,
    pub route: Route,
}

/// The saving of replacing routes of combined fixed-point distance `sum`
/// by one of distance `merged`: the difference in whole distance units,
/// truncated toward zero (4.9 becomes 4), never rounded.
pub open spec fn spec_saving(sum: int, merged: int) -> int {
    if sum >= merged {
        (sum - merged) / (FP_ONE as int)
    } else {
        -((merged - sum) / (FP_ONE as int))
    }
}

/// Computes the truncated saving exactly as `spec_saving` states it.
pub fn saving_value(sum: u64, merged: u64) -> (r: i64)
    requires
        sum <= 0x2000000000000000,
        merged <= 0x2000000000000000,
    ensures
        r == spec_saving(sum as int, merged as int),
{
    if sum >= merged {
        ((sum - merged) / FP_ONE) as i64
    } else {
        let d: u64 = (merged - sum) / FP_ONE;
        -(d as i64)
    }
}

/// Reports whether two route demands can be combined without exceeding the
/// capacity limit, with no risk of overflow in the addition.
pub fn demand_pair_fits(a: u64, b: u64, cap: u64) -> (r: bool)
    ensures
        r == (a + b <= cap),
{
    b <= cap && a <= cap - b
}

/// Every route of the set is well formed and no customer is served by two
/// routes.
pub open spec fn routes_wf_disjoint(routes: Seq<Route>, nodes: Seq<Node>, m: Seq<Seq<u64>>) -> bool {
    &&& forall|k: int| 0 <= k < routes.len() ==> route_wf(#[trigger] routes[k], nodes, m)
    &&& forall|k: int, l: int|
        0 <= k < l < routes.len() ==> interiors_disjoint(#[trigger] routes[k], #[trigger] routes[l])
}

/// The instance-wide context every savings computation works in.
pub open spec fn savings_ctx(routes: Seq<Route>, nodes: Seq<Node>, m: Seq<Seq<u64>>) -> bool {
    &&& 1 <= nodes.len() <= MAX_NODES
    &&& forall|k: int| 0 <= k < nodes.len() ==> node_ok(#[trigger] nodes[k])
    &&& matrix_wf(m, nodes)
    &&& routes_wf_disjoint(routes, nodes, m)
}

/// `c` is a correct candidate for merging routes `i` and `j`: a feasible
/// merge of exactly their customers, with the saving truncated from the
/// fixed-point distance difference.
pub open spec fn candidate_ok(
    c: Candidate,
    routes: Seq<Route>,
    nodes: Seq<Node>,
    m: Seq<Seq<u64>>,
    i: int,
    j: int,
) -> bool {
    &&& 0 <= i < j < routes.len()
    &&& merge_result_ok(c.route, routes[i], routes[j], nodes, m)
    &&& c.saving == spec_saving(routes[i].dist + routes[j].dist, c.route.dist as int)
}

/// `c` is a correct candidate for some capacity-feasible pair of the set.
pub open spec fn candidate_for_some_pair(
    c: Candidate,
    routes: Seq<Route>,
    nodes: Seq<Node>,
    m: Seq<Seq<u64>>,
    capacity: u64,
) -> bool {
    exists|i: int, j: int|
        #![trigger candidate_ok(c, routes, nodes, m, i, j)]
        candidate_ok(c, routes, nodes, m, i, j) && routes[i].demand + routes[j].demand <= capacity
}

/// A well-formed route's cached distance is far below overflow territory.
pub proof fn lemma_route_dist_fits(r: Route, nodes: Seq<Node>, m: Seq<Seq<u64>>)
    requires
        route_wf(r, nodes, m),
        matrix_wf(m, nodes),
        nodes.len() <= MAX_NODES,
    ensures
        r.dist <= 100_000int * (DIST_BOUND - 1),
{
    let s = r.stops@;
    assert forall|k: int| 0 <= k < s.len() implies 0 <= #[trigger] s[k] < m.len() by {
        if k == 0 || k == s.len() - 1 {
        } else {
            assert(0 < s[k] < nodes.len());
        }
    }
    lemma_route_dist_bound(s, m);
    assert((s.len() - 1) * (DIST_BOUND - 1) <= 100_000int * (DIST_BOUND - 1)) by (nonlinear_arith)
        requires
            s.len() <= 100_001,
            DIST_BOUND >= 1,
    ;
}

/// Evaluates one route pair: merges the two routes and packages the merged
/// route with its truncated saving.
pub fn eval_pair(
    routes: &Vec<Route>,
    nodes: &Vec<Node>,
    dm: &DistanceMatrix,
    i: usize,
    j: usize,
    trials: u64,
    deterministic: bool,
) -> (c: Candidate)
    requires
        savings_ctx(routes@, nodes@, dm.m()),
        i < j < routes@.len(),
        trials >= 1,
    ensures
        candidate_ok(c, routes@, nodes@, dm.m(), i as int, j as int),
{
    proof {
        assert(merge_inputs_ok(routes@[i as int], routes@[j as int], nodes@, dm.m()));
        lemma_route_dist_fits(routes@[i as int], nodes@, dm.m());
        lemma_route_dist_fits(routes@[j as int], nodes@, dm.m());
    }
    let merged = merge_routes_randomized(&routes[i], &routes[j], nodes, dm, trials, deterministic);
    proof {
        lemma_route_dist_fits(merged, nodes@, dm.m());
    }
    let sum: u64 = routes[i].dist + routes[j].dist;
    let saving: i64 = saving_value(sum, merged.dist);
    Candidate { saving, route: merged }
}

/// Lists every unordered pair of current routes whose combined demand fits
/// the capacity, in ascending lexicographic pair order; the fixed order
/// makes the loop's first-wins tie-break reproducible.
pub fn feasible_pairs(routes: &Vec<Route>, capacity: u64) -> (ps: Vec<(usize, usize)>)
    ensures
        forall|k: int|
            0 <= k < ps@.len() ==> (#[trigger] ps@[k]).0 < ps@[k].1 < routes@.len()
                && routes@[ps@[k].0 as int].demand + routes@[ps@[k].1 as int].demand <= capacity,
        forall|i: usize, j: usize|
            i < j < routes@.len() && routes@[i as int].demand + routes@[j as int].demand
                <= capacity ==> ps@.contains((i, j)),
        forall|k: int, l: int|
            0 <= k < l < ps@.len() ==> ((#[trigger] ps@[k]).0 < (#[trigger] ps@[l]).0 || (ps@[k].0
                == ps@[l].0 && ps@[k].1 < ps@[l].1)),
{
    let n = routes.len();
    let mut ps: Vec<(usize, usize)> = Vec::new();
    let mut i: usize = 0;
    while i < n
        invariant
            0 <= i <= n,
            n == routes@.len(),
            forall|k: int|
                0 <= k < ps@.len() ==> (#[trigger] ps@[k]).0 < ps@[k].1 < n
                    && routes@[ps@[k].0 as int].demand + routes@[ps@[k].1 as int].demand
                    <= capacity,
            forall|a: usize, b: usize|
                a < b < n && a < i && routes@[a as int].demand + routes@[b as int].demand
                    <= capacity ==> ps@.contains((a, b)),
            forall|k: int| 0 <= k < ps@.len() ==> (#[trigger] ps@[k]).0 < i,
            forall|k: int, l: int|
                0 <= k < l < ps@.len() ==> ((#[trigger] ps@[k]).0 < (#[trigger] ps@[l]).0 || (
                ps@[k].0 == ps@[l].0 && ps@[k].1 < ps@[l].1)),
        decreases n - i,
    {
        let mut j: usize = i + 1;
        while j < n
            invariant
                i < j <= n,
                n == routes@.len(),
                forall|k: int|
                    0 <= k < ps@.len() ==> (#[trigger] ps@[k]).0 < ps@[k].1 < n
                        && routes@[ps@[k].0 as int].demand + routes@[ps@[k].1 as int].demand
                        <= capacity,
                forall|a: usize, b: usize|
                    a < b < n && (a < i || (a == i && b < j)) && routes@[a as int].demand
                        + routes@[b as int].demand <= capacity ==> ps@.contains((a, b)),
                forall|k: int|
                    0 <= k < ps@.len() ==> ((#[trigger] ps@[k]).0 < i || (ps@[k].0 == i
                        && ps@[k].1 < j)),
                forall|k: int, l: int|
                    0 <= k < l < ps@.len() ==> ((#[trigger] ps@[k]).0 < (#[trigger] ps@[l]).0 || (
                    ps@[k].0 == ps@[l].0 && ps@[k].1 < ps@[l].1)),
            decreases n - j,
        {
            if demand_pair_fits(routes[i].demand, routes[j].demand, capacity) {
                let ghost ps0 = ps@;
                ps.push((i, j));
                proof {
                    assert(ps@[ps@.len() - 1] == (i, j));
                    assert forall|a: usize, b: usize|
                        a < b < n && (a < i || (a == i && b < j + 1)) && routes@[a as int].demand
                            + routes@[b as int].demand <= capacity implies ps@.contains(
                        (a, b),
                    ) by {
                        if a == i && b == j {
                            assert(ps@[ps@.len() - 1] == (a, b));
                        } else {
                            assert(ps0.contains((a, b)));
                            let w = choose|w: int| 0 <= w < ps0.len() && ps0[w] == (a, b);
                            assert(ps@[w] == (a, b));
                        }
                    }
                }
            }
            j = j + 1;
        }
        i = i + 1;
    }
    ps
}

/// Relies on rayon's parallel iterator over the pair list: `par_iter`
/// followed by `map` and `collect` into a `Vec` yields exactly one result
/// per pair, in pair order, each produced by the independent call of
/// `eval_pair` on that pair (rayon only schedules the calls; it does not
/// change what each one computes).
#[verifier::external_body]
fn par_eval_pairs(
    routes: &Vec<Route>,
    nodes: &Vec<Node>,
    dm: &DistanceMatrix,
    ps: &Vec<(usize, usize)>,
    trials: u64,
    deterministic: bool,
) -> (sv: Vec<Candidate>)
    requires
        savings_ctx(routes@, nodes@, dm.m()),
        forall|k: int| 0 <= k < ps@.len() ==> (#[trigger] ps@[k]).0 < ps@[k].1 < routes@.len(),
        trials >= 1,
    ensures
        sv@.len() == ps@.len(),
        forall|k: int|
            0 <= k < sv@.len() ==> candidate_ok(
                #[trigger] sv@[k],
                routes@,
                nodes@,
                dm.m(),
                ps@[k].0 as int,
                ps@[k].1 as int,
            ),
{
    ps.par_iter().map(
        |p: &(usize, usize)| eval_pair(routes, nodes, dm, p.0, p.1, trials, deterministic),
    ).collect()
}

/// Evaluates every listed pair, serially or in parallel; both paths meet
/// the same contract, pair by pair.
pub fn calculate_savings_for_pairs(
    routes: &Vec<Route>,
    nodes: &Vec<Node>,
    dm: &DistanceMatrix,
    ps: &Vec<(usize, usize)>,
    trials: u64,
    deterministic: bool,
    parallel: bool,
) -> (sv: Vec<Candidate>)
    requires
        savings_ctx(routes@, nodes@, dm.m()),
        forall|k: int| 0 <= k < ps@.len() ==> (#[trigger] ps@[k]).0 < ps@[k].1 < routes@.len(),
        trials >= 1,
    ensures
        sv@.len() == ps@.len(),
        forall|k: int|
            0 <= k < sv@.len() ==> candidate_ok(
                #[trigger] sv@[k],
                routes@,
                nodes@,
                dm.m(),
                ps@[k].0 as int,
                ps@[k].1 as int,
            ),
{
    if parallel {
        par_eval_pairs(routes, nodes, dm, ps, trials, deterministic)
    } else {
        let m = ps.len();
        let mut sv: Vec<Candidate> = Vec::new();
        let mut k: usize = 0;
        while k < m
            invariant
                0 <= k <= m,
                m == ps@.len(),
                savings_ctx(routes@, nodes@, dm.m()),
                forall|t: int|
                    0 <= t < ps@.len() ==> (#[trigger] ps@[t]).0 < ps@[t].1 < routes@.len(),
                trials >= 1,
                sv@.len() == k,
                forall|t: int|
                    0 <= t < k ==> candidate_ok(
                        #[trigger] sv@[t],
                        routes@,
                        nodes@,
                        dm.m(),
                        ps@[t].0 as int,
                        ps@[t].1 as int,
                    ),
            decreases m - k,
        {
            let pair = ps[k];
            let c = eval_pair(routes, nodes, dm, pair.0, pair.1, trials, deterministic);
            sv.push(c);
            k = k + 1;
        }
        sv
    }
}

/// Computes the savings candidate list of the current route set: one
/// candidate per capacity-feasible pair, in ascending pair order.
/// Candidates with non-positive savings are emitted too; rejecting them is
/// the optimization loop's responsibility.
pub fn calculate_savings(
    routes: &Vec<Route>,
    nodes: &Vec<Node>,
    dm: &DistanceMatrix,
    capacity: u64,
    trials: u64,
    deterministic: bool,
    parallel: bool,
) -> (sv: Vec<Candidate>)
    requires
        savings_ctx(routes@, nodes@, dm.m()),
        trials >= 1,
    ensures
        forall|k: int|
            0 <= k < sv@.len() ==> candidate_for_some_pair(
                #[trigger] sv@[k],
                routes@,
                nodes@,
                dm.m(),
                capacity,
            ),
        forall|i: usize, j: usize|
            i < j < routes@.len() && routes@[i as int].demand + routes@[j as int].demand
                <= capacity ==> sv@.len() >= 1,
{
    let ps = feasible_pairs(routes, capacity);
    let sv = calculate_savings_for_pairs(routes, nodes, dm, &ps, trials, deterministic, parallel);
    proof {
        assert forall|k: int| 0 <= k < sv@.len() implies candidate_for_some_pair(
            #[trigger] sv@[k],
            routes@,
            nodes@,
            dm.m(),
            capacity,
        ) by {
            let i = ps@[k].0 as int;
            let j = ps@[k].1 as int;
            assert(candidate_ok(sv@[k], routes@, nodes@, dm.m(), i, j) && routes@[i].demand
                + routes@[j].demand <= capacity);
        }
        assert forall|i: usize, j: usize|
            i < j < routes@.len() && routes@[i as int].demand + routes@[j as int].demand
                <= capacity implies sv@.len() >= 1 by {
            assert(ps@.contains((i, j)));
        }
    }
    sv
}

} // verus!
