use vstd::prelude::*;
use vstd::multiset::Multiset;
use vstd::arithmetic::div_mod::lemma_multiply_divide_lt;
use crate::model::{node_ok, Node, DIST_BOUND, MAX_NODES};
use crate::matrix::DistanceMatrix;
use crate::route::{
    demand_sum, int_mset, interior, interiors_disjoint, lemma_demand_sum_concat,
    lemma_demand_sum_push, lemma_demand_sum_remove, lemma_distinct_bounded_len,
    lemma_route_dist_push, route_dist, route_wf, Route,
};
use crate::select::{lemma_mset_of_concat, select_rank};

verus! {

/// Relies on rand::random_range over `0..den`: returns a value drawn
/// uniformly below `den` from the thread's generator; panics only on an
/// empty range, which `den >= 1` rules out.  Nothing more is assumed of a
/// random draw.
#[verifier::external_body]
fn draw_ratio(den: u64) -> (r: u64)
    requires
        den >= 1,
    ensures
        r < den,
{
    rand::random_range(0..den)
}

/// The requirements shared by every merge entry point: a well-formed
/// instance context, two well-formed routes, and no customer served twice.
pub open spec fn merge_inputs_ok(
    r1: Route,
    r2: Route,
    nodes: Seq<Node>,
    m: Seq<Seq<u64>>,
) -> bool {
    &&& 1 <= nodes.len() <= MAX_NODES
    &&& forall|k: int| 0 <= k < nodes.len() ==> node_ok(#[trigger] nodes[k])
    &&& crate::matrix::matrix_wf(m, nodes)
    &&& route_wf(r1, nodes, m)
    &&& route_wf(r2, nodes, m)
    &&& interiors_disjoint(r1, r2)
}

/// What every merge guarantees: a feasible route over exactly the union of
/// the two input routes' customers, with demand the sum of the two inputs'
/// demands (capacity is the caller's concern) and exact caches.
pub open spec fn merge_result_ok(
    r: Route,
    r1: Route,
    r2: Route,
    nodes: Seq<Node>,
    m: Seq<Seq<u64>>,
) -> bool {
    &&& route_wf(r, nodes, m)
    &&& int_mset(r) == int_mset(r1).add(int_mset(r2))
    &&& r.stops@.len() == r1.stops@.len() + r2.stops@.len() - 2
    &&& r.demand == r1.demand + r2.demand
}

/// Appends the customer part of `r` to `pool`.
fn push_interior(pool: &mut Vec<usize>, r: &Route)
    requires
        r.stops@.len() >= 2,
    ensures
        final(pool)@ == old(pool)@ + interior(r.stops@),
{
    let n = r.stops.len();
    let mut k: usize = 1;
    while k < n - 1
        invariant
            1 <= k <= n - 1,
            n == r.stops@.len(),
            n >= 2,
            pool@ =~= old(pool)@ + r.stops@.subrange(1, k as int),
        decreases n - 1 - k,
    {
        pool.push(r.stops[k]);
        proof {
            assert(old(pool)@ + r.stops@.subrange(1, k as int + 1) =~= (old(pool)@
                + r.stops@.subrange(1, k as int)).push(r.stops@[k as int]));
        }
        k = k + 1;
    }
    proof {
        assert(pool@ =~= old(pool)@ + interior(r.stops@));
    }
}

/// One biased construction trial: repeatedly appends, among the not yet
/// placed customers of the two routes, the one whose distance from the last
/// placed stop has rank `floor(remaining * num / den)` — rank 0 (`num = 0`)
/// is the strictly nearest candidate, first such candidate on ties — then
/// closes the route at the depot.  `num / den` is the bias `alfa` in [0, 1).
pub fn merge_trial(
    r1: &Route,
    r2: &Route,
    nodes: &Vec<Node>,
    dm: &DistanceMatrix,
    num: u64,
    den: u64,
) -> (r: Route)
    requires
        merge_inputs_ok(*r1, *r2, nodes@, dm.m()),
        num < den,
    ensures
        merge_result_ok(r, *r1, *r2, nodes@, dm.m()),
{
    let ghost m = dm.m();
    let ghost u = interior(r1.stops@) + interior(r2.stops@);
    let n_nodes = nodes.len();
    let mut pool: Vec<usize> = Vec::new();
    push_interior(&mut pool, r1);
    push_interior(&mut pool, r2);
    proof {
        assert(pool@ =~= u);
        broadcast use vstd::seq_lib::group_to_multiset_ensures;

        // Elements of the union are in range, and pairwise distinct: within
        // one interior by the route invariant, across the two by
        // disjointness.
        let s1 = r1.stops@;
        let s2 = r2.stops@;
        let l1 = interior(s1).len();
        assert forall|k: int| 0 <= k < u.len() implies 1 <= #[trigger] u[k] < n_nodes by {
            if k < l1 {
                assert(u[k] == interior(s1)[k] && interior(s1)[k] == s1[k + 1]);
            } else {
                assert(u[k] == interior(s2)[k - l1] && interior(s2)[k - l1] == s2[k - l1 + 1]);
            }
        }
        assert forall|k: int, l: int| #![trigger u[k], u[l]]
            0 <= k < l < u.len() implies u[k] != u[l] by {
            if k < l1 && l < l1 {
                assert(u[k] == s1[k + 1] && u[l] == s1[l + 1]);
            } else if k >= l1 && l >= l1 {
                assert(u[k] == s2[k - l1 + 1] && u[l] == s2[l - l1 + 1]);
            } else {
                assert(u[k] == interior(s1)[k]);
                assert(interior(s1).contains(u[k]));
                if u[k] == u[l] {
                    assert(u[l] == interior(s2)[l - l1]);
                    assert(interior(s2).contains(u[k]));
                }
            }
        }
        lemma_distinct_bounded_len(u, n_nodes as int);
        lemma_demand_sum_concat(interior(s1), interior(s2), nodes@);
        lemma_mset_of_concat(interior(s1), interior(s2));
        u.lemma_multiset_has_no_duplicates();
        assert(forall|k: int|
            0 <= k < interior(s1).len() ==> 0 <= #[trigger] interior(s1)[k] < nodes@.len());
        assert(forall|k: int|
            0 <= k < interior(s2).len() ==> 0 <= #[trigger] interior(s2)[k] < nodes@.len());
        crate::route::lemma_demand_sum_bound(interior(s1), nodes@);
        crate::route::lemma_demand_sum_bound(interior(s2), nodes@);
        assert(interior(s1).len() * crate::model::DEMAND_LIMIT <= 100_000int * 1_000_000int)
            by (nonlinear_arith)
            requires
                interior(s1).len() <= 100_000,
                crate::model::DEMAND_LIMIT == 1_000_000u64,
        ;
        assert(interior(s2).len() * crate::model::DEMAND_LIMIT <= 100_000int * 1_000_000int)
            by (nonlinear_arith)
            requires
                interior(s2).len() <= 100_000,
                crate::model::DEMAND_LIMIT == 1_000_000u64,
        ;
    }
    let ghost total_demand: int = r1.demand + r2.demand;
    let mut stops: Vec<usize> = Vec::new();
    stops.push(0);
    let mut dist_acc: u64 = 0;
    let mut dem_acc: u64 = 0;
    proof {
        assert(stops@ =~= seq![0usize]);
        assert(stops@.subrange(1, 1) =~= Seq::<usize>::empty());
        assert(stops@.subrange(1, 1).to_multiset().add(pool@.to_multiset()) =~= u.to_multiset());
    }
    while pool.len() > 0
        invariant
            merge_inputs_ok(*r1, *r2, nodes@, dm.m()),
            num < den,
            m == dm.m(),
            n_nodes == nodes@.len(),
            u == interior(r1.stops@) + interior(r2.stops@),
            u.len() <= n_nodes - 1,
            forall|k: int| 0 <= k < u.len() ==> 1 <= #[trigger] u[k] < n_nodes,
            forall|x: usize| u.to_multiset().count(x) <= 1,
            demand_sum(u, nodes@) == total_demand,
            total_demand == r1.demand + r2.demand,
            total_demand <= 200_000_000_000,
            1 <= stops@.len(),
            stops@.len() + pool@.len() == u.len() + 1,
            stops@[0] == 0,
            forall|k: int| 1 <= k < stops@.len() ==> 1 <= #[trigger] stops@[k] < n_nodes,
            forall|k: int| 0 <= k < pool@.len() ==> 1 <= #[trigger] pool@[k] < n_nodes,
            stops@.subrange(1, stops@.len() as int).to_multiset().add(pool@.to_multiset())
                == u.to_multiset(),
            dist_acc == route_dist(stops@, m),
            dist_acc <= (stops@.len() - 1) * (DIST_BOUND - 1),
            dem_acc == demand_sum(stops@.subrange(1, stops@.len() as int), nodes@),
            dem_acc + demand_sum(pool@, nodes@) == total_demand,
        decreases pool@.len(),
    {
        let last: usize = stops[stops.len() - 1];
        let plen = pool.len();
        let mut cand: Vec<u64> = Vec::new();
        let mut t: usize = 0;
        while t < plen
            invariant
                0 <= t <= plen,
                plen == pool@.len(),
                m == dm.m(),
                crate::matrix::matrix_wf(m, nodes@),
                n_nodes == nodes@.len(),
                last < n_nodes,
                forall|k: int| 0 <= k < pool@.len() ==> 1 <= #[trigger] pool@[k] < n_nodes,
                cand@.len() == t,
                forall|k: int|
                    0 <= k < t ==> #[trigger] cand@[k] == m[last as int][pool@[k] as int],
            decreases plen - t,
        {
            cand.push(dm.dist(last, pool[t]));
            t = t + 1;
        }
        proof {
            assert((plen as int) * (num as int) < 0x100000000000000000000000000000000int)
                by (nonlinear_arith)
                requires
                    plen < 0x10000000000000000int,
                    num < 0x10000000000000000int,
            ;
        }
        let rank_wide: u128 = (plen as u128) * (num as u128) / (den as u128);
        proof {
            assert((plen as int) * (num as int) < (den as int) * (plen as int))
                by (nonlinear_arith)
                requires
                    num < den,
                    plen >= 1,
            ;
            lemma_multiply_divide_lt((plen as int) * (num as int), den as int, plen as int);
        }
        let rank: usize = rank_wide as usize;
        let idx = select_rank(&cand, rank);
        let chosen: usize = pool[idx];
        let step: u64 = cand[idx];
        proof {
            broadcast use vstd::seq_lib::group_to_multiset_ensures;

            let intr = stops@.subrange(1, stops@.len() as int);
            // The chosen customer is still unplaced: its count in the route
            // so far is zero.
            assert(pool@.to_multiset().count(chosen) > 0);
            assert(intr.to_multiset().count(chosen) + pool@.to_multiset().count(chosen)
                == u.to_multiset().count(chosen));
            assert(intr.to_multiset().count(chosen) == 0);
            assert(!intr.contains(chosen));
            // Cache updates.
            lemma_route_dist_push(stops@, m, chosen);
            lemma_demand_sum_push(intr, nodes@, chosen);
            lemma_demand_sum_remove(pool@, nodes@, idx as int);
            crate::route::lemma_demand_sum_bound(pool@.remove(idx as int), nodes@);
            // Push/remove commute with the multiset bookkeeping.
            assert(stops@.push(chosen).subrange(1, stops@.push(chosen).len() as int) =~= intr.push(
                chosen,
            ));
            // Bounds for the additions below.
            assert(step < DIST_BOUND);
            assert(dist_acc + step <= (stops@.len()) * (DIST_BOUND - 1)) by (nonlinear_arith)
                requires
                    dist_acc <= (stops@.len() - 1) * (DIST_BOUND - 1),
                    step < DIST_BOUND,
                    stops@.len() >= 1,
            ;
            assert(stops@.len() <= u.len() + 1);
            assert((stops@.len()) * (DIST_BOUND - 1) <= (n_nodes as int) * (DIST_BOUND - 1))
                by (nonlinear_arith)
                requires
                    stops@.len() <= n_nodes,
                    DIST_BOUND >= 1,
            ;
            assert((n_nodes as int) * (DIST_BOUND - 1) <= 100_000int * (DIST_BOUND - 1))
                by (nonlinear_arith)
                requires
                    n_nodes <= 100_000,
                    DIST_BOUND >= 1,
            ;
        }
        stops.push(chosen);
        dist_acc = dist_acc + step;
        dem_acc = dem_acc + nodes[chosen].demand;
        pool.remove(idx);
        proof {
            broadcast use vstd::seq_lib::group_to_multiset_ensures;

            assert(stops@.subrange(1, stops@.len() as int).to_multiset().add(
                pool@.to_multiset(),
            ) =~= u.to_multiset());
        }
    }
    let last: usize = stops[stops.len() - 1];
    let back: u64 = dm.dist(last, 0);
    let ghost pre_close = stops@;
    proof {
        assert(pool@ =~= Seq::<usize>::empty());
        lemma_route_dist_push(stops@, m, 0);
        assert(back < DIST_BOUND);
        assert(dist_acc + back <= (stops@.len()) * (DIST_BOUND - 1)) by (nonlinear_arith)
            requires
                dist_acc <= (stops@.len() - 1) * (DIST_BOUND - 1),
                back < DIST_BOUND,
                stops@.len() >= 1,
        ;
        assert((stops@.len()) * (DIST_BOUND - 1) <= 100_001int * (DIST_BOUND - 1))
            by (nonlinear_arith)
            requires
                stops@.len() <= 100_001,
                DIST_BOUND >= 1,
        ;
    }
    stops.push(0);
    let r = Route { stops, dist: dist_acc + back, demand: dem_acc };
    proof {
        broadcast use vstd::seq_lib::group_to_multiset_ensures;

        let s = r.stops@;
        let intr = interior(s);
        assert(s =~= pre_close.push(0));
        assert(s.drop_last() =~= pre_close);
        assert(intr =~= pre_close.subrange(1, pre_close.len() as int));
        assert(Seq::<usize>::empty().to_multiset() =~= Multiset::<usize>::empty());
        assert(pre_close.subrange(1, pre_close.len() as int).to_multiset().add(
            Multiset::<usize>::empty(),
        ) =~= pre_close.subrange(1, pre_close.len() as int).to_multiset());
        assert(pre_close.subrange(1, pre_close.len() as int).to_multiset() == u.to_multiset());
        assert(int_mset(r) == u.to_multiset());
        assert(int_mset(r) == int_mset(*r1).add(int_mset(*r2)));
        // Interior distinctness follows from the multiset of the interior
        // having no repeated element.
        assert forall|k: int, l: int| #![trigger s[k], s[l]]
            1 <= k < l < s.len() - 1 implies s[k] != s[l] by {
            if s[k] == s[l] {
                let i2 = intr.remove(k - 1);
                assert(intr[k - 1] == s[k] && intr[l - 1] == s[l]);
                assert(i2[l - 2] == intr[l - 1]);
                assert(i2.to_multiset().count(s[l]) > 0);
                assert(i2.to_multiset() == intr.to_multiset().remove(intr[k - 1]));
                assert(u.to_multiset().count(s[k]) >= 2);
            }
        }
        assert(demand_sum(intr, nodes@) == dem_acc);
        assert(route_wf(r, nodes@, m));
        assert(s.len() == r1.stops@.len() + r2.stops@.len() - 2);
    }
    r
}

/// Merges two routes by the best of `trials` biased constructions: in the
/// deterministic mode trial `t` uses the evenly spaced bias `t / trials`,
/// otherwise each trial draws its bias uniformly at random.  The best (by
/// total distance, first encountered on ties) trial is returned; trial 0 of
/// the deterministic mode is the pure nearest-neighbor construction.
pub fn merge_routes_randomized(
    r1: &Route,
    r2: &Route,
    nodes: &Vec<Node>,
    dm: &DistanceMatrix,
    trials: u64,
    deterministic: bool,
) -> (r: Route)
    requires
        merge_inputs_ok(*r1, *r2, nodes@, dm.m()),
        trials >= 1,
    ensures
        merge_result_ok(r, *r1, *r2, nodes@, dm.m()),
{
    let mut best: Route = merge_trial(r1, r2, nodes, dm, 0, trials);
    let mut t: u64 = 1;
    while t < trials
        invariant
            merge_inputs_ok(*r1, *r2, nodes@, dm.m()),
            trials >= 1,
            merge_result_ok(best, *r1, *r2, nodes@, dm.m()),
        decreases trials - t,
    {
        let num: u64 = if deterministic {
            t
        } else {
            draw_ratio(trials)
        };
        let cand = merge_trial(r1, r2, nodes, dm, num, trials);
        if cand.dist < best.dist {
            best = cand;
        }
        t = t + 1;
    }
    best
}

/// The plain greedy merge: a single trial with bias zero, i.e. always the
/// nearest unplaced customer next.
pub fn merge_routes(r1: &Route, r2: &Route, nodes: &Vec<Node>, dm: &DistanceMatrix) -> (r: Route)
    requires
        merge_inputs_ok(*r1, *r2, nodes@, dm.m()),
    ensures
        merge_result_ok(r, *r1, *r2, nodes@, dm.m()),
{
    merge_trial(r1, r2, nodes, dm, 0, 1)
}

} // verus!
