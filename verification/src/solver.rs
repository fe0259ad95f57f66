use vstd::prelude::*;
use vstd::multiset::Multiset;
use crate::model::{instance_wf, node_ok, Node, FP_ONE, MAX_NODES};
use crate::matrix::{generate_distance_matrix, DistanceMatrix};
use crate::route::{
    create_initial_routes, int_mset, interior, interiors_disjoint, route_wf, spec_dominated, Route,
};
use crate::savings::{
    calculate_savings_for_pairs, candidate_ok, feasible_pairs, routes_wf_disjoint, spec_saving,
    Candidate,
};
use crate::prune::remove_routes_dominated;

verus! {

/// The sum of the cached distances of all routes of the set.
pub open spec fn total_dist(rs: Seq<Route>) -> int
    decreases rs.len(),
{
    if rs.len() == 0 {
        0
    } else {
        total_dist(rs.drop_last()) + rs[rs.len() - 1].dist
    }
}

/// All customers served by the route set, as one multiset of positions.
pub open spec fn cust_mset(rs: Seq<Route>) -> Multiset<usize>
    decreases rs.len(),
{
    if rs.len() == 0 {
        Multiset::empty()
    } else {
        cust_mset(rs.drop_last()).add(int_mset(rs[rs.len() - 1]))
    }
}

/// The solution invariant: every route is well formed and within capacity,
/// and every customer is served by exactly one route, exactly once.
pub open spec fn solution_wf(rs: Seq<Route>, nodes: Seq<Node>, m: Seq<Seq<u64>>, cap: u64) -> bool {
    &&& forall|k: int| 0 <= k < rs.len() ==> route_wf(#[trigger] rs[k], nodes, m)
    &&& forall|k: int| 0 <= k < rs.len() ==> (#[trigger] rs[k]).demand <= cap
    &&& forall|c: usize| 1 <= c < nodes.len() ==> #[trigger] cust_mset(rs).count(c) == 1
}

/// The total distance of the initial singleton solution: twice the
/// depot distance of each of the first `t` customers.
pub open spec fn singleton_total(m: Seq<Seq<u64>>, t: int) -> int
    decreases t,
{
    if t <= 0 {
        0
    } else {
        singleton_total(m, t - 1) + 2 * m[0][t]
    }
}

/// A route set contains at least the customers of its route `k`.
proof fn lemma_cust_mset_one(rs: Seq<Route>, k: int, c: usize)
    requires
        0 <= k < rs.len(),
    ensures
        cust_mset(rs).count(c) >= int_mset(rs[k]).count(c),
    decreases rs.len(),
{
    if k < rs.len() - 1 {
        lemma_cust_mset_one(rs.drop_last(), k, c);
    }
}

/// A route set contains at least the customers of two of its routes.
proof fn lemma_cust_mset_two(rs: Seq<Route>, k: int, l: int, c: usize)
    requires
        0 <= k < l < rs.len(),
    ensures
        cust_mset(rs).count(c) >= int_mset(rs[k]).count(c) + int_mset(rs[l]).count(c),
    decreases rs.len(),
{
    if l == rs.len() - 1 {
        lemma_cust_mset_one(rs.drop_last(), k, c);
    } else {
        lemma_cust_mset_two(rs.drop_last(), k, l, c);
    }
}

/// Exactly-once coverage forces the interiors of distinct routes apart, so
/// a well-formed solution is a well-formed disjoint route set.
pub proof fn lemma_solution_disjoint(rs: Seq<Route>, nodes: Seq<Node>, m: Seq<Seq<u64>>, cap: u64)
    requires
        solution_wf(rs, nodes, m, cap),
    ensures
        routes_wf_disjoint(rs, nodes, m),
{
    broadcast use vstd::seq_lib::group_to_multiset_ensures;

    assert forall|k: int, l: int| 0 <= k < l < rs.len() implies interiors_disjoint(
        #[trigger] rs[k],
        #[trigger] rs[l],
    ) by {
        assert forall|c: usize|
            !(interior(rs[k].stops@).contains(c) && interior(rs[l].stops@).contains(c)) by {
            if interior(rs[k].stops@).contains(c) && interior(rs[l].stops@).contains(c) {
                let w = choose|w: int|
                    0 <= w < interior(rs[k].stops@).len() && interior(rs[k].stops@)[w] == c;
                assert(rs[k].stops@[w + 1] == c);
                assert(1 <= c < nodes.len());
                lemma_cust_mset_two(rs, k, l, c);
                assert(cust_mset(rs).count(c) == 1);
            }
        }
    }
}

/// Filtering with an everywhere-true test keeps the sequence unchanged.
proof fn lemma_filter_keeps_all(s: Seq<Route>, p: spec_fn(Route) -> bool)
    requires
        forall|k: int| 0 <= k < s.len() ==> p(#[trigger] s[k]),
    ensures
        s.filter(p) == s,
    decreases s.len(),
{
    reveal(Seq::filter);
    if s.len() > 0 {
        lemma_filter_keeps_all(s.drop_last(), p);
        assert(s.filter(p) =~= s);
    }
}

/// Filtering out exactly one position drops exactly its route from the
/// length, the total distance, and the customer multiset.
proof fn lemma_filter_one(s: Seq<Route>, p: spec_fn(Route) -> bool, i0: int)
    requires
        0 <= i0 < s.len(),
        forall|k: int| 0 <= k < s.len() ==> (p(#[trigger] s[k]) <==> k != i0),
    ensures
        s.filter(p).len() == s.len() - 1,
        total_dist(s.filter(p)) == total_dist(s) - s[i0].dist,
        cust_mset(s.filter(p)).add(int_mset(s[i0])) == cust_mset(s),
        forall|x: Route| #[trigger] s.filter(p).contains(x) ==> s.contains(x),
    decreases s.len(),
{
    broadcast use vstd::seq_lib::group_filter_ensures;

    reveal(Seq::filter);
    let t = s.drop_last();
    let f = s.filter(p);
    if i0 == s.len() - 1 {
        assert(!p(s.last()));
        assert(f == t.filter(p));
        assert(forall|k: int| 0 <= k < t.len() ==> p(#[trigger] t[k]));
        lemma_filter_keeps_all(t, p);
        assert(cust_mset(f).add(int_mset(s[i0])) =~= cust_mset(s));
        assert forall|x: Route| #[trigger] f.contains(x) implies s.contains(x) by {
            let w = choose|w: int| 0 <= w < f.len() && f[w] == x;
            assert(s[w] == x);
        }
    } else {
        assert(p(s.last()));
        assert(f == t.filter(p).push(s.last()));
        lemma_filter_one(t, p, i0);
        assert(f.drop_last() =~= t.filter(p));
        assert(f[f.len() - 1] == s.last());
        assert(total_dist(f) == total_dist(t.filter(p)) + s.last().dist);
        assert(cust_mset(f) == cust_mset(t.filter(p)).add(int_mset(s.last())));
        assert(cust_mset(f).add(int_mset(s[i0])) =~= cust_mset(s));
        assert forall|x: Route| #[trigger] f.contains(x) implies s.contains(x) by {
            if x == s.last() {
                assert(s[s.len() - 1] == x);
            } else {
                let w = choose|w: int| 0 <= w < f.len() && f[w] == x;
                assert(f.drop_last()[w] == x);
                assert(t.filter(p).contains(x));
                let w2 = choose|w2: int| 0 <= w2 < t.len() && t[w2] == x;
                assert(s[w2] == x);
            }
        }
    }
}

/// Filtering out exactly two positions drops exactly their routes from the
/// length, the total distance, and the customer multiset.
proof fn lemma_filter_two(s: Seq<Route>, p: spec_fn(Route) -> bool, i0: int, j0: int)
    requires
        0 <= i0 < j0 < s.len(),
        forall|k: int| 0 <= k < s.len() ==> (p(#[trigger] s[k]) <==> (k != i0 && k != j0)),
    ensures
        s.filter(p).len() == s.len() - 2,
        total_dist(s.filter(p)) == total_dist(s) - s[i0].dist - s[j0].dist,
        cust_mset(s.filter(p)).add(int_mset(s[i0])).add(int_mset(s[j0])) == cust_mset(s),
        forall|x: Route| #[trigger] s.filter(p).contains(x) ==> s.contains(x),
    decreases s.len(),
{
    broadcast use vstd::seq_lib::group_filter_ensures;

    reveal(Seq::filter);
    let t = s.drop_last();
    let f = s.filter(p);
    if j0 == s.len() - 1 {
        assert(!p(s.last()));
        assert(f == t.filter(p));
        assert(forall|k: int| 0 <= k < t.len() ==> (p(#[trigger] t[k]) <==> k != i0));
        lemma_filter_one(t, p, i0);
        assert(cust_mset(f).add(int_mset(s[i0])).add(int_mset(s[j0])) =~= cust_mset(s));
    } else {
        assert(p(s.last()));
        assert(f == t.filter(p).push(s.last()));
        lemma_filter_two(t, p, i0, j0);
        assert(f.drop_last() =~= t.filter(p));
        assert(f[f.len() - 1] == s.last());
        assert(total_dist(f) == total_dist(t.filter(p)) + s.last().dist);
        assert(cust_mset(f) == cust_mset(t.filter(p)).add(int_mset(s.last())));
        assert(cust_mset(f).add(int_mset(s[i0])).add(int_mset(s[j0])) =~= cust_mset(s));
        assert forall|x: Route| #[trigger] f.contains(x) implies s.contains(x) by {
            if x == s.last() {
                assert(s[s.len() - 1] == x);
            } else {
                let w = choose|w: int| 0 <= w < f.len() && f[w] == x;
                assert(f.drop_last()[w] == x);
                assert(t.filter(p).contains(x));
                let w2 = choose|w2: int| 0 <= w2 < t.len() && t[w2] == x;
                assert(s[w2] == x);
            }
        }
    }
}

/// Scans the candidate list for the strictly greatest positive saving; on
/// ties the first candidate encountered wins, and the candidates stand in
/// ascending pair order, so the tie-break is reproducible.
pub fn best_positive(sv: &Vec<Candidate>) -> (best: Option<usize>)
    ensures
        match best {
            None => forall|k: int| 0 <= k < sv@.len() ==> (#[trigger] sv@[k]).saving <= 0,
            Some(b) => {
                &&& b < sv@.len()
                &&& sv@[b as int].saving > 0
                &&& forall|k: int|
                    0 <= k < sv@.len() ==> (#[trigger] sv@[k]).saving <= sv@[b as int].saving
                &&& forall|k: int|
                    0 <= k < b ==> (#[trigger] sv@[k]).saving < sv@[b as int].saving
            },
        },
{
    let n = sv.len();
    let mut besti: usize = 0;
    let mut best_s: i64 = 0;
    let mut found: bool = false;
    let mut k: usize = 0;
    while k < n
        invariant
            0 <= k <= n,
            n == sv@.len(),
            !found ==> best_s == 0 && forall|t: int| 0 <= t < k ==> (#[trigger] sv@[t]).saving
                <= 0,
            found ==> besti < k && sv@[besti as int].saving == best_s && best_s > 0,
            found ==> forall|t: int| 0 <= t < k ==> (#[trigger] sv@[t]).saving <= best_s,
            found ==> forall|t: int| 0 <= t < besti ==> (#[trigger] sv@[t]).saving < best_s,
        decreases n - k,
    {
        if sv[k].saving > best_s {
            best_s = sv[k].saving;
            besti = k;
            found = true;
        }
        k = k + 1;
    }
    if found {
        Some(besti)
    } else {
        None
    }
}

/// One transition of the optimization loop.  Computes all savings of the
/// current route set, selects the best strictly positive one (first wins on
/// ties), and if there is one, replaces its two routes by the merged route:
/// the route count then drops by exactly one and the total distance
/// strictly decreases.  Returns false — the Terminal state, the set
/// untouched — exactly when no candidate has a positive saving.
pub fn solve_step(
    routes: &mut Vec<Route>,
    nodes: &Vec<Node>,
    dm: &DistanceMatrix,
    capacity: u64,
    trials: u64,
    deterministic: bool,
    parallel: bool,
) -> (accepted: bool)
    requires
        1 <= nodes@.len() <= MAX_NODES,
        forall|k: int| 0 <= k < nodes@.len() ==> node_ok(#[trigger] nodes@[k]),
        dm.wf(nodes@),
        solution_wf(old(routes)@, nodes@, dm.m(), capacity),
        trials >= 1,
    ensures
        solution_wf(final(routes)@, nodes@, dm.m(), capacity),
        !accepted ==> final(routes)@ == old(routes)@,
        accepted ==> final(routes)@.len() == old(routes)@.len() - 1,
        accepted ==> total_dist(final(routes)@) < total_dist(old(routes)@),
{
    let ghost rs0 = routes@;
    let ghost m = dm.m();
    proof {
        lemma_solution_disjoint(rs0, nodes@, m, capacity);
    }
    let ps = feasible_pairs(routes, capacity);
    let mut sv = calculate_savings_for_pairs(routes, nodes, dm, &ps, trials, deterministic, parallel);
    let b = match best_positive(&sv) {
        None => {
            return false;
        },
        Some(b) => b,
    };
    let ghost i0 = ps@[b as int].0 as int;
    let ghost j0 = ps@[b as int].1 as int;
    let ghost svb = sv@[b as int];
    proof {
        broadcast use vstd::seq_lib::group_to_multiset_ensures;

        assert(candidate_ok(sv@[b as int], rs0, nodes@, m, i0, j0));
        let merged = svb.route;
        // The two merged routes are dominated by the merged route; every
        // other route holds a customer the merged route does not visit.
        assert forall|k: int| 0 <= k < rs0.len() implies (!spec_dominated(
            #[trigger] rs0[k],
            merged,
        ) <==> (k != i0 && k != j0)) by {
            let sk = rs0[k].stops@;
            let sm = merged.stops@;
            if k == i0 || k == j0 {
                assert forall|t: int| 0 <= t < sk.len() implies sm.contains(#[trigger] sk[t]) by {
                    if t == 0 || t == sk.len() - 1 {
                        assert(sm[0] == 0);
                    } else {
                        let c = sk[t];
                        assert(interior(sk)[t - 1] == c);
                        assert(interior(sk).contains(c));
                        assert(int_mset(rs0[k]).count(c) > 0);
                        assert(int_mset(merged).count(c) > 0);
                        assert(interior(sm).contains(c));
                        let w = choose|w: int| 0 <= w < interior(sm).len() && interior(sm)[w] == c;
                        assert(sm[w + 1] == c);
                    }
                }
            } else {
                // Witness: the first customer of route k.
                let c = sk[1];
                assert(interior(sk)[0] == c);
                assert(interior(sk).contains(c));
                assert(1 <= c < nodes@.len());
                if sm.contains(c) {
                    let w = choose|w: int| 0 <= w < sm.len() && sm[w] == c;
                    assert(w != 0 && w != sm.len() - 1);
                    assert(interior(sm)[w - 1] == c);
                    assert(interior(sm).contains(c));
                    assert(int_mset(merged).count(c) > 0);
                    assert(int_mset(rs0[i0]).count(c) > 0 || int_mset(rs0[j0]).count(c) > 0);
                    if int_mset(rs0[i0]).count(c) > 0 {
                        if k < i0 {
                            lemma_cust_mset_two(rs0, k, i0, c);
                        } else {
                            lemma_cust_mset_two(rs0, i0, k, c);
                        }
                    } else {
                        if k < j0 {
                            lemma_cust_mset_two(rs0, k, j0, c);
                        } else {
                            lemma_cust_mset_two(rs0, j0, k, c);
                        }
                    }
                    assert(cust_mset(rs0).count(c) == 1);
                    assert(false);
                }
            }
        }
    }
    let ghost pred = |r: Route| !spec_dominated(r, svb.route);
    let ghost saving = svb.saving;
    let ghost merged = svb.route;
    let best: Candidate = sv.remove(b);
    let merged_exec = best.route;
    remove_routes_dominated(routes, &merged_exec);
    proof {
        lemma_filter_two(rs0, pred, i0, j0);
        assert(routes@ == rs0.filter(pred));
    }
    let ghost filtered = routes@;
    routes.push(merged_exec);
    proof {
        broadcast use vstd::seq_lib::group_to_multiset_ensures;

        assert(routes@.drop_last() =~= filtered);
        assert(routes@[routes@.len() - 1] == merged);
        // Every surviving route is one of the old routes, so it is still
        // well formed and within capacity; the merged route is too.
        assert forall|k: int| 0 <= k < routes@.len() implies route_wf(
            #[trigger] routes@[k],
            nodes@,
            m,
        ) && routes@[k].demand <= capacity by {
            if k < routes@.len() - 1 {
                assert(filtered.contains(filtered[k]));
                assert(rs0.contains(routes@[k]));
                let w = choose|w: int| 0 <= w < rs0.len() && rs0[w] == routes@[k];
            } else {
                assert(routes@[k] == merged);
                assert(rs0[i0].demand + rs0[j0].demand <= capacity);
            }
        }
        // The merged route serves exactly the customers of the two removed
        // routes, so the customer multiset of the set is unchanged.
        assert(cust_mset(routes@) == cust_mset(filtered).add(int_mset(merged)));
        assert(int_mset(merged) == int_mset(rs0[i0]).add(int_mset(rs0[j0])));
        assert(cust_mset(routes@) =~= cust_mset(rs0));
        // The total distance strictly decreases: a positive truncated
        // saving needs a fixed-point gain of at least one whole unit.
        assert(saving == spec_saving(rs0[i0].dist + rs0[j0].dist, merged.dist as int));
        let sum = rs0[i0].dist + rs0[j0].dist;
        assert(saving > 0);
        assert(sum >= merged.dist);
        assert((sum - merged.dist) / (FP_ONE as int) >= 1);
        assert(sum - merged.dist >= FP_ONE);
        assert(total_dist(routes@) == total_dist(filtered) + merged.dist);
        assert(total_dist(routes@) < total_dist(rs0));
    }
    true
}

/// A route set covering at least one customer is non-empty.
proof fn lemma_covered_nonempty(rs: Seq<Route>, c: usize)
    requires
        cust_mset(rs).count(c) >= 1,
    ensures
        rs.len() >= 1,
{
    if rs.len() == 0 {
        assert(cust_mset(rs) =~= Multiset::<usize>::empty());
    }
}

/// The total distance of the initial singleton set has the closed form
/// `singleton_total`.
proof fn lemma_initial_total(rs: Seq<Route>, m: Seq<Seq<u64>>)
    requires
        forall|k: int| 0 <= k < rs.len() ==> (#[trigger] rs[k]).dist == 2 * m[0][k + 1],
    ensures
        total_dist(rs) == singleton_total(m, rs.len() as int),
    decreases rs.len(),
{
    if rs.len() > 0 {
        lemma_initial_total(rs.drop_last(), m);
    }
}

/// The customer multiset of the initial singleton set counts each customer
/// of the first `len` exactly once and nothing else.
proof fn lemma_initial_counts(rs: Seq<Route>)
    requires
        forall|k: int|
            0 <= k < rs.len() ==> (#[trigger] rs[k]).stops@ == seq![
                0usize,
                (k + 1) as usize,
                0usize,
            ],
        rs.len() <= MAX_NODES,
    ensures
        forall|c: usize|
            #[trigger] cust_mset(rs).count(c) == if 1 <= c <= rs.len() {
                1int
            } else {
                0
            },
    decreases rs.len(),
{
    broadcast use vstd::seq_lib::group_to_multiset_ensures;

    if rs.len() > 0 {
        lemma_initial_counts(rs.drop_last());
        let last = rs[rs.len() - 1];
        let c0 = rs.len() as usize;
        assert(interior(last.stops@) =~= seq![c0]);
        assert(seq![c0] =~= Seq::<usize>::empty().push(c0));
        assert(int_mset(last) =~= Multiset::<usize>::empty().insert(c0));
        assert forall|c: usize| #[trigger] cust_mset(rs).count(c) == (if 1 <= c <= rs.len() {
            1int
        } else {
            0
        }) by {
            assert(cust_mset(rs).count(c) == cust_mset(rs.drop_last()).count(c) + int_mset(
                last,
            ).count(c));
        }
    }
}

/// Runs the whole heuristic: builds the distance matrix, the singleton
/// routes, and improves by the best positive saving until Terminal.  The
/// result is a full solution (P-invariant), its total distance never
/// exceeds the singleton total, and the number of accepted merges is less
/// than the number of customers.
pub fn solve(
    nodes: &Vec<Node>,
    capacity: u64,
    trials: u64,
    deterministic: bool,
    parallel: bool,
) -> (result: (DistanceMatrix, Vec<Route>, u64))
    requires
        instance_wf(nodes@, capacity),
        trials >= 1,
    ensures
        result.0.wf(nodes@),
        solution_wf(result.1@, nodes@, result.0.m(), capacity),
        result.2 + result.1@.len() == nodes@.len() - 1,
        result.2 <= nodes@.len() - 1,
        total_dist(result.1@) <= singleton_total(result.0.m(), nodes@.len() - 1),
{
    let dm = generate_distance_matrix(nodes);
    let mut routes = create_initial_routes(nodes, &dm);
    let ghost m = dm.m();
    let ghost n_cust: int = nodes@.len() - 1;
    proof {
        lemma_initial_counts(routes@);
        lemma_initial_total(routes@, m);
        assert(solution_wf(routes@, nodes@, m, capacity));
    }
    let mut iters: u64 = 0;
    loop
        invariant
            1 <= nodes@.len() <= MAX_NODES,
            forall|k: int| 0 <= k < nodes@.len() ==> node_ok(#[trigger] nodes@[k]),
            dm.wf(nodes@),
            m == dm.m(),
            trials >= 1,
            solution_wf(routes@, nodes@, m, capacity),
            iters + routes@.len() == n_cust,
            n_cust == nodes@.len() - 1,
            total_dist(routes@) <= singleton_total(m, n_cust),
        decreases routes@.len(),
    {
        let accepted = solve_step(
            &mut routes,
            nodes,
            &dm,
            capacity,
            trials,
            deterministic,
            parallel,
        );
        if !accepted {
            break ;
        }
        iters = iters + 1;
    }
    (dm, routes, iters)
}

} // verus!
