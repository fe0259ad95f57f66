use vstd::prelude::*;
use crate::route::{is_dominated, spec_dominated, Route};

verus! {

/// The pruned route set: every route dominated by `merged` is removed, the
/// rest keep their order.
pub open spec fn prune_spec(rs: Seq<Route>, merged: Route) -> Seq<Route> {
    rs.filter(|r: Route| !spec_dominated(r, merged))
}

/// Removes from the set every route dominated by the newly accepted merged
/// route, keeping the order of the survivors (equivalent to removing in
/// reverse index order).
pub fn remove_routes_dominated(routes: &mut Vec<Route>, merged: &Route)
    ensures
        final(routes)@ == prune_spec(old(routes)@, *merged),
{
    let ghost rs0 = old(routes)@;
    let ghost pred = |r: Route| !spec_dominated(r, *merged);
    let n = routes.len();
    let mut i: usize = n;
    proof {
        assert(rs0.skip(n as int) =~= Seq::<Route>::empty());
        reveal(Seq::filter);
        assert(routes@ =~= rs0.take(n as int) + rs0.skip(n as int).filter(pred));
    }
    while i > 0
        invariant
            0 <= i <= n,
            n == rs0.len(),
            pred == (|r: Route| !spec_dominated(r, *merged)),
            routes@ == rs0.take(i as int) + rs0.skip(i as int).filter(pred),
        decreases i,
    {
        i = i - 1;
        let ghost pre = routes@;
        proof {
            assert(pre[i as int] == rs0[i as int]);
            lemma_filter_front(rs0.skip(i as int), pred);
            assert(rs0.skip(i as int).drop_first() =~= rs0.skip(i as int + 1));
            assert(rs0.skip(i as int)[0] == rs0[i as int]);
        }
        if is_dominated(&routes[i], merged) {
            routes.remove(i);
            proof {
                assert(routes@ =~= rs0.take(i as int) + rs0.skip(i as int).filter(pred));
            }
        } else {
            proof {
                assert(rs0.take(i as int + 1) =~= rs0.take(i as int).push(rs0[i as int]));
                assert(routes@ =~= rs0.take(i as int) + rs0.skip(i as int).filter(pred));
            }
        }
    }
    proof {
        assert(rs0.take(0) =~= Seq::<Route>::empty());
        assert(rs0.skip(0) =~= rs0);
        assert(routes@ =~= prune_spec(rs0, *merged));
    }
}

/// Unfolds a filter at the front of a non-empty sequence.
proof fn lemma_filter_front<A>(s: Seq<A>, pred: spec_fn(A) -> bool)
    requires
        s.len() >= 1,
    ensures
        s.filter(pred) == if pred(s[0]) {
            seq![s[0]] + s.drop_first().filter(pred)
        } else {
            s.drop_first().filter(pred)
        },
{
    broadcast use vstd::seq_lib::group_filter_ensures;

    reveal_with_fuel(Seq::filter, 3);
    assert(s =~= seq![s[0]] + s.drop_first());
    Seq::filter_distributes_over_add(seq![s[0]], s.drop_first(), pred);
    assert(seq![s[0]].drop_last() =~= Seq::<A>::empty());
    assert(seq![s[0]].last() == s[0]);
    assert(Seq::<A>::empty().filter(pred) =~= Seq::<A>::empty());
    if pred(s[0]) {
        assert(seq![s[0]].filter(pred) =~= seq![s[0]]);
    } else {
        assert(seq![s[0]].filter(pred) =~= Seq::<A>::empty());
        assert(Seq::<A>::empty() + s.drop_first().filter(pred) =~= s.drop_first().filter(pred));
    }
}

/// A filter keeps only what satisfies its test, so filtering again with the
/// same test changes nothing.
proof fn lemma_filter_of_filter<A>(s: Seq<A>, pred: spec_fn(A) -> bool)
    ensures
        s.filter(pred).filter(pred) == s.filter(pred),
    decreases s.len(),
{
    reveal(Seq::filter);
    if s.len() > 0 {
        lemma_filter_of_filter(s.drop_last(), pred);
        if pred(s.last()) {
            assert(s.filter(pred) == s.drop_last().filter(pred).push(s.last()));
            assert(s.filter(pred).drop_last() =~= s.drop_last().filter(pred));
        }
    }
}

/// Dominance pruning is idempotent: pruning an already-pruned route set
/// removes nothing.
pub proof fn lemma_prune_idempotent(rs: Seq<Route>, merged: Route)
    ensures
        prune_spec(prune_spec(rs, merged), merged) == prune_spec(rs, merged),
{
    lemma_filter_of_filter(rs, |r: Route| !spec_dominated(r, merged));
}

} // verus!
