use vstd::prelude::*;
use vstd::multiset::Multiset;

verus! {

/// `v` is the element of rank `k` (0-based, ascending) of the multiset `m`:
/// the rest of `m` splits into `k` elements at most `v` and a remainder at
/// least `v`.
pub open spec fn is_kth_smallest(m: Multiset<u64>, k: int, v: u64) -> bool {
    exists|l: Multiset<u64>, r: Multiset<u64>|
        {
            &&& #[trigger] l.insert(v).add(r) == m
            &&& l.len() == k
            &&& forall|x: u64| l.count(x) > 0 ==> x <= v
            &&& forall|x: u64| r.count(x) > 0 ==> v <= x
        }
}

/// The multiset of a concatenation is the sum of the two multisets.
pub proof fn lemma_mset_of_concat<A>(a: Seq<A>, b: Seq<A>)
    ensures
        (a + b).to_multiset() == a.to_multiset().add(b.to_multiset()),
    decreases b.len(),
{
    broadcast use vstd::seq_lib::group_to_multiset_ensures;

    if b.len() == 0 {
        assert(a + b =~= a);
        assert(b.to_multiset() =~= Multiset::<A>::empty());
        assert(a.to_multiset().add(b.to_multiset()) =~= a.to_multiset());
    } else {
        lemma_mset_of_concat(a, b.drop_last());
        assert(a + b =~= (a + b.drop_last()).push(b.last()));
        assert(b =~= b.drop_last().push(b.last()));
        assert(a.to_multiset().add(b.to_multiset()) =~= a.to_multiset().add(
            b.drop_last().to_multiset(),
        ).insert(b.last()));
    }
}

/// Swaps two entries of the vector in place.
fn swap_elems(arr: &mut Vec<u64>, a: usize, b: usize)
    requires
        a < old(arr)@.len(),
        b < old(arr)@.len(),
    ensures
        final(arr)@ == old(arr)@.update(a as int, old(arr)@[b as int]).update(
            b as int,
            old(arr)@[a as int],
        ),
        final(arr)@.len() == old(arr)@.len(),
        final(arr)@.to_multiset() == old(arr)@.to_multiset(),
{
    let va: u64 = arr[a];
    let vb: u64 = arr[b];
    arr.set(a, vb);
    arr.set(b, va);
    proof {
        broadcast use vstd::seq_lib::group_to_multiset_ensures;

        let s0 = old(arr)@;
        assert(arr@.to_multiset() =~= s0.to_multiset());
    }
}

/// Lomuto partition of the window `[lo, hi)` around a pivot taken from the
/// middle of the window.  Everything outside the window is untouched, and
/// the window keeps exchanging only its own elements, so the two bracket
/// hypotheses relating the window to its surroundings are preserved.
fn partition(arr: &mut Vec<u64>, lo: usize, hi: usize) -> (p: usize)
    requires
        lo < hi <= old(arr)@.len(),
        forall|t: int, u: int|
            #![trigger old(arr)@[t], old(arr)@[u]]
            0 <= t < lo <= u < hi ==> old(arr)@[t] <= old(arr)@[u],
        forall|t: int, u: int|
            #![trigger old(arr)@[t], old(arr)@[u]]
            lo <= t < hi <= u < old(arr)@.len() ==> old(arr)@[t] <= old(arr)@[u],
    ensures
        final(arr)@.len() == old(arr)@.len(),
        final(arr)@.to_multiset() == old(arr)@.to_multiset(),
        forall|t: int| #![trigger final(arr)@[t]] 0 <= t < lo ==> final(arr)@[t] == old(arr)@[t],
        forall|t: int|
            #![trigger final(arr)@[t]]
            hi <= t < final(arr)@.len() ==> final(arr)@[t] == old(arr)@[t],
        lo <= p < hi,
        forall|t: int| #![trigger final(arr)@[t]] lo <= t < p ==> final(arr)@[t] <= final(arr)@[p as int],
        forall|t: int| #![trigger final(arr)@[t]] p < t < hi ==> final(arr)@[t] > final(arr)@[p as int],
        forall|t: int, u: int|
            #![trigger final(arr)@[t], final(arr)@[u]]
            0 <= t < lo <= u < hi ==> final(arr)@[t] <= final(arr)@[u],
        forall|t: int, u: int|
            #![trigger final(arr)@[t], final(arr)@[u]]
            lo <= t < hi <= u < final(arr)@.len() ==> final(arr)@[t] <= final(arr)@[u],
{
    let mid: usize = lo + (hi - lo) / 2;
    swap_elems(arr, mid, hi - 1);
    let pivot: u64 = arr[hi - 1];
    let ghost s1 = arr@;
    let mut i: usize = lo;
    let mut j: usize = lo;
    while j < hi - 1
        invariant
            lo <= i <= j <= hi - 1 < arr@.len(),
            arr@.len() == s1.len(),
            arr@.to_multiset() == s1.to_multiset(),
            arr@[hi - 1] == pivot,
            forall|t: int| #![trigger arr@[t]] 0 <= t < lo ==> arr@[t] == s1[t],
            forall|t: int| #![trigger arr@[t]] hi <= t < arr@.len() ==> arr@[t] == s1[t],
            forall|t: int| #![trigger arr@[t]] lo <= t < i ==> arr@[t] <= pivot,
            forall|t: int| #![trigger arr@[t]] i <= t < j ==> arr@[t] > pivot,
            forall|t: int, u: int|
                #![trigger arr@[t], arr@[u]]
                0 <= t < lo <= u < hi ==> arr@[t] <= arr@[u],
            forall|t: int, u: int|
                #![trigger arr@[t], arr@[u]]
                lo <= t < hi <= u < arr@.len() ==> arr@[t] <= arr@[u],
        decreases hi - 1 - j,
    {
        if arr[j] <= pivot {
            swap_elems(arr, i, j);
            i = i + 1;
        }
        j = j + 1;
    }
    swap_elems(arr, i, hi - 1);
    i
}

/// Partial selection: rearranges `arr` and returns the element of rank `k`
/// of its contents, without fully sorting; expected linear time.
pub fn quickselect(arr: &mut Vec<u64>, k: usize) -> (v: u64)
    requires
        k < old(arr)@.len(),
    ensures
        final(arr)@.len() == old(arr)@.len(),
        final(arr)@.to_multiset() == old(arr)@.to_multiset(),
        is_kth_smallest(old(arr)@.to_multiset(), k as int, v),
        v == final(arr)@[k as int],
{
    let ghost s0 = arr@;
    let mut lo: usize = 0;
    let mut hi: usize = arr.len();
    let mut done: bool = false;
    while !done
        invariant
            lo <= k < hi <= arr@.len(),
            arr@.len() == s0.len(),
            arr@.to_multiset() == s0.to_multiset(),
            forall|t: int, u: int|
                #![trigger arr@[t], arr@[u]]
                0 <= t < lo <= u < hi ==> arr@[t] <= arr@[u],
            forall|t: int, u: int|
                #![trigger arr@[t], arr@[u]]
                lo <= t < hi <= u < arr@.len() ==> arr@[t] <= arr@[u],
            done ==> forall|t: int| #![trigger arr@[t]] 0 <= t < k ==> arr@[t] <= arr@[k as int],
            done ==> forall|t: int|
                #![trigger arr@[t]]
                k < t < arr@.len() ==> arr@[k as int] <= arr@[t],
        decreases hi - lo, (if done { 0int } else { 1int }),
    {
        let p = partition(arr, lo, hi);
        if p == k {
            done = true;
        } else if k < p {
            hi = p;
        } else {
            lo = p + 1;
        }
    }
    let v: u64 = arr[k];
    proof {
        broadcast use vstd::seq_lib::group_to_multiset_ensures;

        let s = arr@;
        let n = s.len() as int;
        let ki = k as int;
        let left = s.subrange(0, ki);
        let right = s.subrange(ki + 1, n);
        let mid = s.subrange(ki, ki + 1);
        assert(s =~= (left + mid) + right);
        lemma_mset_of_concat(left + mid, right);
        lemma_mset_of_concat(left, mid);
        assert(mid =~= Seq::<u64>::empty().push(v));
        assert(mid.to_multiset() =~= Multiset::<u64>::empty().insert(v));
        assert(left.to_multiset().add(mid.to_multiset()) =~= left.to_multiset().insert(v));
        let lm = left.to_multiset();
        let rm = right.to_multiset();
        assert(lm.insert(v).add(rm) =~= s.to_multiset());
        assert(lm.len() == ki);
        assert forall|x: u64| lm.count(x) > 0 implies x <= v by {
            assert(left.contains(x));
            let t = choose|t: int| 0 <= t < left.len() && left[t] == x;
            assert(s[t] == x);
        }
        assert forall|x: u64| rm.count(x) > 0 implies v <= x by {
            assert(right.contains(x));
            let t = choose|t: int| 0 <= t < right.len() && right[t] == x;
            assert(s[t + ki + 1] == x);
        }
        assert(is_kth_smallest(s.to_multiset(), ki, v));
    }
    v
}

/// Picks, among the candidate values `cand`, the first index holding the
/// value of rank `k`; ties on the value are broken by lowest index.
pub fn select_rank(cand: &Vec<u64>, k: usize) -> (idx: usize)
    requires
        k < cand@.len(),
    ensures
        idx < cand@.len(),
        is_kth_smallest(cand@.to_multiset(), k as int, cand@[idx as int]),
        forall|t: int| 0 <= t < idx ==> cand@[t] != cand@[idx as int],
{
    let n = cand.len();
    let mut scratch: Vec<u64> = Vec::new();
    let mut t: usize = 0;
    while t < n
        invariant
            0 <= t <= n,
            n == cand@.len(),
            scratch@ =~= cand@.subrange(0, t as int),
        decreases n - t,
    {
        scratch.push(cand[t]);
        t = t + 1;
    }
    proof {
        assert(scratch@ =~= cand@);
    }
    let v = quickselect(&mut scratch, k);
    proof {
        broadcast use vstd::seq_lib::group_to_multiset_ensures;

        assert(cand@.to_multiset().count(v) > 0);
        assert(cand@.contains(v));
    }
    let mut idx: usize = 0;
    while idx < n
        invariant
            0 <= idx <= n,
            n == cand@.len(),
            cand@.contains(v),
            is_kth_smallest(cand@.to_multiset(), k as int, v),
            forall|u: int| 0 <= u < idx ==> cand@[u] != v,
        decreases n - idx,
    {
        if cand[idx] == v {
            return idx;
        }
        idx = idx + 1;
    }
    proof {
        let w = choose|w: int| 0 <= w < cand@.len() && cand@[w] == v;
        assert(false);
    }
    0
}

} // verus!
