//! Three classical comparison-based sorts over sequences of unsigned
//! integers: selection sort, insertion sort, and merge sort.
//!
//! Selection sort and insertion sort rearrange the caller's slice in place;
//! merge sort reads a slice and returns a freshly allocated sorted vector.
//! Every routine is proved to produce an ascending arrangement of exactly
//! the values it was given.
#![verifier::loop_isolation(false)]

use vstd::prelude::*;

verus! {

broadcast use vstd::seq_lib::group_to_multiset_ensures;

/// A sequence of values stands in ascending order.
pub open spec fn sorted(s: Seq<usize>) -> bool {
    forall|i: int, j: int| 0 <= i < j < s.len() ==> s[i] <= s[j]
}

/// Exchanging the values at two positions rearranges a sequence without
/// changing the multiset of values it holds.
proof fn lemma_swap_preserves_multiset(s: Seq<usize>, i: int, j: int)
    requires
        0 <= i < s.len(),
        0 <= j < s.len(),
    ensures
        s.update(i, s[j]).update(j, s[i]).to_multiset() == s.to_multiset(),
{
    broadcast use vstd::multiset::group_multiset_axioms;
    broadcast use vstd::multiset::group_multiset_properties;

    assert(s.update(i, s[j]).update(j, s[i]).to_multiset() =~= s.to_multiset());
}

/// Sort the slice in place in ascending order: repeatedly select the
/// minimum of the unsorted suffix and swap it into place. On ties the
/// lowest-index occurrence of the minimum is chosen.
pub fn selection_sort(arr: &mut [usize])
    ensures
        sorted(final(arr)@),
        final(arr)@.to_multiset() == old(arr)@.to_multiset(),
        final(arr)@.len() == old(arr)@.len(),
{
    if arr.len() == 0 {
        return;
    }
    let n: usize = arr.len();
    for i in 0..n - 1
        invariant
            arr@.len() == n,
            arr@.to_multiset() == old(arr)@.to_multiset(),
            sorted(arr@.subrange(0, i as int)),
            forall|k1: int, k2: int|
                0 <= k1 < i as int && i as int <= k2 < n as int ==> arr@[k1] <= arr@[k2],
    {
        let mut tmp: usize = i;
        for j in i + 1..n
            invariant
                i <= tmp < n,
                forall|k: int| i as int <= k < j as int ==> arr@[tmp as int] <= arr@[k],
        {
            if arr[tmp] > arr[j] {
                tmp = j;
            }
        }
        let ghost pre = arr@;
        let vi: usize = arr[i];
        let vt: usize = arr[tmp];
        arr[i] = vt;
        arr[tmp] = vi;
        proof {
            lemma_swap_preserves_multiset(pre, i as int, tmp as int);
            assert(arr@ =~= pre.update(i as int, pre[tmp as int]).update(tmp as int, pre[i as int]));
            assert forall|p: int, q: int| 0 <= p < q < i + 1 implies arr@[p] <= arr@[q] by {
                if q < i as int {
                    assert(pre.subrange(0, i as int)[p] == pre[p]);
                    assert(pre.subrange(0, i as int)[q] == pre[q]);
                }
            }
            assert(sorted(arr@.subrange(0, i + 1)));
        }
    }
    proof {
        assert forall|p: int, q: int| 0 <= p < q < n as int implies arr@[p] <= arr@[q] by {
            if q < n - 1 {
                assert(arr@.subrange(0, n - 1)[p] == arr@[p]);
                assert(arr@.subrange(0, n - 1)[q] == arr@[q]);
            }
        }
    }
}

/// Sort the slice in place in ascending order: walk the slice left to
/// right and sink each element into its place among the already-sorted
/// prefix by adjacent swaps. The inner comparison is strict, so equal
/// values never cross each other.
pub fn insertion_sort(arr: &mut [usize])
    ensures
        sorted(final(arr)@),
        final(arr)@.to_multiset() == old(arr)@.to_multiset(),
        final(arr)@.len() == old(arr)@.len(),
{
    if arr.len() == 0 {
        return;
    }
    let n: usize = arr.len();
    for i in 1..n
        invariant
            arr@.len() == n,
            arr@.to_multiset() == old(arr)@.to_multiset(),
            sorted(arr@.subrange(0, i as int)),
    {
        let mut j: usize = i;
        while j > 0 && arr[j - 1] > arr[j]
            invariant
                j <= i,
                arr@.len() == n,
                arr@.to_multiset() == old(arr)@.to_multiset(),
                sorted(arr@.subrange(0, j as int)),
                forall|k1: int, k2: int|
                    j as int <= k1 < k2 <= i as int ==> arr@[k1] <= arr@[k2],
                forall|k1: int, k2: int|
                    0 <= k1 < j as int && (j as int) < k2 <= i as int ==> arr@[k1] <= arr@[k2],
            decreases j,
        {
            let ghost pre = arr@;
            let lo: usize = arr[j - 1];
            let hi: usize = arr[j];
            arr[j - 1] = hi;
            arr[j] = lo;
            proof {
                lemma_swap_preserves_multiset(pre, j - 1, j as int);
                assert(arr@ =~= pre.update(j - 1, pre[j as int]).update(j as int, pre[j - 1]));
                assert forall|p: int, q: int| 0 <= p < q < j - 1 implies arr@[p] <= arr@[q] by {
                    assert(pre.subrange(0, j as int)[p] == pre[p]);
                    assert(pre.subrange(0, j as int)[q] == pre[q]);
                }
                assert(sorted(arr@.subrange(0, j - 1)));
                assert forall|k1: int| 0 <= k1 < j - 1 implies arr@[k1] <= arr@[j as int] by {
                    assert(pre.subrange(0, j as int)[k1] == pre[k1]);
                    assert(pre.subrange(0, j as int)[j - 1] == pre[j - 1]);
                }
            }
            j = j - 1;
        }
        proof {
            assert forall|p: int, q: int| 0 <= p < q <= i as int implies arr@[p] <= arr@[q] by {
                if q < j as int {
                    assert(arr@.subrange(0, j as int)[p] == arr@[p]);
                    assert(arr@.subrange(0, j as int)[q] == arr@[q]);
                } else if p < j as int && q == j as int {
                    assert(arr@.subrange(0, j as int)[p] == arr@[p]);
                    assert(arr@.subrange(0, j as int)[j - 1] == arr@[j - 1]);
                }
            }
            assert(sorted(arr@.subrange(0, i + 1)));
        }
    }
    proof {
        assert(arr@ =~= arr@.subrange(0, n as int));
    }
}

/// Appending a value no smaller than every element of a sorted sequence
/// keeps the sequence sorted.
proof fn lemma_sorted_push(s: Seq<usize>, x: usize)
    requires
        sorted(s),
        forall|k: int| 0 <= k < s.len() ==> s[k] <= x,
    ensures
        sorted(s.push(x)),
{
    assert forall|p: int, q: int| 0 <= p < q < s.push(x).len() implies s.push(x)[p] <= s.push(x)[q] by {
        if q < s.len() {
            assert(s.push(x)[p] == s[p]);
            assert(s.push(x)[q] == s[q]);
        }
    }
}

/// Combine two sorted slices into one sorted vector by repeatedly taking
/// the smaller front element; on equal fronts the left one is taken first.
fn merge(l: &[usize], r: &[usize]) -> (res: Vec<usize>)
    requires
        sorted(l@),
        sorted(r@),
    ensures
        sorted(res@),
        res@.to_multiset() == l@.to_multiset().add(r@.to_multiset()),
        res@.len() == l@.len() + r@.len(),
{
    broadcast use vstd::multiset::group_multiset_axioms;
    broadcast use vstd::multiset::group_multiset_properties;

    let mut res: Vec<usize> = Vec::new();
    let mut il: usize = 0;
    let mut ir: usize = 0;
    proof {
        assert(res@.to_multiset() =~= l@.subrange(0, 0).to_multiset().add(
            r@.subrange(0, 0).to_multiset(),
        ));
    }
    while il < l.len() && ir < r.len()
        invariant
            il <= l@.len(),
            ir <= r@.len(),
            res@.len() == il + ir,
            sorted(res@),
            res@.to_multiset() == l@.subrange(0, il as int).to_multiset().add(
                r@.subrange(0, ir as int).to_multiset(),
            ),
            forall|k: int, m: int|
                0 <= k < res@.len() && il as int <= m < l@.len() ==> res@[k] <= l@[m],
            forall|k: int, m: int|
                0 <= k < res@.len() && ir as int <= m < r@.len() ==> res@[k] <= r@[m],
        decreases l@.len() - il + r@.len() - ir,
    {
        let ghost prev = res@;
        if l[il] <= r[ir] {
            res.push(l[il]);
            proof {
                lemma_sorted_push(prev, l@[il as int]);
                assert(l@.subrange(0, il + 1) =~= l@.subrange(0, il as int).push(l@[il as int]));
                assert(res@.to_multiset() =~= l@.subrange(0, il + 1).to_multiset().add(
                    r@.subrange(0, ir as int).to_multiset(),
                ));
            }
            il = il + 1;
        } else {
            res.push(r[ir]);
            proof {
                lemma_sorted_push(prev, r@[ir as int]);
                assert(r@.subrange(0, ir + 1) =~= r@.subrange(0, ir as int).push(r@[ir as int]));
                assert(res@.to_multiset() =~= l@.subrange(0, il as int).to_multiset().add(
                    r@.subrange(0, ir + 1).to_multiset(),
                ));
            }
            ir = ir + 1;
        }
    }
    while il < l.len()
        invariant
            il <= l@.len(),
            il == l@.len() || ir == r@.len(),
            res@.len() == il + ir,
            sorted(res@),
            res@.to_multiset() == l@.subrange(0, il as int).to_multiset().add(
                r@.subrange(0, ir as int).to_multiset(),
            ),
            forall|k: int, m: int|
                0 <= k < res@.len() && il as int <= m < l@.len() ==> res@[k] <= l@[m],
            forall|k: int, m: int|
                0 <= k < res@.len() && ir as int <= m < r@.len() ==> res@[k] <= r@[m],
        decreases l@.len() - il,
    {
        let ghost prev = res@;
        res.push(l[il]);
        proof {
            lemma_sorted_push(prev, l@[il as int]);
            assert(l@.subrange(0, il + 1) =~= l@.subrange(0, il as int).push(l@[il as int]));
            assert(res@.to_multiset() =~= l@.subrange(0, il + 1).to_multiset().add(
                r@.subrange(0, ir as int).to_multiset(),
            ));
        }
        il = il + 1;
    }
    while ir < r.len()
        invariant
            ir <= r@.len(),
            res@.len() == il + ir,
            sorted(res@),
            res@.to_multiset() == l@.subrange(0, il as int).to_multiset().add(
                r@.subrange(0, ir as int).to_multiset(),
            ),
            forall|k: int, m: int|
                0 <= k < res@.len() && ir as int <= m < r@.len() ==> res@[k] <= r@[m],
        decreases r@.len() - ir,
    {
        let ghost prev = res@;
        res.push(r[ir]);
        proof {
            lemma_sorted_push(prev, r@[ir as int]);
            assert(r@.subrange(0, ir + 1) =~= r@.subrange(0, ir as int).push(r@[ir as int]));
            assert(res@.to_multiset() =~= l@.subrange(0, il as int).to_multiset().add(
                r@.subrange(0, ir + 1).to_multiset(),
            ));
        }
        ir = ir + 1;
    }
    proof {
        assert(l@.subrange(0, il as int) =~= l@);
        assert(r@.subrange(0, ir as int) =~= r@);
    }
    res
}

/// Sort the slice in ascending order into a freshly allocated vector:
/// split at the midpoint, sort each half recursively, and merge the two
/// sorted halves. The input is never mutated.
pub fn merge_sort(arr: &[usize]) -> (res: Vec<usize>)
    ensures
        sorted(res@),
        res@.to_multiset() == arr@.to_multiset(),
        res@.len() == arr@.len(),
    decreases arr@.len(),
{
    if arr.len() <= 1 {
        return vstd::slice::slice_to_vec(arr);
    }
    let mid: usize = arr.len() / 2;
    let left_part = vstd::slice::slice_subrange(arr, 0, mid);
    let right_part = vstd::slice::slice_subrange(arr, mid, arr.len());
    let left = merge_sort(left_part);
    let right = merge_sort(right_part);
    let res = merge(left.as_slice(), right.as_slice());
    proof {
        assert(left_part@ + right_part@ =~= arr@);
        vstd::seq_lib::lemma_multiset_commutative(left_part@, right_part@);
    }
    res
}

/// A multiset of values has exactly one ascending arrangement: two sorted
/// sequences that hold the same values are equal. In particular, sorting
/// an already-sorted sequence yields the same sequence unchanged, whichever
/// of the three routines does the sorting.
pub proof fn lemma_sorted_unique_arrangement(s: Seq<usize>, t: Seq<usize>)
    requires
        sorted(s),
        sorted(t),
        s.to_multiset() == t.to_multiset(),
    ensures
        s == t,
{
    let leq = |a: usize, b: usize| a <= b;
    assert forall|i: int, j: int| 0 <= i < j < s.len() implies #[trigger] leq(s[i], s[j]) by {}
    assert forall|i: int, j: int| 0 <= i < j < t.len() implies #[trigger] leq(t[i], t[j]) by {}
    assert(vstd::relations::total_ordering(leq));
    vstd::seq_lib::lemma_sorted_unique(s, t, leq);
    assert(s =~= t);
}

/// An output that holds the same values as an empty input is itself empty:
/// sorting the empty sequence yields the empty sequence.
pub proof fn lemma_permutation_of_empty(s: Seq<usize>, t: Seq<usize>)
    requires
        s.len() == 0,
        t.to_multiset() == s.to_multiset(),
    ensures
        t == s,
{
    vstd::seq_lib::to_multiset_len(s);
    vstd::seq_lib::to_multiset_len(t);
    assert(t =~= s);
}

} // verus!
