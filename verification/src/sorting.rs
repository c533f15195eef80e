//! Sort operators: a stable out-of-place merge sort and an in-place
//! quicksort, each sequential and fork-join parallel. Every variant is
//! proved to return the one sorted permutation of its input.

use vstd::prelude::*;
use vstd::relations::sorted_by;
use vstd::relations::total_ordering;
use vstd::seq_lib::lemma_sorted_unique;
use vstd::seq_lib::lemma_multiset_commutative;
use vstd::seq_lib::group_to_multiset_ensures;
use crate::parallel::PARALLEL_THRESHOLD;

verus! {

/// The total order all sort operators use.
pub open spec fn le64() -> spec_fn(i64, i64) -> bool {
    |a: i64, b: i64| a <= b
}

/// A sequence in ascending order.
pub open spec fn sorted(s: Seq<i64>) -> bool {
    sorted_by(s, le64())
}

/// The sorted permutation of a sequence. A total order admits exactly one,
/// so every sort operator's contract is an equation with this function.
pub open spec fn sort_of(s: Seq<i64>) -> Seq<i64> {
    s.sort_by(le64())
}

/// `<=` on 64-bit integers is a total order.
pub proof fn lemma_le64_total_ordering()
    ensures
        total_ordering(le64()),
{
}

/// What `sort_of` returns: the sorted permutation of its argument.
pub proof fn lemma_sort_of_ensures(s: Seq<i64>)
    ensures
        sorted(sort_of(s)),
        sort_of(s).to_multiset() == s.to_multiset(),
        sort_of(s).len() == s.len(),
    decreases s.len(),
{
    broadcast use group_to_multiset_ensures;

    lemma_le64_total_ordering();
    s.lemma_sort_by_ensures(le64());
    assert(s.to_multiset().len() == s.len());
    assert(sort_of(s).to_multiset().len() == sort_of(s).len());
}

/// A sorted sequence with the same elements as `s`, counted with
/// multiplicity, is `sort_of(s)`.
pub proof fn lemma_sorted_permutation_is_sort_of(r: Seq<i64>, s: Seq<i64>)
    requires
        sorted(r),
        r.to_multiset() == s.to_multiset(),
    ensures
        r == sort_of(s),
{
    lemma_le64_total_ordering();
    lemma_sort_of_ensures(s);
    lemma_sorted_unique(r, sort_of(s), le64());
}

/// Sorting a sequence that is already in order returns it unchanged.
pub proof fn lemma_sort_of_sorted(s: Seq<i64>)
    requires
        sorted(s),
    ensures
        sort_of(s) == s,
{
    lemma_sorted_permutation_is_sort_of(s, s);
}

/// Stably merges two sorted runs by repeatedly taking the lesser head,
/// the left run winning ties.
pub fn merge(left: &Vec<i64>, right: &Vec<i64>) -> (r: Vec<i64>)
    requires
        sorted(left@),
        sorted(right@),
    ensures
        r@ == sort_of(left@ + right@),
        sorted(r@),
        r@.to_multiset() == left@.to_multiset().add(right@.to_multiset()),
{
    broadcast use group_to_multiset_ensures;

    let mut out: Vec<i64> = Vec::new();
    let mut i: usize = 0;
    let mut j: usize = 0;
    proof {
        assert(left@.take(0) =~= Seq::<i64>::empty());
        assert(right@.take(0) =~= Seq::<i64>::empty());
        assert(out@.to_multiset() =~= left@.take(0).to_multiset().add(
            right@.take(0).to_multiset(),
        ));
    }
    while i < left.len() || j < right.len()
        invariant
            sorted(left@),
            sorted(right@),
            i <= left@.len(),
            j <= right@.len(),
            sorted(out@),
            out@.to_multiset() == left@.take(i as int).to_multiset().add(
                right@.take(j as int).to_multiset(),
            ),
            forall|k: int|
                i <= k < left@.len() && out@.len() > 0 ==> out@.last() <= #[trigger] left@[k],
            forall|k: int|
                j <= k < right@.len() && out@.len() > 0 ==> out@.last() <= #[trigger] right@[k],
        decreases left@.len() - i + right@.len() - j,
    {
        let take_left = if j >= right.len() {
            true
        } else if i < left.len() {
            left[i] <= right[j]
        } else {
            false
        };
        if take_left {
            let x = left[i];
            proof {
                assert(left@.take(i + 1 as int) =~= left@.take(i as int).push(x));
                vstd::seq_lib::to_multiset_build(left@.take(i as int), x);
                assert(left@.take(i + 1 as int).to_multiset() =~= left@.take(
                    i as int,
                ).to_multiset().insert(x));
                vstd::seq_lib::to_multiset_build(out@, x);
                assert(out@.push(x).to_multiset() =~= out@.to_multiset().insert(x));
                assert(out@.push(x).to_multiset() =~= left@.take(i + 1 as int).to_multiset().add(
                    right@.take(j as int).to_multiset(),
                ));
                assert forall|k: int| i + 1 <= k < left@.len() implies x <= left@[k] by {
                    assert(le64()(left@[i as int], left@[k]));
                }
                assert forall|k: int| j <= k < right@.len() implies x <= right@[k] by {
                    assert(x <= right@[j as int]);
                    if k > j {
                        assert(le64()(right@[j as int], right@[k]));
                    }
                }
                assert forall|p: int, q: int| 0 <= p < q < out@.push(x).len() implies le64()(
                    out@.push(x)[p],
                    out@.push(x)[q],
                ) by {
                    if q < out@.len() {
                        assert(le64()(out@[p], out@[q]));
                    } else {
                        assert(out@.push(x)[q] == x);
                        assert(out@.last() <= x);
                        if p < out@.len() - 1 {
                            assert(le64()(out@[p], out@[out@.len() - 1]));
                        }
                        assert(out@[p] <= x);
                    }
                }
            }
            out.push(x);
            i = i + 1;
        } else {
            let x = right[j];
            proof {
                assert(right@.take(j + 1 as int) =~= right@.take(j as int).push(x));
                vstd::seq_lib::to_multiset_build(right@.take(j as int), x);
                assert(right@.take(j + 1 as int).to_multiset() =~= right@.take(
                    j as int,
                ).to_multiset().insert(x));
                vstd::seq_lib::to_multiset_build(out@, x);
                assert(out@.push(x).to_multiset() =~= out@.to_multiset().insert(x));
                assert(out@.push(x).to_multiset() =~= left@.take(i as int).to_multiset().add(
                    right@.take(j + 1 as int).to_multiset(),
                ));
                assert forall|k: int| j + 1 <= k < right@.len() implies x <= right@[k] by {
                    assert(le64()(right@[j as int], right@[k]));
                }
                assert forall|k: int| i <= k < left@.len() implies x <= left@[k] by {
                    assert(x < left@[i as int]);
                    if k > i {
                        assert(le64()(left@[i as int], left@[k]));
                    }
                }
                assert forall|p: int, q: int| 0 <= p < q < out@.push(x).len() implies le64()(
                    out@.push(x)[p],
                    out@.push(x)[q],
                ) by {
                    if q < out@.len() {
                        assert(le64()(out@[p], out@[q]));
                    } else {
                        assert(out@.push(x)[q] == x);
                        assert(out@.last() <= x);
                        if p < out@.len() - 1 {
                            assert(le64()(out@[p], out@[out@.len() - 1]));
                        }
                        assert(out@[p] <= x);
                    }
                }
            }
            out.push(x);
            j = j + 1;
        }
    }
    proof {
        assert(left@.take(left@.len() as int) =~= left@);
        assert(right@.take(right@.len() as int) =~= right@);
        lemma_multiset_commutative(left@, right@);
        lemma_sorted_permutation_is_sort_of(out@, left@ + right@);
    }
    out
}

/// Copies the half-open index range `[from, to)` of a vector.
fn copy_range(data: &Vec<i64>, from: usize, to: usize) -> (r: Vec<i64>)
    requires
        from <= to <= data@.len(),
    ensures
        r@ == data@.subrange(from as int, to as int),
{
    let mut out: Vec<i64> = Vec::new();
    let mut i = from;
    proof {
        assert(data@.subrange(from as int, from as int) =~= Seq::<i64>::empty());
    }
    while i < to
        invariant
            from <= i <= to <= data@.len(),
            out@ == data@.subrange(from as int, i as int),
        decreases to - i,
    {
        proof {
            assert(data@.subrange(from as int, i + 1 as int) =~= data@.subrange(
                from as int,
                i as int,
            ).push(data@[i as int]));
        }
        out.push(data[i]);
        i = i + 1;
    }
    out
}

/// Sequential merge sort: divide at the midpoint, sort both halves
/// recursively, merge the sorted runs. Stable and out-of-place.
pub fn sequential_merge_sort(arr: &Vec<i64>) -> (r: Vec<i64>)
    ensures
        r@ == sort_of(arr@),
        sorted(r@),
        r@.to_multiset() == arr@.to_multiset(),
    decreases arr@.len(),
{
    if arr.len() <= 1 {
        let r = copy_range(arr, 0, arr.len());
        proof {
            assert(arr@.subrange(0, arr@.len() as int) =~= arr@);
            lemma_sorted_permutation_is_sort_of(r@, arr@);
        }
        r
    } else {
        let mid = arr.len() / 2;
        let left = copy_range(arr, 0, mid);
        let right = copy_range(arr, mid, arr.len());
        let ls = sequential_merge_sort(&left);
        let rs = sequential_merge_sort(&right);
        let r = merge(&ls, &rs);
        proof {
            assert(left@ + right@ =~= arr@);
            lemma_multiset_commutative(left@, right@);
            lemma_sorted_permutation_is_sort_of(r@, arr@);
        }
        r
    }
}

/// Runs the two recursive sorts of the parallel merge sort as a fork-join
/// pair, one of which another worker may steal.
///
/// Relies on `rayon::join`: it executes both closures exactly once and
/// returns the pair of their results; each closure only calls this module's
/// verified `parallel_merge_sort`.
#[verifier::external_body]
fn join_merge_sorts(left: &Vec<i64>, right: &Vec<i64>) -> (r: (Vec<i64>, Vec<i64>))
    ensures
        r.0@ == sort_of(left@),
        r.1@ == sort_of(right@),
{
    rayon::join(|| parallel_merge_sort(left), || parallel_merge_sort(right))
}

/// Fork-join merge sort: the two recursive sorts run concurrently while the
/// subproblem is large enough to amortize the fork, then the sorted runs
/// are merged sequentially. Returns exactly what the sequential sort does.
pub fn parallel_merge_sort(arr: &Vec<i64>) -> (r: Vec<i64>)
    ensures
        r@ == sort_of(arr@),
        sorted(r@),
        r@.to_multiset() == arr@.to_multiset(),
{
    if arr.len() <= PARALLEL_THRESHOLD {
        return sequential_merge_sort(arr);
    }
    let mid = arr.len() / 2;
    let left = copy_range(arr, 0, mid);
    let right = copy_range(arr, mid, arr.len());
    let (ls, rs) = join_merge_sorts(&left, &right);
    proof {
        lemma_sort_of_ensures(left@);
        lemma_sort_of_ensures(right@);
    }
    let r = merge(&ls, &rs);
    proof {
        broadcast use group_to_multiset_ensures;

        assert(left@ + right@ =~= arr@);
        lemma_multiset_commutative(left@, right@);
        lemma_sorted_permutation_is_sort_of(r@, arr@);
    }
    r
}

/// Swaps two elements of a vector in place.
fn swap_in(arr: &mut Vec<i64>, i: usize, j: usize)
    requires
        i < old(arr)@.len(),
        j < old(arr)@.len(),
    ensures
        final(arr)@ == old(arr)@.update(i as int, old(arr)@[j as int]).update(
            j as int,
            old(arr)@[i as int],
        ),
        final(arr)@.to_multiset() == old(arr)@.to_multiset(),
{
    proof {
        broadcast use group_to_multiset_ensures;
        broadcast use vstd::multiset::group_multiset_axioms;

        let s = arr@;
        let t = s.update(i as int, s[j as int]).update(j as int, s[i as int]);
        assert(t.to_multiset() =~= s.to_multiset());
    }
    let a = arr[i];
    let b = arr[j];
    arr[i] = b;
    arr[j] = a;
}

/// Lomuto partition around the middle element: the pivot is swapped to the
/// end, elements no greater than it are moved to the front, and the pivot
/// lands between them and the strictly greater rest.
pub fn partition(arr: &mut Vec<i64>) -> (p: usize)
    requires
        old(arr)@.len() >= 1,
    ensures
        final(arr)@.len() == old(arr)@.len(),
        final(arr)@.to_multiset() == old(arr)@.to_multiset(),
        p < final(arr)@.len(),
        final(arr)@[p as int] == old(arr)@[old(arr)@.len() as int / 2],
        forall|k: int| 0 <= k < p ==> final(arr)@[k] <= final(arr)@[p as int],
        forall|k: int| p < k < final(arr)@.len() ==> final(arr)@[p as int] < final(arr)@[k],
{
    let n = arr.len();
    let pivot_index = n / 2;
    swap_in(arr, pivot_index, n - 1);
    let pivot = arr[n - 1];
    proof {
        assert(pivot == old(arr)@[old(arr)@.len() as int / 2]);
    }
    let mut i: usize = 0;
    let mut j: usize = 0;
    while j < n - 1
        invariant
            n == arr@.len(),
            n >= 1,
            i <= j <= n - 1,
            arr@[n - 1] == pivot,
            arr@.to_multiset() == old(arr)@.to_multiset(),
            forall|k: int| 0 <= k < i ==> arr@[k] <= pivot,
            forall|k: int| i <= k < j ==> arr@[k] > pivot,
        decreases n - 1 - j,
    {
        if arr[j] <= pivot {
            swap_in(arr, i, j);
            i = i + 1;
        }
        j = j + 1;
    }
    swap_in(arr, i, n - 1);
    proof {
        assert(arr@[i as int] == pivot);
    }
    i
}

/// Sequential in-place quicksort: partition, then sort both sides of the
/// pivot. Unstable; the result is the sorted permutation of the input.
pub fn sequential_quicksort(arr: &mut Vec<i64>)
    ensures
        final(arr)@ == sort_of(old(arr)@),
        sorted(final(arr)@),
        final(arr)@.to_multiset() == old(arr)@.to_multiset(),
    decreases old(arr)@.len(),
{
    broadcast use group_to_multiset_ensures;

    if arr.len() <= 1 {
        proof {
            lemma_sorted_permutation_is_sort_of(arr@, arr@);
        }
        return ;
    }
    let p = partition(arr);
    let ghost parted = arr@;
    let mut right = arr.split_off(p + 1);
    let pivot = arr.pop().unwrap();
    let ghost left0 = arr@;
    let ghost right0 = right@;
    proof {
        assert(left0 =~= parted.subrange(0, p as int));
        assert(right0 =~= parted.subrange(p + 1, parted.len() as int));
        assert(pivot == parted[p as int]);
    }
    sequential_quicksort(arr);
    sequential_quicksort(&mut right);
    let ghost lsorted = arr@;
    let ghost rsorted = right@;
    proof {
        lemma_quicksort_pieces(parted, p as int, left0, right0, lsorted, rsorted);
    }
    arr.push(pivot);
    arr.append(&mut right);
    proof {
        assert(arr@ =~= lsorted.push(pivot) + rsorted);
        lemma_sorted_permutation_is_sort_of(arr@, old(arr)@);
    }
}

/// After partitioning, sorting the two sides and laying them around the
/// pivot yields a sorted permutation of the partitioned buffer.
proof fn lemma_quicksort_pieces(
    parted: Seq<i64>,
    p: int,
    left0: Seq<i64>,
    right0: Seq<i64>,
    ls: Seq<i64>,
    rs: Seq<i64>,
)
    requires
        0 <= p < parted.len(),
        left0 == parted.subrange(0, p),
        right0 == parted.subrange(p + 1, parted.len() as int),
        forall|k: int| 0 <= k < p ==> parted[k] <= parted[p],
        forall|k: int| p < k < parted.len() ==> parted[p] < parted[k],
        ls == sort_of(left0),
        rs == sort_of(right0),
    ensures
        sorted(ls.push(parted[p]) + rs),
        (ls.push(parted[p]) + rs).to_multiset() == parted.to_multiset(),
{
    broadcast use group_to_multiset_ensures;

    lemma_sort_of_ensures(left0);
    lemma_sort_of_ensures(right0);
    let piv = parted[p];
    let assembled = ls.push(piv) + rs;
    assert forall|k: int| 0 <= k < ls.len() implies ls[k] <= piv by {
        assert(ls.contains(ls[k]));
        assert(ls.to_multiset().count(ls[k]) > 0);
        assert(left0.contains(ls[k]));
        let w = choose|w: int| 0 <= w < left0.len() && left0[w] == ls[k];
        assert(parted[w] == left0[w]);
    }
    assert forall|k: int| 0 <= k < rs.len() implies piv < rs[k] by {
        assert(rs.contains(rs[k]));
        assert(rs.to_multiset().count(rs[k]) > 0);
        assert(right0.contains(rs[k]));
        let w = choose|w: int| 0 <= w < right0.len() && right0[w] == rs[k];
        assert(parted[p + 1 + w] == right0[w]);
    }
    assert forall|a: int, b: int| 0 <= a < b < assembled.len() implies le64()(
        assembled[a],
        assembled[b],
    ) by {
        if b <= ls.len() {
            if b < ls.len() {
            } else {
                assert(assembled[b] == piv);
            }
        } else {
            assert(piv < assembled[b]);
            if a < ls.len() {
                assert(assembled[a] <= piv);
            } else if a == ls.len() {
                assert(assembled[a] == piv);
            }
        }
    }
    lemma_multiset_commutative(ls.push(piv), rs);
    assert(parted =~= left0.push(piv) + right0);
    lemma_multiset_commutative(left0.push(piv), right0);
}

/// Runs the two recursive sorts of the parallel quicksort as a fork-join
/// pair on the two disjoint partitions.
///
/// Relies on `rayon::join`: it executes both closures exactly once and
/// returns the pair of their results; each closure only calls this module's
/// verified `parallel_quicksort`.
#[verifier::external_body]
fn join_quicksorts(left: Vec<i64>, right: Vec<i64>) -> (r: (Vec<i64>, Vec<i64>))
    ensures
        r.0@ == sort_of(left@),
        r.1@ == sort_of(right@),
{
    rayon::join(
        move || {
            let mut l = left;
            parallel_quicksort(&mut l);
            l
        },
        move || {
            let mut r = right;
            parallel_quicksort(&mut r);
            r
        },
    )
}

/// Fork-join quicksort: partitioning is sequential (it mutates one buffer),
/// then the two disjoint sides are sorted concurrently. Returns exactly
/// what the sequential sort does.
pub fn parallel_quicksort(arr: &mut Vec<i64>)
    ensures
        final(arr)@ == sort_of(old(arr)@),
        sorted(final(arr)@),
        final(arr)@.to_multiset() == old(arr)@.to_multiset(),
{
    broadcast use group_to_multiset_ensures;

    if arr.len() <= PARALLEL_THRESHOLD {
        sequential_quicksort(arr);
        return ;
    }
    let p = partition(arr);
    let ghost parted = arr@;
    let mut right = arr.split_off(p + 1);
    let pivot = arr.pop().unwrap();
    let ghost left0 = arr@;
    let ghost right0 = right@;
    proof {
        assert(left0 =~= parted.subrange(0, p as int));
        assert(right0 =~= parted.subrange(p + 1, parted.len() as int));
        assert(pivot == parted[p as int]);
    }
    let left = arr.split_off(0);
    proof {
        assert(left@ =~= left0);
    }
    let (ls, rs) = join_quicksorts(left, right);
    let ghost lsorted = ls@;
    let ghost rsorted = rs@;
    proof {
        lemma_quicksort_pieces(parted, p as int, left0, right0, lsorted, rsorted);
    }
    let mut ls = ls;
    let mut rs = rs;
    arr.append(&mut ls);
    arr.push(pivot);
    arr.append(&mut rs);
    proof {
        assert(arr@ =~= lsorted.push(pivot) + rsorted);
        lemma_sorted_permutation_is_sort_of(arr@, old(arr)@);
    }
}

} // verus!
