//! Aggregation operators: sum, count, average, min, max, distinct-count and
//! median, reducing a sequence of numbers to one scalar (or an explicit
//! "empty" outcome).

use vstd::prelude::*;
use std::collections::HashSet;
use crate::parallel::concat_chunks;
use crate::parallel::flat_of;
use crate::parallel::lemma_flat_of_empty;
use crate::parallel::lemma_flat_of_take_step;
use crate::parallel::lemma_flat_of_take_le;
use crate::parallel::chunks_of;
use crate::parallel::par_map;
use crate::parallel::determine_chunk_size;
use crate::parallel::should_parallelize;
use crate::parallel::Strategy;
use crate::parallel::PARALLEL_THRESHOLD;
use crate::parallel::lemma_flat_of_first;
use crate::sorting::sequential_merge_sort;
use crate::sorting::merge;
use crate::sorting::sorted;
use crate::sorting::sort_of;
use crate::sorting::lemma_sort_of_ensures;
use crate::sorting::lemma_sorted_permutation_is_sort_of;
use vstd::seq_lib::lemma_multiset_commutative;

verus! {

/// Mathematical sum of a sequence of numbers, folded from the left.
pub open spec fn seq_sum(s: Seq<i64>) -> int
    decreases s.len(),
{
    if s.len() == 0 {
        0
    } else {
        seq_sum(s.drop_last()) + s.last()
    }
}

/// Every sum of `n` 64-bit terms is bounded by `n * 2^63`, so it fits in an
/// `i128` accumulator.
pub proof fn lemma_seq_sum_bound(s: Seq<i64>)
    ensures
        -(s.len() as int) * 0x8000_0000_0000_0000 <= seq_sum(s) <= (s.len() as int)
            * 0x8000_0000_0000_0000,
    decreases s.len(),
{
    if s.len() > 0 {
        lemma_seq_sum_bound(s.drop_last());
        assert(-((s.len() - 1) as int) * 0x8000_0000_0000_0000 - 0x8000_0000_0000_0000 == -(
        s.len() as int) * 0x8000_0000_0000_0000) by (nonlinear_arith);
        assert(((s.len() - 1) as int) * 0x8000_0000_0000_0000 + 0x8000_0000_0000_0000 == (
        s.len() as int) * 0x8000_0000_0000_0000) by (nonlinear_arith);
    }
}

/// Sequential sum: a left fold with the additive identity.
pub fn normal_sum(data: &Vec<i64>) -> (s: i128)
    ensures
        s == seq_sum(data@),
{
    let mut acc: i128 = 0;
    let mut i: usize = 0;
    while i < data.len()
        invariant
            0 <= i <= data.len(),
            acc == seq_sum(data@.subrange(0, i as int)),
            -(i as int) * 0x8000_0000_0000_0000 <= acc <= (i as int) * 0x8000_0000_0000_0000,
        decreases data.len() - i,
    {
        proof {
            assert(data@.subrange(0, i + 1 as int).drop_last() =~= data@.subrange(0, i as int));
            assert(-(i as int) * 0x8000_0000_0000_0000 - 0x8000_0000_0000_0000 == -((i + 1) as int)
                * 0x8000_0000_0000_0000) by (nonlinear_arith);
            assert((i as int) * 0x8000_0000_0000_0000 + 0x8000_0000_0000_0000 == ((i + 1) as int)
                * 0x8000_0000_0000_0000) by (nonlinear_arith);
            assert(((i + 1) as int) * 0x8000_0000_0000_0000 <= (data@.len() as int)
                * 0x8000_0000_0000_0000) by (nonlinear_arith)
                requires i + 1 <= data@.len();
            assert((data@.len() as int) * 0x8000_0000_0000_0000 < 0x8000_0000_0000_0000_0000_0000_0000_0000)
                by (nonlinear_arith)
                requires data@.len() < 0x1_0000_0000_0000_0000;
        }
        acc = acc + (data[i] as i128);
        i = i + 1;
    }
    proof {
        assert(data@.subrange(0, data@.len() as int) =~= data@);
    }
    acc
}

/// The Combine Rule for sums: summing two partitions and adding the partial
/// sums equals summing the whole.
pub proof fn lemma_seq_sum_concat(a: Seq<i64>, b: Seq<i64>)
    ensures
        seq_sum(a + b) == seq_sum(a) + seq_sum(b),
    decreases b.len(),
{
    if b.len() == 0 {
        assert(a + b =~= a);
    } else {
        assert((a + b).drop_last() =~= a + b.drop_last());
        lemma_seq_sum_concat(a, b.drop_last());
        assert((a + b).last() == b.last());
    }
}

/// A sum of fewer than `2^64` terms of 64 bits fits in an `i128`.
proof fn lemma_seq_sum_fits(s: Seq<i64>)
    requires
        s.len() < 0x1_0000_0000_0000_0000,
    ensures
        -0x8000_0000_0000_0000_0000_0000_0000_0000 <= seq_sum(s)
            < 0x8000_0000_0000_0000_0000_0000_0000_0000,
{
    lemma_seq_sum_bound(s);
    assert((s.len() as int) * 0x8000_0000_0000_0000 < 0x8000_0000_0000_0000_0000_0000_0000_0000)
        by (nonlinear_arith)
        requires s.len() < 0x1_0000_0000_0000_0000;
    assert(-(s.len() as int) * 0x8000_0000_0000_0000
        > -0x8000_0000_0000_0000_0000_0000_0000_0000) by (nonlinear_arith)
        requires s.len() < 0x1_0000_0000_0000_0000;
}

/// Sum over caller-chosen chunks: each chunk is folded independently and the
/// partial sums are combined, which the Combine Rule proves equal to the
/// sequential sum.
pub fn chunked_sum(data: &Vec<i64>, chunk_size: usize) -> (s: i128)
    requires
        chunk_size >= 1,
    ensures
        s == seq_sum(data@),
{
    let n = data.len();
    let chunks = chunks_of(data, chunk_size);
    let ghost cviews = chunks@;
    let f = |c: Vec<i64>| -> (s: i128)
        ensures
            s == seq_sum(c@),
        { normal_sum(&c) };
    let partials = par_map(chunks, f);
    proof {
        assert forall|k: int| 0 <= k < cviews.len() implies partials@[k] == seq_sum(
            (#[trigger] cviews[k])@,
        ) by {
            assert(call_ensures(f, (cviews[k],), partials@[k]));
        }
        assert(cviews.take(0) =~= Seq::<Vec<i64>>::empty());
        lemma_flat_of_empty(cviews.take(0));
    }
    let mut total: i128 = 0;
    let mut i: usize = 0;
    while i < partials.len()
        invariant
            partials@.len() == cviews.len(),
            i <= cviews.len(),
            forall|k: int|
                0 <= k < cviews.len() ==> partials@[k] == seq_sum((#[trigger] cviews[k])@),
            flat_of(cviews) == data@,
            n == data@.len(),
            total == seq_sum(flat_of(cviews.take(i as int))),
        decreases partials@.len() - i,
    {
        proof {
            lemma_flat_of_take_step(cviews, i as int);
            lemma_flat_of_take_le(cviews, i + 1);
            lemma_seq_sum_concat(flat_of(cviews.take(i as int)), cviews[i as int]@);
            lemma_seq_sum_fits(flat_of(cviews.take(i + 1)));
        }
        total = total + partials[i];
        i = i + 1;
    }
    proof {
        assert(cviews.take(cviews.len() as int) =~= cviews);
    }
    total
}

/// Parallel sum: chunks sized by the scheduler, folded concurrently.
pub fn parallel_sum(data: &Vec<i64>) -> (s: i128)
    ensures
        s == seq_sum(data@),
{
    let chunk_size = determine_chunk_size(data.len());
    chunked_sum(data, chunk_size)
}

/// Picks sequential or parallel summation from the input size; the value is
/// the same either way, and the chosen strategy is reported.
pub fn adaptive_sum(data: &Vec<i64>) -> (r: (i128, Strategy))
    ensures
        r.0 == seq_sum(data@),
        r.1 == (if data@.len() > PARALLEL_THRESHOLD {
            Strategy::Parallel
        } else {
            Strategy::Sequential
        }),
{
    if should_parallelize(data.len()) {
        (parallel_sum(data), Strategy::Parallel)
    } else {
        (normal_sum(data), Strategy::Sequential)
    }
}

/// Sequential count: the length of the sequence.
pub fn normal_count(data: &Vec<i64>) -> (n: usize)
    ensures
        n == data@.len(),
{
    data.len()
}

/// Counts the elements chunk by chunk and adds the partial counts.
pub fn chunked_count(data: &Vec<i64>, chunk_size: usize) -> (n: usize)
    requires
        chunk_size >= 1,
    ensures
        n == data@.len(),
{
    let n = data.len();
    let chunks = chunks_of(data, chunk_size);
    let ghost cviews = chunks@;
    let f = |c: Vec<i64>| -> (n: usize)
        ensures
            n == c@.len(),
        { c.len() };
    let partials = par_map(chunks, f);
    proof {
        assert forall|k: int| 0 <= k < cviews.len() implies partials@[k] == (
        #[trigger] cviews[k])@.len() by {
            assert(call_ensures(f, (cviews[k],), partials@[k]));
        }
        assert(cviews.take(0) =~= Seq::<Vec<i64>>::empty());
        lemma_flat_of_empty(cviews.take(0));
    }
    let mut total: usize = 0;
    let mut i: usize = 0;
    while i < partials.len()
        invariant
            partials@.len() == cviews.len(),
            i <= cviews.len(),
            forall|k: int| 0 <= k < cviews.len() ==> partials@[k] == (#[trigger] cviews[k])@.len(),
            flat_of(cviews) == data@,
            n == data@.len(),
            total == flat_of(cviews.take(i as int)).len(),
        decreases partials@.len() - i,
    {
        proof {
            lemma_flat_of_take_step(cviews, i as int);
            lemma_flat_of_take_le(cviews, i + 1);
        }
        total = total + partials[i];
        i = i + 1;
    }
    proof {
        assert(cviews.take(cviews.len() as int) =~= cviews);
    }
    total
}

/// Parallel count, exposed for API symmetry with the other operators.
pub fn parallel_count(data: &Vec<i64>) -> (n: usize)
    ensures
        n == data@.len(),
{
    let chunk_size = determine_chunk_size(data.len());
    chunked_count(data, chunk_size)
}

/// Counting is cheap enough that parallel dispatch never pays off, so the
/// adaptive form always takes the sequential path.
pub fn adaptive_count(data: &Vec<i64>) -> (r: (usize, Strategy))
    ensures
        r.0 == data@.len(),
        r.1 == Strategy::Sequential,
{
    (normal_count(data), Strategy::Sequential)
}

/// The arithmetic mean of a non-empty sequence, kept exact as the pair of
/// its sum and its count; the division is the caller's, performed once at
/// the very end so that no precision is lost on partial results.
pub open spec fn mean_of(s: Seq<i64>) -> Option<(i128, usize)> {
    if s.len() == 0 {
        None
    } else {
        Some((seq_sum(s) as i128, s.len() as usize))
    }
}

/// Sequential average: one fold for the sum, the length for the count.
/// An empty input has no mean and yields the explicit empty outcome.
pub fn normal_avg(data: &Vec<i64>) -> (r: Option<(i128, usize)>)
    ensures
        r == mean_of(data@),
{
    let n = data.len();
    if n == 0 {
        None
    } else {
        let s = normal_sum(data);
        proof {
            lemma_seq_sum_fits(data@);
        }
        Some((s, n))
    }
}

/// Average over caller-chosen chunks: per-chunk `(sum, count)` pairs are
/// combined pairwise, and only the combined pair is returned, never a mean
/// of partial means.
pub fn chunked_avg(data: &Vec<i64>, chunk_size: usize) -> (r: Option<(i128, usize)>)
    requires
        chunk_size >= 1,
    ensures
        r == mean_of(data@),
{
    let n = data.len();
    let chunks = chunks_of(data, chunk_size);
    let ghost cviews = chunks@;
    let f = |c: Vec<i64>| -> (p: (i128, usize))
        ensures
            p.0 == seq_sum(c@) && p.1 == c@.len(),
        {
            let s = normal_sum(&c);
            (s, c.len())
        };
    let partials = par_map(chunks, f);
    proof {
        assert forall|k: int|
            0 <= k < cviews.len() implies partials@[k].0 == seq_sum((#[trigger] cviews[k])@)
            && partials@[k].1 == cviews[k]@.len() by {
            assert(call_ensures(f, (cviews[k],), partials@[k]));
        }
        assert(cviews.take(0) =~= Seq::<Vec<i64>>::empty());
        lemma_flat_of_empty(cviews.take(0));
    }
    let mut sum_total: i128 = 0;
    let mut count_total: usize = 0;
    let mut i: usize = 0;
    while i < partials.len()
        invariant
            partials@.len() == cviews.len(),
            i <= cviews.len(),
            forall|k: int|
                0 <= k < cviews.len() ==> partials@[k].0 == seq_sum((#[trigger] cviews[k])@)
                    && partials@[k].1 == cviews[k]@.len(),
            flat_of(cviews) == data@,
            n == data@.len(),
            sum_total == seq_sum(flat_of(cviews.take(i as int))),
            count_total == flat_of(cviews.take(i as int)).len(),
        decreases partials@.len() - i,
    {
        proof {
            lemma_flat_of_take_step(cviews, i as int);
            lemma_flat_of_take_le(cviews, i + 1);
            lemma_seq_sum_concat(flat_of(cviews.take(i as int)), cviews[i as int]@);
            lemma_seq_sum_fits(flat_of(cviews.take(i + 1)));
        }
        let p = partials[i];
        sum_total = sum_total + p.0;
        count_total = count_total + p.1;
        i = i + 1;
    }
    proof {
        assert(cviews.take(cviews.len() as int) =~= cviews);
    }
    if count_total == 0 {
        None
    } else {
        Some((sum_total, count_total))
    }
}

/// Parallel average: chunks sized by the scheduler.
pub fn parallel_avg(data: &Vec<i64>) -> (r: Option<(i128, usize)>)
    ensures
        r == mean_of(data@),
{
    let chunk_size = determine_chunk_size(data.len());
    chunked_avg(data, chunk_size)
}

/// Picks sequential or parallel averaging from the input size.
pub fn adaptive_avg(data: &Vec<i64>) -> (r: (Option<(i128, usize)>, Strategy))
    ensures
        r.0 == mean_of(data@),
        r.1 == (if data@.len() > PARALLEL_THRESHOLD {
            Strategy::Parallel
        } else {
            Strategy::Sequential
        }),
{
    if should_parallelize(data.len()) {
        (parallel_avg(data), Strategy::Parallel)
    } else {
        (normal_avg(data), Strategy::Sequential)
    }
}

/// The least element of a non-empty sequence.
pub open spec fn seq_min(s: Seq<i64>) -> i64
    recommends
        s.len() > 0,
    decreases s.len(),
{
    if s.len() <= 1 {
        s[0]
    } else {
        let m = seq_min(s.drop_last());
        if s.last() < m {
            s.last()
        } else {
            m
        }
    }
}

/// The greatest element of a non-empty sequence.
pub open spec fn seq_max(s: Seq<i64>) -> i64
    recommends
        s.len() > 0,
    decreases s.len(),
{
    if s.len() <= 1 {
        s[0]
    } else {
        let m = seq_max(s.drop_last());
        if s.last() > m {
            s.last()
        } else {
            m
        }
    }
}

/// The Combine Rule for minima: the minimum of two partitions' minima is
/// the minimum of the whole.
pub proof fn lemma_seq_min_concat(a: Seq<i64>, b: Seq<i64>)
    requires
        a.len() > 0,
        b.len() > 0,
    ensures
        seq_min(a + b) == (if seq_min(a) <= seq_min(b) {
            seq_min(a)
        } else {
            seq_min(b)
        }),
    decreases b.len(),
{
    if b.len() == 1 {
        assert((a + b).drop_last() =~= a);
        assert((a + b).last() == b[0]);
    } else {
        assert((a + b).drop_last() =~= a + b.drop_last());
        lemma_seq_min_concat(a, b.drop_last());
        assert((a + b).last() == b.last());
    }
}

/// The Combine Rule for maxima.
pub proof fn lemma_seq_max_concat(a: Seq<i64>, b: Seq<i64>)
    requires
        a.len() > 0,
        b.len() > 0,
    ensures
        seq_max(a + b) == (if seq_max(a) >= seq_max(b) {
            seq_max(a)
        } else {
            seq_max(b)
        }),
    decreases b.len(),
{
    if b.len() == 1 {
        assert((a + b).drop_last() =~= a);
        assert((a + b).last() == b[0]);
    } else {
        assert((a + b).drop_last() =~= a + b.drop_last());
        lemma_seq_max_concat(a, b.drop_last());
        assert((a + b).last() == b.last());
    }
}

/// The least element of a non-empty vector.
fn min_of(data: &Vec<i64>) -> (m: i64)
    requires
        data@.len() >= 1,
    ensures
        m == seq_min(data@),
{
    let mut cur = data[0];
    let mut i: usize = 1;
    proof {
        assert(data@.subrange(0, 1) =~= seq![data@[0]]);
    }
    while i < data.len()
        invariant
            1 <= i <= data@.len(),
            cur == seq_min(data@.subrange(0, i as int)),
        decreases data@.len() - i,
    {
        proof {
            assert(data@.subrange(0, i + 1 as int).drop_last() =~= data@.subrange(0, i as int));
            assert(data@.subrange(0, i + 1 as int).last() == data@[i as int]);
        }
        let x = data[i];
        if x < cur {
            cur = x;
        }
        i = i + 1;
    }
    proof {
        assert(data@.subrange(0, data@.len() as int) =~= data@);
    }
    cur
}

/// The greatest element of a non-empty vector.
fn max_of(data: &Vec<i64>) -> (m: i64)
    requires
        data@.len() >= 1,
    ensures
        m == seq_max(data@),
{
    let mut cur = data[0];
    let mut i: usize = 1;
    proof {
        assert(data@.subrange(0, 1) =~= seq![data@[0]]);
    }
    while i < data.len()
        invariant
            1 <= i <= data@.len(),
            cur == seq_max(data@.subrange(0, i as int)),
        decreases data@.len() - i,
    {
        proof {
            assert(data@.subrange(0, i + 1 as int).drop_last() =~= data@.subrange(0, i as int));
            assert(data@.subrange(0, i + 1 as int).last() == data@[i as int]);
        }
        let x = data[i];
        if x > cur {
            cur = x;
        }
        i = i + 1;
    }
    proof {
        assert(data@.subrange(0, data@.len() as int) =~= data@);
    }
    cur
}

/// Sequential minimum; an empty input yields the explicit empty outcome,
/// never a numeric sentinel.
pub fn normal_min(data: &Vec<i64>) -> (r: Option<i64>)
    ensures
        r == (if data@.len() == 0 {
            None::<i64>
        } else {
            Some(seq_min(data@))
        }),
{
    if data.len() == 0 {
        None
    } else {
        Some(min_of(data))
    }
}

/// Sequential maximum; an empty input yields the explicit empty outcome.
pub fn normal_max(data: &Vec<i64>) -> (r: Option<i64>)
    ensures
        r == (if data@.len() == 0 {
            None::<i64>
        } else {
            Some(seq_max(data@))
        }),
{
    if data.len() == 0 {
        None
    } else {
        Some(max_of(data))
    }
}

/// Minimum over caller-chosen chunks: per-chunk minima, then the minimum
/// of the minima.
pub fn chunked_min(data: &Vec<i64>, chunk_size: usize) -> (r: Option<i64>)
    requires
        chunk_size >= 1,
    ensures
        r == (if data@.len() == 0 {
            None::<i64>
        } else {
            Some(seq_min(data@))
        }),
{
    let chunks = chunks_of(data, chunk_size);
    let ghost cviews = chunks@;
    let f = |c: Vec<i64>| -> (m: i64)
        requires
            c@.len() >= 1,
        ensures
            m == seq_min(c@),
        { min_of(&c) };
    let partials = par_map(chunks, f);
    proof {
        assert forall|k: int| 0 <= k < cviews.len() implies partials@[k] == seq_min(
            (#[trigger] cviews[k])@,
        ) by {
            assert(call_ensures(f, (cviews[k],), partials@[k]));
        }
    }
    if partials.len() == 0 {
        proof {
            lemma_flat_of_empty(cviews);
        }
        None
    } else {
        let mut cur = partials[0];
        let mut i: usize = 1;
        proof {
            assert(cviews.take(0) =~= Seq::<Vec<i64>>::empty());
            lemma_flat_of_empty(cviews.take(0));
            lemma_flat_of_take_step(cviews, 0);
            assert(flat_of(cviews.take(1)) =~= cviews[0]@);
        }
        while i < partials.len()
            invariant
                partials@.len() == cviews.len(),
                1 <= i <= cviews.len(),
                forall|k: int|
                    0 <= k < cviews.len() ==> partials@[k] == seq_min((#[trigger] cviews[k])@),
                forall|k: int| 0 <= k < cviews.len() ==> (#[trigger] cviews[k])@.len() >= 1,
                flat_of(cviews) == data@,
                flat_of(cviews.take(i as int)).len() >= 1,
                cur == seq_min(flat_of(cviews.take(i as int))),
            decreases partials@.len() - i,
        {
            proof {
                lemma_flat_of_take_step(cviews, i as int);
                lemma_seq_min_concat(flat_of(cviews.take(i as int)), cviews[i as int]@);
            }
            let x = partials[i];
            if x < cur {
                cur = x;
            }
            i = i + 1;
        }
        proof {
            assert(cviews.take(cviews.len() as int) =~= cviews);
        }
        Some(cur)
    }
}

/// Maximum over caller-chosen chunks: per-chunk maxima, then the maximum
/// of the maxima.
pub fn chunked_max(data: &Vec<i64>, chunk_size: usize) -> (r: Option<i64>)
    requires
        chunk_size >= 1,
    ensures
        r == (if data@.len() == 0 {
            None::<i64>
        } else {
            Some(seq_max(data@))
        }),
{
    let chunks = chunks_of(data, chunk_size);
    let ghost cviews = chunks@;
    let f = |c: Vec<i64>| -> (m: i64)
        requires
            c@.len() >= 1,
        ensures
            m == seq_max(c@),
        { max_of(&c) };
    let partials = par_map(chunks, f);
    proof {
        assert forall|k: int| 0 <= k < cviews.len() implies partials@[k] == seq_max(
            (#[trigger] cviews[k])@,
        ) by {
            assert(call_ensures(f, (cviews[k],), partials@[k]));
        }
    }
    if partials.len() == 0 {
        proof {
            lemma_flat_of_empty(cviews);
        }
        None
    } else {
        let mut cur = partials[0];
        let mut i: usize = 1;
        proof {
            assert(cviews.take(0) =~= Seq::<Vec<i64>>::empty());
            lemma_flat_of_empty(cviews.take(0));
            lemma_flat_of_take_step(cviews, 0);
            assert(flat_of(cviews.take(1)) =~= cviews[0]@);
        }
        while i < partials.len()
            invariant
                partials@.len() == cviews.len(),
                1 <= i <= cviews.len(),
                forall|k: int|
                    0 <= k < cviews.len() ==> partials@[k] == seq_max((#[trigger] cviews[k])@),
                forall|k: int| 0 <= k < cviews.len() ==> (#[trigger] cviews[k])@.len() >= 1,
                flat_of(cviews) == data@,
                flat_of(cviews.take(i as int)).len() >= 1,
                cur == seq_max(flat_of(cviews.take(i as int))),
            decreases partials@.len() - i,
        {
            proof {
                lemma_flat_of_take_step(cviews, i as int);
                lemma_seq_max_concat(flat_of(cviews.take(i as int)), cviews[i as int]@);
            }
            let x = partials[i];
            if x > cur {
                cur = x;
            }
            i = i + 1;
        }
        proof {
            assert(cviews.take(cviews.len() as int) =~= cviews);
        }
        Some(cur)
    }
}

/// Parallel minimum: chunks sized by the scheduler.
pub fn parallel_min(data: &Vec<i64>) -> (r: Option<i64>)
    ensures
        r == (if data@.len() == 0 {
            None::<i64>
        } else {
            Some(seq_min(data@))
        }),
{
    let chunk_size = determine_chunk_size(data.len());
    chunked_min(data, chunk_size)
}

/// Parallel maximum: chunks sized by the scheduler.
pub fn parallel_max(data: &Vec<i64>) -> (r: Option<i64>)
    ensures
        r == (if data@.len() == 0 {
            None::<i64>
        } else {
            Some(seq_max(data@))
        }),
{
    let chunk_size = determine_chunk_size(data.len());
    chunked_max(data, chunk_size)
}

/// Picks sequential or parallel minimum from the input size.
pub fn adaptive_min(data: &Vec<i64>) -> (r: (Option<i64>, Strategy))
    ensures
        r.0 == (if data@.len() == 0 {
            None::<i64>
        } else {
            Some(seq_min(data@))
        }),
        r.1 == (if data@.len() > PARALLEL_THRESHOLD {
            Strategy::Parallel
        } else {
            Strategy::Sequential
        }),
{
    if should_parallelize(data.len()) {
        (parallel_min(data), Strategy::Parallel)
    } else {
        (normal_min(data), Strategy::Sequential)
    }
}

/// The lower median: the element at index `(len - 1) / 2` of the sorted
/// permutation, so the smaller middle element when the length is even.
/// An empty sequence has no median.
pub open spec fn median_of(s: Seq<i64>) -> Option<i64> {
    if s.len() == 0 {
        None
    } else {
        Some(sort_of(s)[(s.len() - 1) as int / 2])
    }
}

/// Sequential median: fully sort, then index the midpoint. Exact, never
/// approximated.
pub fn sequential_median(data: &Vec<i64>) -> (r: Option<i64>)
    ensures
        r == median_of(data@),
{
    let n = data.len();
    if n == 0 {
        None
    } else {
        let s = sequential_merge_sort(data);
        proof {
            lemma_sort_of_ensures(data@);
        }
        Some(s[(n - 1) / 2])
    }
}

/// The elements held by a list of sorted runs, with multiplicity.
spec fn runs_multiset(runs: Seq<Vec<i64>>) -> vstd::multiset::Multiset<i64> {
    flat_of(runs).to_multiset()
}

/// Removing the two front runs splits off their elements.
proof fn lemma_runs_multiset_front2(runs: Seq<Vec<i64>>)
    requires
        runs.len() >= 2,
    ensures
        runs_multiset(runs) == runs[0]@.to_multiset().add(runs[1]@.to_multiset()).add(
            runs_multiset(runs.skip(2)),
        ),
{
    lemma_flat_of_first(runs);
    lemma_flat_of_first(runs.skip(1));
    assert(runs.skip(1)[0] == runs[1]);
    assert(runs.skip(1).skip(1) =~= runs.skip(2));
    lemma_multiset_commutative(runs[1]@, flat_of(runs.skip(2)));
    assert(flat_of(runs) =~= runs[0]@ + (runs[1]@ + flat_of(runs.skip(2))));
    lemma_multiset_commutative(runs[0]@, runs[1]@ + flat_of(runs.skip(2)));
    assert(runs_multiset(runs) =~= runs[0]@.to_multiset().add(runs[1]@.to_multiset()).add(
        runs_multiset(runs.skip(2)),
    ));
}

/// Pushing a run onto the back adds its elements.
proof fn lemma_runs_multiset_push(runs: Seq<Vec<i64>>, r: Vec<i64>)
    ensures
        runs_multiset(runs.push(r)) == runs_multiset(runs).add(r@.to_multiset()),
{
    crate::parallel::lemma_flat_of_push(runs, r);
    lemma_multiset_commutative(flat_of(runs), r@);
}

/// Median over caller-chosen chunks: every chunk is sorted independently,
/// the sorted runs are merged pairwise, tournament style, until a single
/// fully sorted sequence remains, and its midpoint is indexed. Exact for
/// every chunk size.
pub fn chunked_median(data: &Vec<i64>, chunk_size: usize) -> (r: Option<i64>)
    requires
        chunk_size >= 1,
    ensures
        r == median_of(data@),
{
    let n = data.len();
    if n == 0 {
        return None;
    }
    let chunks = chunks_of(data, chunk_size);
    let ghost cviews = chunks@;
    let f = |c: Vec<i64>| -> (s: Vec<i64>)
        ensures
            s@ == sort_of(c@),
        { sequential_merge_sort(&c) };
    let mut runs = par_map(chunks, f);
    let ghost total = data@.to_multiset();
    proof {
        assert forall|k: int| 0 <= k < cviews.len() implies runs@[k]@ == sort_of(
            (#[trigger] cviews[k])@,
        ) by {
            assert(call_ensures(f, (cviews[k],), runs@[k]));
        }
        assert forall|k: int| 0 <= k < runs@.len() implies sorted((#[trigger] runs@[k])@)
            && runs@[k]@.to_multiset() == cviews[k]@.to_multiset() by {
            lemma_sort_of_ensures(cviews[k]@);
        }
        lemma_runs_and_chunks_multiset(runs@, cviews);
        assert(runs_multiset(runs@) == total);
        if runs@.len() == 0 {
            lemma_flat_of_empty(cviews);
            assert(false);
        }
    }
    while runs.len() > 1
        invariant
            runs@.len() >= 1,
            forall|k: int| 0 <= k < runs@.len() ==> sorted((#[trigger] runs@[k])@),
            runs_multiset(runs@) == total,
            total == data@.to_multiset(),
        decreases runs@.len(),
    {
        let ghost r0len = runs@.len();
        let mut next: Vec<Vec<i64>> = Vec::new();
        proof {
            broadcast use vstd::seq_lib::group_to_multiset_ensures;

            assert(next@.len() == 0);
            lemma_flat_of_empty(next@);
            assert forall|x: i64| runs_multiset(next@).count(x) == 0 by {
                assert(!flat_of(next@).contains(x));
                assert(flat_of(next@).to_multiset().count(x) == 0);
            }
            assert(runs_multiset(next@).add(runs_multiset(runs@)) =~= runs_multiset(runs@));
        }
        while runs.len() >= 2
            invariant
                forall|k: int| 0 <= k < next@.len() ==> sorted((#[trigger] next@[k])@),
                forall|k: int| 0 <= k < runs@.len() ==> sorted((#[trigger] runs@[k])@),
                runs_multiset(next@).add(runs_multiset(runs@)) == total,
                2 * next@.len() + runs@.len() == r0len,
            decreases runs@.len(),
        {
            let ghost runs0 = runs@;
            proof {
                lemma_runs_multiset_front2(runs0);
            }
            let a = runs.remove(0);
            let b = runs.remove(0);
            proof {
                assert(runs@ =~= runs0.skip(2));
            }
            let m = merge(&a, &b);
            proof {
                lemma_runs_multiset_push(next@, m);
                assert(runs_multiset(next@.push(m)).add(runs_multiset(runs@)) =~= runs_multiset(
                    next@,
                ).add(runs_multiset(runs0)));
            }
            next.push(m);
        }
        if runs.len() == 1 {
            let ghost runs0 = runs@;
            proof {
                lemma_flat_of_first(runs0);
                assert(runs0.skip(1) =~= Seq::<Vec<i64>>::empty());
                lemma_flat_of_empty(runs0.skip(1));
                assert(flat_of(runs0) =~= runs0[0]@);
            }
            let last = runs.remove(0);
            proof {
                lemma_runs_multiset_push(next@, last);
                assert(runs@ =~= Seq::<Vec<i64>>::empty());
                lemma_flat_of_empty(runs@);
                assert(runs_multiset(next@.push(last)) =~= runs_multiset(next@).add(
                    runs_multiset(runs0),
                ));
            }
            next.push(last);
        } else {
            proof {
                assert(runs@.len() == 0);
                lemma_flat_of_empty(runs@);
                assert(runs_multiset(next@).add(runs_multiset(runs@)) =~= runs_multiset(next@));
            }
        }
        runs = next;
        proof {
            assert(runs@.len() >= 1);
        }
    }
    let ghost runsf = runs@;
    proof {
        lemma_flat_of_first(runsf);
        assert(runsf.skip(1) =~= Seq::<Vec<i64>>::empty());
        lemma_flat_of_empty(runsf.skip(1));
        assert(flat_of(runsf) =~= runsf[0]@);
    }
    let whole = runs.remove(0);
    proof {
        assert(whole@.to_multiset() == total);
        lemma_sorted_permutation_is_sort_of(whole@, data@);
        lemma_sort_of_ensures(data@);
    }
    Some(whole[(n - 1) / 2])
}

/// Runs with the same element multisets as the chunks, run for run, hold
/// the same elements overall.
proof fn lemma_runs_and_chunks_multiset(ps: Seq<Vec<i64>>, cs: Seq<Vec<i64>>)
    requires
        ps.len() == cs.len(),
        forall|k: int|
            0 <= k < ps.len() ==> (#[trigger] ps[k])@.to_multiset() == cs[k]@.to_multiset(),
    ensures
        flat_of(ps).to_multiset() == flat_of(cs).to_multiset(),
    decreases ps.len(),
{
    if ps.len() == 0 {
        lemma_flat_of_empty(ps);
        lemma_flat_of_empty(cs);
    } else {
        let i = ps.len() - 1;
        lemma_runs_and_chunks_multiset(ps.take(i), cs.take(i));
        lemma_flat_of_take_step(ps, i);
        lemma_flat_of_take_step(cs, i);
        assert(ps.take(i + 1) =~= ps);
        assert(cs.take(i + 1) =~= cs);
        lemma_multiset_commutative(flat_of(ps.take(i)), ps[i]@);
        lemma_multiset_commutative(flat_of(cs.take(i)), cs[i]@);
    }
}

/// Parallel median: chunks sized by the scheduler.
pub fn parallel_median(data: &Vec<i64>) -> (r: Option<i64>)
    ensures
        r == median_of(data@),
{
    let chunk_size = determine_chunk_size(data.len());
    chunked_median(data, chunk_size)
}

/// Picks sequential or parallel median from the input size.
pub fn adaptive_median(data: &Vec<i64>) -> (r: (Option<i64>, Strategy))
    ensures
        r.0 == median_of(data@),
        r.1 == (if data@.len() > PARALLEL_THRESHOLD {
            Strategy::Parallel
        } else {
            Strategy::Sequential
        }),
{
    if should_parallelize(data.len()) {
        (parallel_median(data), Strategy::Parallel)
    } else {
        (sequential_median(data), Strategy::Sequential)
    }
}

/// Concatenating two sequences unions the sets of their elements.
pub proof fn lemma_to_set_concat(a: Seq<i64>, b: Seq<i64>)
    ensures
        (a + b).to_set() == a.to_set().union(b.to_set()),
{
    broadcast use vstd::seq_lib::group_seq_properties;

    assert((a + b).to_set() =~= a.to_set().union(b.to_set()));
}

/// Chunk lists whose chunks hold the same element sets, chunk for chunk,
/// hold the same element set overall.
proof fn lemma_flat_to_set_congruent(ps: Seq<Vec<i64>>, cs: Seq<Vec<i64>>)
    requires
        ps.len() == cs.len(),
        forall|k: int| 0 <= k < ps.len() ==> (#[trigger] ps[k])@.to_set() == cs[k]@.to_set(),
    ensures
        flat_of(ps).to_set() == flat_of(cs).to_set(),
    decreases ps.len(),
{
    if ps.len() == 0 {
        lemma_flat_of_empty(ps);
        lemma_flat_of_empty(cs);
    } else {
        let i = ps.len() - 1;
        lemma_flat_to_set_congruent(ps.take(i), cs.take(i));
        lemma_flat_of_take_step(ps, i);
        lemma_flat_of_take_step(cs, i);
        assert(ps.take(i + 1) =~= ps);
        assert(cs.take(i + 1) =~= cs);
        lemma_to_set_concat(flat_of(ps.take(i)), ps[i]@);
        lemma_to_set_concat(flat_of(cs.take(i)), cs[i]@);
    }
}

/// Sequential distinct-count: inserts every element into one set and
/// reports the set's size.
pub fn normal_distinct_count(data: &Vec<i64>) -> (n: usize)
    ensures
        n == data@.to_set().len(),
{
    let mut seen: HashSet<i64> = HashSet::new();
    let mut i: usize = 0;
    proof {
        assert(data@.subrange(0, 0).to_set() =~= Set::<i64>::empty());
    }
    while i < data.len()
        invariant
            i <= data@.len(),
            seen@ == data@.subrange(0, i as int).to_set(),
        decreases data@.len() - i,
    {
        proof {
            broadcast use vstd::seq_lib::group_seq_properties;

            assert(data@.subrange(0, i + 1 as int) =~= data@.subrange(0, i as int).push(
                data@[i as int],
            ));
            assert(data@.subrange(0, i + 1 as int).to_set() =~= data@.subrange(
                0,
                i as int,
            ).to_set().insert(data@[i as int]));
        }
        seen.insert(data[i]);
        i = i + 1;
    }
    proof {
        assert(data@.subrange(0, data@.len() as int) =~= data@);
    }
    seen.len()
}

/// The distinct elements of a sequence, each exactly once. A per-chunk
/// partial result for the distinct-count operator.
pub fn distinct_elements(data: &Vec<i64>) -> (r: Vec<i64>)
    ensures
        r@.to_set() == data@.to_set(),
        r@.no_duplicates(),
{
    let mut seen: HashSet<i64> = HashSet::new();
    let mut out: Vec<i64> = Vec::new();
    let mut i: usize = 0;
    proof {
        assert(data@.subrange(0, 0).to_set() =~= Set::<i64>::empty());
        assert(out@.to_set() =~= Set::<i64>::empty());
    }
    while i < data.len()
        invariant
            i <= data@.len(),
            seen@ == data@.subrange(0, i as int).to_set(),
            out@.to_set() == seen@,
            out@.no_duplicates(),
        decreases data@.len() - i,
    {
        proof {
            broadcast use vstd::seq_lib::group_seq_properties;

            assert(data@.subrange(0, i + 1 as int) =~= data@.subrange(0, i as int).push(
                data@[i as int],
            ));
            assert(data@.subrange(0, i + 1 as int).to_set() =~= data@.subrange(
                0,
                i as int,
            ).to_set().insert(data@[i as int]));
        }
        let x = data[i];
        if !seen.contains(&x) {
            proof {
                broadcast use vstd::seq_lib::group_seq_properties;

                assert(!out@.contains(x));
                assert(out@.push(x).to_set() =~= out@.to_set().insert(x));
            }
            out.push(x);
            seen.insert(x);
        } else {
            proof {
                assert(seen@.insert(x) =~= seen@);
            }
            seen.insert(x);
        }
        i = i + 1;
    }
    proof {
        assert(data@.subrange(0, data@.len() as int) =~= data@);
    }
    out
}

/// Distinct-count over caller-chosen chunks: per-chunk element sets are
/// built independently, unioned, and the union's size reported. The result
/// does not depend on the chunk size.
pub fn chunked_distinct_count(data: &Vec<i64>, chunk_size: usize) -> (n: usize)
    requires
        chunk_size >= 1,
    ensures
        n == data@.to_set().len(),
{
    let chunks = chunks_of(data, chunk_size);
    let ghost cviews = chunks@;
    let f = |c: Vec<i64>| -> (r: Vec<i64>)
        ensures
            r@.to_set() == c@.to_set(),
        { distinct_elements(&c) };
    let partials = par_map(chunks, f);
    let ghost pviews = partials@;
    proof {
        assert forall|k: int| 0 <= k < cviews.len() implies (#[trigger] pviews[k])@.to_set()
            == cviews[k]@.to_set() by {
            assert(call_ensures(f, (cviews[k],), pviews[k]));
        }
        lemma_flat_to_set_congruent(pviews, cviews);
    }
    let merged = concat_chunks(partials);
    normal_distinct_count(&merged)
}

/// Parallel distinct-count: chunks sized by the scheduler.
pub fn parallel_distinct_count(data: &Vec<i64>) -> (n: usize)
    ensures
        n == data@.to_set().len(),
{
    let chunk_size = determine_chunk_size(data.len());
    chunked_distinct_count(data, chunk_size)
}

/// Picks sequential or parallel distinct-count from the input size.
pub fn adaptive_distinct_count(data: &Vec<i64>) -> (r: (usize, Strategy))
    ensures
        r.0 == data@.to_set().len(),
        r.1 == (if data@.len() > PARALLEL_THRESHOLD {
            Strategy::Parallel
        } else {
            Strategy::Sequential
        }),
{
    if should_parallelize(data.len()) {
        (parallel_distinct_count(data), Strategy::Parallel)
    } else {
        (normal_distinct_count(data), Strategy::Sequential)
    }
}

/// Picks sequential or parallel maximum from the input size.
pub fn adaptive_max(data: &Vec<i64>) -> (r: (Option<i64>, Strategy))
    ensures
        r.0 == (if data@.len() == 0 {
            None::<i64>
        } else {
            Some(seq_max(data@))
        }),
        r.1 == (if data@.len() > PARALLEL_THRESHOLD {
            Strategy::Parallel
        } else {
            Strategy::Sequential
        }),
{
    if should_parallelize(data.len()) {
        (parallel_max(data), Strategy::Parallel)
    } else {
        (normal_max(data), Strategy::Sequential)
    }
}

} // verus!
