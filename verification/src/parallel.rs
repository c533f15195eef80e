//! Parallel execution infrastructure: partitioning a sequence into
//! contiguous chunks, running one unit of work per chunk on the shared
//! worker pool, and the policy that picks a strategy from the input size.
//!
//! Every operator built on this module recombines the per-chunk results in
//! verified code, so the only trust placed in the worker pool is that it
//! runs each unit of work once and hands the results back in input order.

use vstd::prelude::*;
use vstd::seq_lib::lemma_flatten_concat;
use rayon::iter::IntoParallelIterator;
use rayon::iter::ParallelIterator;

verus! {

/// Inputs of this many elements or fewer are processed sequentially:
/// below this size the cost of scheduling parallel work exceeds the gain.
pub const PARALLEL_THRESHOLD: usize = 50000;

/// A chunk handed to the worker pool never has fewer elements than this,
/// so an input is never over-partitioned into degenerate pieces.
pub const BASE_CHUNK_SIZE: usize = 10000;

/// Chunks created per worker when a chunk size is derived from the pool.
pub const CHUNKS_PER_WORKER: usize = 2;

/// The code path an adaptive operator chose for one call.
#[derive(Clone, Copy, Debug, PartialEq, Eq, Structural)]
pub enum Strategy {
    Sequential,
    Parallel,
}

/// The contents of a sequence of chunks, in chunk order.
pub open spec fn flat_of<A>(chunks: Seq<Vec<A>>) -> Seq<A> {
    chunks.map_values(|c: Vec<A>| c@).flatten()
}

/// Appending one more chunk appends its contents.
pub proof fn lemma_flat_of_push<A>(chunks: Seq<Vec<A>>, c: Vec<A>)
    ensures
        flat_of(chunks.push(c)) == flat_of(chunks) + c@,
{
    let f = |v: Vec<A>| v@;
    assert(chunks.push(c).map_values(f) =~= chunks.map_values(f).push(c@));
    chunks.map_values(f).lemma_flatten_push(c@);
    assert(flat_of(chunks.push(c)) =~= flat_of(chunks) + c@);
}

/// A split of the chunk list splits its contents.
pub proof fn lemma_flat_of_split<A>(chunks: Seq<Vec<A>>, i: int)
    requires
        0 <= i <= chunks.len(),
    ensures
        flat_of(chunks) == flat_of(chunks.take(i)) + flat_of(chunks.skip(i)),
{
    let f = |v: Vec<A>| v@;
    assert(chunks.take(i).map_values(f) =~= chunks.map_values(f).take(i));
    assert(chunks.skip(i).map_values(f) =~= chunks.map_values(f).skip(i));
    lemma_flatten_concat(chunks.map_values(f).take(i), chunks.map_values(f).skip(i));
    assert(chunks.map_values(f).take(i) + chunks.map_values(f).skip(i) =~= chunks.map_values(f));
}

/// An empty chunk list has no contents.
pub proof fn lemma_flat_of_empty<A>(chunks: Seq<Vec<A>>)
    requires
        chunks.len() == 0,
    ensures
        flat_of(chunks) == Seq::<A>::empty(),
{
    assert(chunks.map_values(|c: Vec<A>| c@) =~= Seq::<Seq<A>>::empty());
    assert(flat_of(chunks) =~= Seq::<A>::empty());
}

/// Taking one more chunk appends that chunk's contents.
pub proof fn lemma_flat_of_take_step<A>(chunks: Seq<Vec<A>>, i: int)
    requires
        0 <= i < chunks.len(),
    ensures
        flat_of(chunks.take(i + 1)) == flat_of(chunks.take(i)) + chunks[i]@,
{
    assert(chunks.take(i + 1) =~= chunks.take(i).push(chunks[i]));
    lemma_flat_of_push(chunks.take(i), chunks[i]);
}

/// The contents of a non-empty chunk list start with its first chunk.
pub proof fn lemma_flat_of_first<A>(chunks: Seq<Vec<A>>)
    requires
        chunks.len() >= 1,
    ensures
        flat_of(chunks) == chunks[0]@ + flat_of(chunks.skip(1)),
{
    let f = |v: Vec<A>| v@;
    assert(chunks.map_values(f) =~= seq![chunks[0]@] + chunks.skip(1).map_values(f));
    lemma_flatten_concat(seq![chunks[0]@], chunks.skip(1).map_values(f));
    seq![chunks[0]@].lemma_flatten_one_element();
    assert(flat_of(chunks) =~= chunks[0]@ + flat_of(chunks.skip(1)));
}

/// The contents of a prefix of the chunk list are no longer than the whole.
pub proof fn lemma_flat_of_take_le<A>(chunks: Seq<Vec<A>>, i: int)
    requires
        0 <= i <= chunks.len(),
    ensures
        flat_of(chunks.take(i)).len() <= flat_of(chunks).len(),
{
    lemma_flat_of_split(chunks, i);
}

/// Splits a sequence into contiguous, non-overlapping chunks of at most
/// `chunk_size` elements that together are exactly the input: no gaps, no
/// overlaps, original order kept.
pub fn chunks_of<A: Copy>(data: &Vec<A>, chunk_size: usize) -> (r: Vec<Vec<A>>)
    requires
        chunk_size >= 1,
    ensures
        flat_of(r@) == data@,
        forall|i: int| 0 <= i < r@.len() ==> 1 <= (#[trigger] r@[i])@.len() <= chunk_size,
{
    let mut out: Vec<Vec<A>> = Vec::new();
    let mut start: usize = 0;
    proof {
        assert(out@.map_values(|c: Vec<A>| c@) =~= Seq::<Seq<A>>::empty());
        assert(flat_of(out@) =~= data@.subrange(0, 0));
    }
    while start < data.len()
        invariant
            chunk_size >= 1,
            start <= data.len(),
            flat_of(out@) == data@.subrange(0, start as int),
            forall|i: int| 0 <= i < out@.len() ==> 1 <= (#[trigger] out@[i])@.len() <= chunk_size,
        decreases data.len() - start,
    {
        let remaining = data.len() - start;
        let take = if remaining > chunk_size {
            chunk_size
        } else {
            remaining
        };
        let mut chunk: Vec<A> = Vec::new();
        let mut j: usize = 0;
        while j < take
            invariant
                start + take <= data.len(),
                j <= take,
                chunk@ == data@.subrange(start as int, start + j as int),
            decreases take - j,
        {
            chunk.push(data[start + j]);
            proof {
                assert(data@.subrange(start as int, start + j + 1 as int) =~= data@.subrange(
                    start as int,
                    start + j as int,
                ).push(data@[start + j]));
            }
            j = j + 1;
        }
        proof {
            lemma_flat_of_push(out@, chunk);
            assert(data@.subrange(0, start as int) + data@.subrange(
                start as int,
                (start + take) as int,
            ) =~= data@.subrange(0, (start + take) as int));
        }
        out.push(chunk);
        start = start + take;
    }
    proof {
        assert(data@.subrange(0, data@.len() as int) =~= data@);
    }
    out
}

/// Concatenates per-chunk results back into one sequence, in chunk order.
pub fn concat_chunks<A>(chunks: Vec<Vec<A>>) -> (r: Vec<A>)
    ensures
        r@ == flat_of(chunks@),
{
    let ghost whole = chunks@;
    let mut rest = chunks;
    let mut out: Vec<A> = Vec::new();
    proof {
        assert(out@ + flat_of(rest@) =~= flat_of(whole));
    }
    while rest.len() > 0
        invariant
            out@ + flat_of(rest@) == flat_of(whole),
        decreases rest.len(),
    {
        let ghost rest0 = rest@;
        proof {
            let f = |v: Vec<A>| v@;
            assert(rest0.map_values(f) =~= seq![rest0[0]@] + rest0.skip(1).map_values(f));
            lemma_flatten_concat(seq![rest0[0]@], rest0.skip(1).map_values(f));
            seq![rest0[0]@].lemma_flatten_one_element();
            assert(flat_of(rest0) =~= rest0[0]@ + flat_of(rest0.skip(1)));
            assert((out@ + rest0[0]@) + flat_of(rest0.skip(1)) =~= out@ + flat_of(rest0));
        }
        let mut c = rest.remove(0);
        proof {
            assert(rest@ =~= rest0.skip(1));
        }
        out.append(&mut c);
    }
    proof {
        assert(flat_of(rest@) =~= Seq::<A>::empty());
        assert(out@ + flat_of(rest@) =~= out@);
    }
    out
}

/// Runs one unit of work per input element on the shared worker pool and
/// collects the results in input order.
///
/// Relies on rayon's indexed parallel iterator over a `Vec`:
/// `into_par_iter().map(f).collect()` calls `f` once per element and, per
/// rayon's documentation of indexed parallel iterators, collects exactly one
/// result per input in the input's order.
#[verifier::external_body]
pub fn par_map<A, B, F>(xs: Vec<A>, f: F) -> (r: Vec<B>) where
    A: Send,
    B: Send,
    F: Fn(A) -> B + Sync + Send,

    requires
        forall|i: int| 0 <= i < xs@.len() ==> call_requires(f, (#[trigger] xs@[i],)),
    ensures
        r@.len() == xs@.len(),
        forall|i: int| 0 <= i < xs@.len() ==> call_ensures(f, (xs@[i],), #[trigger] r@[i]),
{
    xs.into_par_iter().map(|x| f(x)).collect()
}

/// Number of workers in the shared pool.
///
/// Relies on `rayon::current_num_threads`: the global pool is built with at
/// least one thread (a requested count of zero falls back to the machine's
/// available parallelism, itself at least one).
#[verifier::external_body]
pub fn pool_workers() -> (n: usize)
    ensures
        n >= 1,
{
    rayon::current_num_threads()
}

/// Whether an input of the given size is worth processing in parallel.
/// The threshold itself is not: an input of exactly `PARALLEL_THRESHOLD`
/// elements is processed sequentially.
pub fn should_parallelize(data_size: usize) -> (b: bool)
    ensures
        b == (data_size > PARALLEL_THRESHOLD),
{
    data_size > PARALLEL_THRESHOLD
}

/// The chunk size the policy derives from an input size and a worker count:
/// enough chunks to give every worker `CHUNKS_PER_WORKER` of them, but never
/// a chunk smaller than `BASE_CHUNK_SIZE`.
pub open spec fn chunk_size_policy(data_size: int, workers: int) -> int {
    let ideal_chunks = workers * CHUNKS_PER_WORKER;
    let per_chunk = data_size / ideal_chunks;
    if per_chunk > BASE_CHUNK_SIZE {
        per_chunk
    } else {
        BASE_CHUNK_SIZE as int
    }
}

/// Computes the policy's chunk size for a known worker count.
pub fn chunk_size_for(data_size: usize, workers: usize) -> (r: usize)
    requires
        1 <= workers <= usize::MAX / 2,
    ensures
        r == chunk_size_policy(data_size as int, workers as int),
        r >= BASE_CHUNK_SIZE,
{
    let ideal_chunks = workers * CHUNKS_PER_WORKER;
    let per_chunk = data_size / ideal_chunks;
    if per_chunk > BASE_CHUNK_SIZE {
        per_chunk
    } else {
        BASE_CHUNK_SIZE
    }
}

/// Derives a chunk size from the current worker pool: the result is the
/// policy's chunk size for the pool's worker count. The count is capped
/// before the policy runs so that the chunk arithmetic cannot overflow on
/// any pool size.
pub fn determine_chunk_size(data_size: usize) -> (r: usize)
    ensures
        r >= BASE_CHUNK_SIZE,
        exists|w: int| 1 <= w <= 65536 && r == #[trigger] chunk_size_policy(data_size as int, w),
{
    let workers = pool_workers();
    let capped = if workers > 65536 {
        65536
    } else {
        workers
    };
    let r = chunk_size_for(data_size, capped);
    proof {
        assert(1 <= capped as int <= 65536);
        assert(r == chunk_size_policy(data_size as int, capped as int));
    }
    r
}

} // verus!
