//! Scan operator: an element-wise transform over a sequence, optionally
//! filtered by a predicate, in sequential, parallel and chunked-parallel
//! forms. Output order always matches input order, whatever the strategy.
//!
//! The transform and the predicate are caller-supplied functions. Their
//! contracts are stated with `call_requires` / `call_ensures`; when the
//! caller's functions are pure — functions of their argument alone, as the
//! operator demands — the determinism lemmas below pin every variant's
//! output to the same mathematical map and filter.

use vstd::prelude::*;
use crate::parallel::chunks_of;
use crate::parallel::concat_chunks;
use crate::parallel::par_map;
use crate::parallel::flat_of;
use crate::parallel::lemma_flat_of_empty;
use crate::parallel::lemma_flat_of_take_step;
use crate::parallel::determine_chunk_size;
use crate::parallel::should_parallelize;

verus! {

/// What a scan returns: one output element per input element, each a value
/// the transform may return for the corresponding input element.
pub open spec fn scan_rel<F: Fn(i64) -> i64>(
    process: &F,
    input: Seq<i64>,
    output: Seq<i64>,
) -> bool {
    &&& output.len() == input.len()
    &&& forall|i: int|
        0 <= i < input.len() ==> call_ensures(*process, (input[i],), #[trigger] output[i])
}

/// The elements of `s` selected by a mask, in order.
pub open spec fn mask_of(s: Seq<i64>, keep: Seq<bool>) -> Seq<i64>
    recommends
        keep.len() == s.len(),
    decreases s.len(),
{
    if s.len() == 0 {
        Seq::empty()
    } else if keep.len() == s.len() && keep.last() {
        mask_of(s.drop_last(), keep.drop_last()).push(s.last())
    } else {
        mask_of(s.drop_last(), keep.drop_last())
    }
}

/// What a filtered scan returns: for some mask the predicate may have
/// produced, the transform applied to the masked input.
pub open spec fn filter_scan_rel<F: Fn(i64) -> i64, P: Fn(i64) -> bool>(
    process: &F,
    predicate: &P,
    input: Seq<i64>,
    output: Seq<i64>,
) -> bool {
    exists|keep: Seq<bool>|
        #![auto]
        {
            &&& keep.len() == input.len()
            &&& forall|i: int|
                0 <= i < input.len() ==> call_ensures(*predicate, (input[i],), keep[i])
            &&& scan_rel(process, mask_of(input, keep), output)
        }
}

/// Every caller precondition a scan needs: the transform accepts each
/// element of the input.
pub open spec fn scan_pre<F: Fn(i64) -> i64>(process: &F, input: Seq<i64>) -> bool {
    forall|i: int| 0 <= i < input.len() ==> call_requires(*process, (#[trigger] input[i],))
}

/// Every caller precondition a filtered scan needs: the predicate accepts
/// each element, and the transform accepts each element the predicate may
/// keep.
pub open spec fn filter_scan_pre<F: Fn(i64) -> i64, P: Fn(i64) -> bool>(
    process: &F,
    predicate: &P,
    input: Seq<i64>,
) -> bool {
    &&& forall|i: int| 0 <= i < input.len() ==> call_requires(*predicate, (#[trigger] input[i],))
    &&& forall|i: int|
        0 <= i < input.len() && call_ensures(*predicate, (#[trigger] input[i],), true)
            ==> call_requires(*process, (input[i],))
}

/// Sequential scan: applies the transform to every element in order.
pub fn normal_scan<F: Fn(i64) -> i64>(data: &Vec<i64>, process: &F) -> (r: Vec<i64>)
    requires
        scan_pre(process, data@),
    ensures
        scan_rel(process, data@, r@),
{
    let mut out: Vec<i64> = Vec::new();
    let mut i: usize = 0;
    while i < data.len()
        invariant
            scan_pre(process, data@),
            i <= data@.len(),
            out@.len() == i,
            forall|k: int|
                0 <= k < i ==> call_ensures(*process, (data@[k],), #[trigger] out@[k]),
        decreases data@.len() - i,
    {
        let y = (process)(data[i]);
        out.push(y);
        i = i + 1;
    }
    out
}

/// Scan over caller-chosen chunks: each chunk is scanned independently and
/// the chunk outputs are concatenated in original chunk order, so the
/// result is elementwise the same as the unchunked scan's.
pub fn parallel_scan_chunked<F: Fn(i64) -> i64 + Sync + Send>(
    data: &Vec<i64>,
    process: &F,
    chunk_size: usize,
) -> (r: Vec<i64>)
    requires
        chunk_size >= 1,
        scan_pre(process, data@),
    ensures
        scan_rel(process, data@, r@),
{
    let chunks = chunks_of(data, chunk_size);
    let ghost cviews = chunks@;
    proof {
        assert forall|k: int, j: int|
            #![trigger cviews[k]@[j]]
            0 <= k < cviews.len() && 0 <= j < cviews[k]@.len() implies call_requires(
            *process,
            (cviews[k]@[j],),
        ) by {
            crate::parallel::lemma_flat_of_split(cviews, k);
            crate::parallel::lemma_flat_of_first(cviews.skip(k));
            assert(cviews.skip(k)[0] == cviews[k]);
            let off = flat_of(cviews.take(k)).len();
            assert(data@[off + j] == cviews[k]@[j]);
        }
    }
    let f = |c: Vec<i64>| -> (o: Vec<i64>)
        requires
            scan_pre(process, c@),
        ensures
            scan_rel(process, c@, o@),
        { normal_scan(&c, process) };
    let partials = par_map(chunks, f);
    let ghost pviews = partials@;
    proof {
        assert forall|k: int| 0 <= k < cviews.len() implies scan_rel(
            process,
            (#[trigger] cviews[k])@,
            pviews[k]@,
        ) by {
            assert(call_ensures(f, (cviews[k],), pviews[k]));
        }
        lemma_scan_rel_chunks(process, cviews, pviews);
    }
    concat_chunks(partials)
}

/// Chunkwise scan outputs concatenate to a scan output for the whole.
proof fn lemma_scan_rel_chunks<F: Fn(i64) -> i64>(
    process: &F,
    cs: Seq<Vec<i64>>,
    ps: Seq<Vec<i64>>,
)
    requires
        cs.len() == ps.len(),
        forall|k: int| 0 <= k < cs.len() ==> scan_rel(process, (#[trigger] cs[k])@, ps[k]@),
    ensures
        scan_rel(process, flat_of(cs), flat_of(ps)),
    decreases cs.len(),
{
    if cs.len() == 0 {
        lemma_flat_of_empty(cs);
        lemma_flat_of_empty(ps);
    } else {
        let i = cs.len() - 1;
        lemma_scan_rel_chunks(process, cs.take(i), ps.take(i));
        lemma_flat_of_take_step(cs, i);
        lemma_flat_of_take_step(ps, i);
        assert(cs.take(i + 1) =~= cs);
        assert(ps.take(i + 1) =~= ps);
        let a = flat_of(cs.take(i));
        let b = flat_of(ps.take(i));
        assert forall|t: int| 0 <= t < flat_of(cs).len() implies call_ensures(
            *process,
            (flat_of(cs)[t],),
            #[trigger] flat_of(ps)[t],
        ) by {
            if t < a.len() {
                assert(flat_of(cs)[t] == a[t]);
                assert(flat_of(ps)[t] == b[t]);
            } else {
                assert(flat_of(cs)[t] == cs[i]@[t - a.len()]);
                assert(flat_of(ps)[t] == ps[i]@[t - a.len()]);
            }
        }
    }
}

/// Parallel scan: chunks sized by the scheduler.
pub fn parallel_scan<F: Fn(i64) -> i64 + Sync + Send>(data: &Vec<i64>, process: &F) -> (r: Vec<
    i64,
>)
    requires
        scan_pre(process, data@),
    ensures
        scan_rel(process, data@, r@),
{
    let chunk_size = determine_chunk_size(data.len());
    parallel_scan_chunked(data, process, chunk_size)
}

/// Picks sequential or chunked-parallel scanning from the input size.
pub fn adaptive_scan<F: Fn(i64) -> i64 + Sync + Send>(data: &Vec<i64>, process: &F) -> (r: Vec<
    i64,
>)
    requires
        scan_pre(process, data@),
    ensures
        scan_rel(process, data@, r@),
{
    if should_parallelize(data.len()) {
        let chunk_size = determine_chunk_size(data.len());
        parallel_scan_chunked(data, process, chunk_size)
    } else {
        normal_scan(data, process)
    }
}

/// Sequential filtered scan: keeps the elements the predicate accepts,
/// in order, and transforms each kept element.
pub fn normal_scan_with_filter<F: Fn(i64) -> i64, P: Fn(i64) -> bool>(
    data: &Vec<i64>,
    process: &F,
    predicate: &P,
) -> (r: Vec<i64>)
    requires
        filter_scan_pre(process, predicate, data@),
    ensures
        filter_scan_rel(process, predicate, data@, r@),
{
    let mut out: Vec<i64> = Vec::new();
    let ghost mut keep: Seq<bool> = Seq::empty();
    let mut i: usize = 0;
    while i < data.len()
        invariant
            filter_scan_pre(process, predicate, data@),
            i <= data@.len(),
            keep.len() == i,
            forall|k: int|
                0 <= k < i ==> call_ensures(*predicate, (data@[k],), #[trigger] keep[k]),
            scan_rel(process, mask_of(data@.take(i as int), keep), out@),
        decreases data@.len() - i,
    {
        let x = data[i];
        let c = (predicate)(x);
        proof {
            assert(data@.take(i + 1 as int).drop_last() =~= data@.take(i as int));
            assert(keep.push(c).drop_last() =~= keep);
            assert(data@.take(i + 1 as int).last() == x);
        }
        if c {
            let y = (process)(x);
            out.push(y);
            proof {
                let m0 = mask_of(data@.take(i as int), keep);
                assert(mask_of(data@.take(i + 1 as int), keep.push(c)) =~= m0.push(x));
            }
        }
        proof {
            keep = keep.push(c);
        }
        i = i + 1;
    }
    proof {
        assert(data@.take(data@.len() as int) =~= data@);
    }
    out
}

/// Masks over a split input select the concatenation of the parts.
proof fn lemma_mask_of_concat(a: Seq<i64>, b: Seq<i64>, ka: Seq<bool>, kb: Seq<bool>)
    requires
        ka.len() == a.len(),
        kb.len() == b.len(),
    ensures
        mask_of(a + b, ka + kb) == mask_of(a, ka) + mask_of(b, kb),
    decreases b.len(),
{
    if b.len() == 0 {
        assert(a + b =~= a);
        assert(ka + kb =~= ka);
        assert(mask_of(a, ka) + mask_of(b, kb) =~= mask_of(a, ka));
    } else {
        assert((a + b).drop_last() =~= a + b.drop_last());
        assert((ka + kb).drop_last() =~= ka + kb.drop_last());
        lemma_mask_of_concat(a, b.drop_last(), ka, kb.drop_last());
        assert((a + b).last() == b.last());
        assert((ka + kb).last() == kb.last());
        if kb.last() {
            assert(mask_of(a, ka) + mask_of(b, kb) =~= mask_of(a, ka) + mask_of(
                b.drop_last(),
                kb.drop_last(),
            ).push(b.last()));
        }
    }
}

/// Chunkwise filtered-scan outputs concatenate to a filtered-scan output
/// for the whole.
proof fn lemma_filter_scan_rel_chunks<F: Fn(i64) -> i64, P: Fn(i64) -> bool>(
    process: &F,
    predicate: &P,
    cs: Seq<Vec<i64>>,
    ps: Seq<Vec<i64>>,
)
    requires
        cs.len() == ps.len(),
        forall|k: int|
            0 <= k < cs.len() ==> filter_scan_rel(
                process,
                predicate,
                (#[trigger] cs[k])@,
                ps[k]@,
            ),
    ensures
        filter_scan_rel(process, predicate, flat_of(cs), flat_of(ps)),
    decreases cs.len(),
{
    if cs.len() == 0 {
        lemma_flat_of_empty(cs);
        lemma_flat_of_empty(ps);
        let keep = Seq::<bool>::empty();
        assert(keep.len() == flat_of(cs).len());
        assert(mask_of(flat_of(cs), keep) =~= Seq::<i64>::empty());
        assert(scan_rel(process, mask_of(flat_of(cs), keep), flat_of(ps)));
    } else {
        let i = cs.len() - 1;
        lemma_filter_scan_rel_chunks(process, predicate, cs.take(i), ps.take(i));
        lemma_flat_of_take_step(cs, i);
        lemma_flat_of_take_step(ps, i);
        assert(cs.take(i + 1) =~= cs);
        assert(ps.take(i + 1) =~= ps);
        let a = flat_of(cs.take(i));
        let b = flat_of(ps.take(i));
        let ka = choose|keep: Seq<bool>|
            #![auto]
            {
                &&& keep.len() == a.len()
                &&& forall|t: int| 0 <= t < a.len() ==> call_ensures(*predicate, (a[t],), keep[t])
                &&& scan_rel(process, mask_of(a, keep), b)
            };
        let kl = choose|keep: Seq<bool>|
            #![auto]
            {
                &&& keep.len() == cs[i]@.len()
                &&& forall|t: int|
                    0 <= t < cs[i]@.len() ==> call_ensures(*predicate, (cs[i]@[t],), keep[t])
                &&& scan_rel(process, mask_of(cs[i]@, keep), ps[i]@)
            };
        let keep = ka + kl;
        lemma_mask_of_concat(a, cs[i]@, ka, kl);
        assert forall|t: int| 0 <= t < flat_of(cs).len() implies call_ensures(
            *predicate,
            (flat_of(cs)[t],),
            #[trigger] keep[t],
        ) by {
            if t < a.len() {
                assert(flat_of(cs)[t] == a[t]);
                assert(keep[t] == ka[t]);
            } else {
                assert(flat_of(cs)[t] == cs[i]@[t - a.len()]);
                assert(keep[t] == kl[t - a.len()]);
            }
        }
        let ma = mask_of(a, ka);
        let ml = mask_of(cs[i]@, kl);
        assert forall|t: int| 0 <= t < (ma + ml).len() implies call_ensures(
            *process,
            ((ma + ml)[t],),
            #[trigger] flat_of(ps)[t],
        ) by {
            if t < ma.len() {
                assert((ma + ml)[t] == ma[t]);
                assert(flat_of(ps)[t] == b[t]);
            } else {
                assert((ma + ml)[t] == ml[t - ma.len()]);
                assert(flat_of(ps)[t] == ps[i]@[t - b.len()]);
            }
        }
        assert(scan_rel(process, mask_of(flat_of(cs), keep), flat_of(ps)));
    }
}

/// Filtered scan over caller-chosen chunks: chunk outputs concatenate in
/// original chunk order.
pub fn parallel_scan_chunked_with_filter<
    F: Fn(i64) -> i64 + Sync + Send,
    P: Fn(i64) -> bool + Sync + Send,
>(data: &Vec<i64>, process: &F, predicate: &P, chunk_size: usize) -> (r: Vec<i64>)
    requires
        chunk_size >= 1,
        filter_scan_pre(process, predicate, data@),
    ensures
        filter_scan_rel(process, predicate, data@, r@),
{
    let chunks = chunks_of(data, chunk_size);
    let ghost cviews = chunks@;
    proof {
        assert forall|k: int, j: int|
            #![trigger cviews[k]@[j]]
            0 <= k < cviews.len() && 0 <= j < cviews[k]@.len() implies call_requires(
            *predicate,
            (cviews[k]@[j],),
        ) && (call_ensures(*predicate, (cviews[k]@[j],), true) ==> call_requires(
            *process,
            (cviews[k]@[j],),
        )) by {
            crate::parallel::lemma_flat_of_split(cviews, k);
            crate::parallel::lemma_flat_of_first(cviews.skip(k));
            assert(cviews.skip(k)[0] == cviews[k]);
            let off = flat_of(cviews.take(k)).len();
            assert(data@[off + j] == cviews[k]@[j]);
        }
    }
    let f = |c: Vec<i64>| -> (o: Vec<i64>)
        requires
            filter_scan_pre(process, predicate, c@),
        ensures
            filter_scan_rel(process, predicate, c@, o@),
        { normal_scan_with_filter(&c, process, predicate) };
    let partials = par_map(chunks, f);
    let ghost pviews = partials@;
    proof {
        assert forall|k: int| 0 <= k < cviews.len() implies filter_scan_rel(
            process,
            predicate,
            (#[trigger] cviews[k])@,
            pviews[k]@,
        ) by {
            assert(call_ensures(f, (cviews[k],), pviews[k]));
        }
        lemma_filter_scan_rel_chunks(process, predicate, cviews, pviews);
    }
    concat_chunks(partials)
}

/// Parallel filtered scan: chunks sized by the scheduler.
pub fn parallel_scan_with_filter<
    F: Fn(i64) -> i64 + Sync + Send,
    P: Fn(i64) -> bool + Sync + Send,
>(data: &Vec<i64>, process: &F, predicate: &P) -> (r: Vec<i64>)
    requires
        filter_scan_pre(process, predicate, data@),
    ensures
        filter_scan_rel(process, predicate, data@, r@),
{
    let chunk_size = determine_chunk_size(data.len());
    parallel_scan_chunked_with_filter(data, process, predicate, chunk_size)
}

/// Picks sequential or chunked-parallel filtered scanning from the size.
pub fn adaptive_scan_with_filter<
    F: Fn(i64) -> i64 + Sync + Send,
    P: Fn(i64) -> bool + Sync + Send,
>(data: &Vec<i64>, process: &F, predicate: &P) -> (r: Vec<i64>)
    requires
        filter_scan_pre(process, predicate, data@),
    ensures
        filter_scan_rel(process, predicate, data@, r@),
{
    if should_parallelize(data.len()) {
        let chunk_size = determine_chunk_size(data.len());
        parallel_scan_chunked_with_filter(data, process, predicate, chunk_size)
    } else {
        normal_scan_with_filter(data, process, predicate)
    }
}

/// When the transform is a function of its argument alone, every scan
/// variant's output is the pointwise image of the input — so sequential,
/// parallel and chunked scans all return the same sequence.
pub proof fn lemma_scan_deterministic<F: Fn(i64) -> i64>(
    process: &F,
    g: spec_fn(i64) -> i64,
    input: Seq<i64>,
    output: Seq<i64>,
)
    requires
        forall|x: i64, y: i64| call_ensures(*process, (x,), y) ==> y == g(x),
        scan_rel(process, input, output),
    ensures
        output == input.map_values(g),
{
    assert(output =~= input.map_values(g));
}

/// When the transform and the predicate are both functions of their
/// argument alone, every filtered-scan variant's output is the pointwise
/// image of the filtered input — so all variants return the same sequence.
pub proof fn lemma_filter_scan_deterministic<F: Fn(i64) -> i64, P: Fn(i64) -> bool>(
    process: &F,
    predicate: &P,
    g: spec_fn(i64) -> i64,
    p: spec_fn(i64) -> bool,
    input: Seq<i64>,
    output: Seq<i64>,
)
    requires
        forall|x: i64, y: i64| call_ensures(*process, (x,), y) ==> y == g(x),
        forall|x: i64, b: bool| call_ensures(*predicate, (x,), b) ==> b == p(x),
        filter_scan_rel(process, predicate, input, output),
    ensures
        output == input.filter(p).map_values(g),
{
    let keep = choose|keep: Seq<bool>|
        #![auto]
        {
            &&& keep.len() == input.len()
            &&& forall|i: int|
                0 <= i < input.len() ==> call_ensures(*predicate, (input[i],), keep[i])
            &&& scan_rel(process, mask_of(input, keep), output)
        };
    lemma_mask_is_filter(input, keep, p);
    lemma_scan_deterministic(process, g, mask_of(input, keep), output);
}

/// A mask that agrees with a predicate selects exactly the predicate's
/// filter.
proof fn lemma_mask_is_filter(s: Seq<i64>, keep: Seq<bool>, p: spec_fn(i64) -> bool)
    requires
        keep.len() == s.len(),
        forall|i: int| 0 <= i < s.len() ==> #[trigger] keep[i] == p(s[i]),
    ensures
        mask_of(s, keep) == s.filter(p),
    decreases s.len(),
{
    reveal(Seq::filter);
    if s.len() == 0 {
        assert(mask_of(s, keep) =~= s.filter(p));
    } else {
        assert forall|i: int| 0 <= i < s.drop_last().len() implies #[trigger] keep.drop_last()[i]
            == p(s.drop_last()[i]) by {
            assert(keep.drop_last()[i] == keep[i]);
            assert(s.drop_last()[i] == s[i]);
        }
        lemma_mask_is_filter(s.drop_last(), keep.drop_last(), p);
        assert(keep.last() == p(s.last()));
        if keep.last() {
            assert(mask_of(s, keep) =~= mask_of(s.drop_last(), keep.drop_last()).push(s.last()));
            assert(s.filter(p) =~= s.drop_last().filter(p).push(s.last()));
        } else {
            assert(mask_of(s, keep) =~= mask_of(s.drop_last(), keep.drop_last()));
            assert(s.filter(p) =~= s.drop_last().filter(p));
        }
    }
}

} // verus!
