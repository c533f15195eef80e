//! Join operators: hash join (build a key-to-rows map from the left side,
//! probe it with the right side) and sort-merge join (two cursors over
//! pre-sorted inputs), each sequential and parallel. Both parallel forms
//! return exactly the sequential result.

use vstd::prelude::*;
use std::collections::HashMap;
use crate::parallel::par_map;
use crate::parallel::flat_of;
use crate::parallel::lemma_flat_of_empty;
use crate::parallel::lemma_flat_of_take_step;
use crate::parallel::lemma_flat_of_split;
use crate::parallel::lemma_flat_of_first;
use crate::parallel::lemma_flat_of_push;
use crate::parallel::determine_chunk_size;

verus! {

/// A keyed row: an integer join key and a string payload.
#[derive(Debug, PartialEq, Eq, Hash)]
pub struct Record {
    pub id: i64,
    pub value: String,
}

impl Clone for Record {
    /// A clone is the same record.
    fn clone(&self) -> (r: Self)
        ensures
            r == *self,
    {
        Record { id: self.id, value: self.value.clone() }
    }
}

/// Rows with a given join key.
pub open spec fn has_id(k: i64) -> spec_fn(Record) -> bool {
    |r: Record| r.id == k
}

/// The left rows matching a key, in left order.
pub open spec fn bucket_of(left: Seq<Record>, k: i64) -> Seq<Record> {
    left.filter(has_id(k))
}

/// Pairs a left row with a fixed right row.
pub open spec fn with_right(r: Record) -> spec_fn(Record) -> (Record, Record) {
    |l: Record| (l, r)
}

/// Pairs a right row with a fixed left row.
pub open spec fn with_left(l: Record) -> spec_fn(Record) -> (Record, Record) {
    |r: Record| (l, r)
}

/// The output rows one right row contributes to a hash join: one pair per
/// matching left row, left rows in left order, left before right in the pair.
pub open spec fn hash_matches_of(left: Seq<Record>, r: Record) -> Seq<(Record, Record)> {
    bucket_of(left, r.id).map_values(with_right(r))
}

/// What a hash join returns: for each right row in right order, the pairs
/// it contributes.
pub open spec fn hash_join_of(left: Seq<Record>, right: Seq<Record>) -> Seq<(Record, Record)>
    decreases right.len(),
{
    if right.len() == 0 {
        Seq::empty()
    } else {
        hash_join_of(left, right.drop_last()) + hash_matches_of(left, right.last())
    }
}

/// The rows a built hash map holds for a key.
pub open spec fn map_bucket(m: Map<i64, Vec<Record>>, k: i64) -> Seq<Record> {
    if m.contains_key(k) {
        m[k]@
    } else {
        Seq::empty()
    }
}

/// A built hash map models a left side: every key maps to exactly the left
/// rows with that key, in left order, and only keys that occur are present.
pub open spec fn map_models(m: Map<i64, Vec<Record>>, left: Seq<Record>) -> bool {
    &&& forall|k: i64| #[trigger] m.contains_key(k) ==> m[k]@.len() != 0
    &&& forall|k: i64| #[trigger] map_bucket(m, k) == bucket_of(left, k)
}

/// What probing a map with a right side yields: for each right row in
/// order, its key's bucket paired with it.
pub open spec fn probe_of(m: Map<i64, Vec<Record>>, right: Seq<Record>) -> Seq<(Record, Record)>
    decreases right.len(),
{
    if right.len() == 0 {
        Seq::empty()
    } else {
        probe_of(m, right.drop_last()) + map_bucket(m, right.last().id).map_values(
            with_right(right.last()),
        )
    }
}

/// Probing a map that models a left side yields that side's hash join.
proof fn lemma_probe_models(m: Map<i64, Vec<Record>>, left: Seq<Record>, right: Seq<Record>)
    requires
        map_models(m, left),
    ensures
        probe_of(m, right) == hash_join_of(left, right),
    decreases right.len(),
{
    if right.len() != 0 {
        lemma_probe_models(m, left, right.drop_last());
        assert(map_bucket(m, right.last().id) == bucket_of(left, right.last().id));
    }
}

/// Appending one row to a sequence extends or keeps each key's bucket.
proof fn lemma_bucket_push(s: Seq<Record>, rec: Record, k: i64)
    ensures
        bucket_of(s.push(rec), k) == (if rec.id == k {
            bucket_of(s, k).push(rec)
        } else {
            bucket_of(s, k)
        }),
{
    reveal(Seq::filter);
    assert(s.push(rec).drop_last() =~= s);
    assert(s.push(rec).last() == rec);
    if rec.id == k {
        assert(bucket_of(s.push(rec), k) =~= bucket_of(s, k).push(rec));
    } else {
        assert(bucket_of(s.push(rec), k) =~= bucket_of(s, k));
    }
}

/// No row of an empty sequence matches any key.
proof fn lemma_bucket_empty(k: i64)
    ensures
        bucket_of(Seq::<Record>::empty(), k) == Seq::<Record>::empty(),
{
    reveal(Seq::filter);
}

/// Build phase: a map from each key on the left side to the list of left
/// rows carrying it, duplicates preserved in left order.
fn build_hash_map(left: &Vec<Record>) -> (m: HashMap<i64, Vec<Record>>)
    ensures
        map_models(m@, left@),
{
    let mut m: HashMap<i64, Vec<Record>> = HashMap::new();
    let mut i: usize = 0;
    proof {
        assert(left@.take(0) =~= Seq::<Record>::empty());
        assert forall|k: i64| #[trigger] map_bucket(m@, k) == bucket_of(left@.take(0), k) by {
            lemma_bucket_empty(k);
        }
    }
    while i < left.len()
        invariant
            i <= left@.len(),
            map_models(m@, left@.take(i as int)),
        decreases left@.len() - i,
    {
        let ghost m0 = m@;
        let ghost lp = left@.take(i as int);
        let rec = left[i].clone();
        let k = rec.id;
        let mut bucket = match m.remove(&k) {
            Some(b) => b,
            None => Vec::new(),
        };
        proof {
            assert(map_bucket(m0, k) == bucket_of(lp, k));
            assert(bucket@ == bucket_of(lp, k));
        }
        bucket.push(rec);
        m.insert(k, bucket);
        proof {
            assert(left@.take(i + 1 as int) =~= lp.push(left@[i as int]));
            assert forall|k2: i64| #[trigger] map_bucket(m@, k2) == bucket_of(
                left@.take(i + 1 as int),
                k2,
            ) by {
                lemma_bucket_push(lp, left@[i as int], k2);
                if k2 == k {
                    assert(m@.contains_key(k2));
                    assert(m@[k2]@ == bucket_of(lp, k).push(left@[i as int]));
                } else {
                    assert(m@.contains_key(k2) == m0.contains_key(k2));
                    if m@.contains_key(k2) {
                        assert(m@[k2] == m0[k2]);
                    }
                    assert(map_bucket(m@, k2) == map_bucket(m0, k2));
                }
            }
            assert forall|k2: i64| #[trigger] m@.contains_key(k2) implies m@[k2]@.len() != 0 by {
                if k2 != k {
                    assert(m0.contains_key(k2));
                }
            }
        }
        i = i + 1;
    }
    proof {
        assert(left@.take(left@.len() as int) =~= left@);
    }
    m
}

/// One more right row contributes its key's pairs.
proof fn lemma_probe_step(m: Map<i64, Vec<Record>>, right: Seq<Record>, j: int)
    requires
        0 <= j < right.len(),
    ensures
        probe_of(m, right.take(j + 1)) == probe_of(m, right.take(j)) + map_bucket(
            m,
            right[j].id,
        ).map_values(with_right(right[j])),
{
    assert(right.take(j + 1).drop_last() =~= right.take(j));
    assert(right.take(j + 1).last() == right[j]);
}

/// Probe phase: walks the right side in order and emits, for each right
/// row whose key is present, one pair per matching left row.
fn probe_hash_map(m: &HashMap<i64, Vec<Record>>, right: &Vec<Record>) -> (out: Vec<
    (Record, Record),
>)
    ensures
        out@ == probe_of(m@, right@),
{
    let mut out: Vec<(Record, Record)> = Vec::new();
    let mut j: usize = 0;
    proof {
        assert(right@.take(0) =~= Seq::<Record>::empty());
        assert(out@ =~= probe_of(m@, right@.take(0)));
    }
    while j < right.len()
        invariant
            j <= right@.len(),
            out@ == probe_of(m@, right@.take(j as int)),
        decreases right@.len() - j,
    {
        let ghost rj = right@[j as int];
        let k = right[j].id;
        match m.get(&k) {
            Some(bucket) => {
                let ghost b = bucket@;
                proof {
                    assert(b == map_bucket(m@, rj.id));
                }
                let mut t: usize = 0;
                proof {
                    assert(b.take(0) =~= Seq::<Record>::empty());
                    assert(b.take(0).map_values(with_right(rj)) =~= Seq::<(Record, Record)>::empty());
                    assert(out@ + b.take(0).map_values(with_right(rj)) =~= out@);
                }
                let ghost out0 = out@;
                while t < bucket.len()
                    invariant
                        t <= b.len(),
                        bucket@ == b,
                        j < right@.len(),
                        rj == right@[j as int],
                        out@ == out0 + b.take(t as int).map_values(with_right(rj)),
                    decreases b.len() - t,
                {
                    let l = bucket[t].clone();
                    let r = right[j].clone();
                    proof {
                        assert(b.take(t + 1 as int) =~= b.take(t as int).push(b[t as int]));
                        assert(b.take(t + 1 as int).map_values(with_right(rj)) =~= b.take(
                            t as int,
                        ).map_values(with_right(rj)).push((b[t as int], rj)));
                    }
                    out.push((l, r));
                    t = t + 1;
                }
                proof {
                    assert(b.take(b.len() as int) =~= b);
                    lemma_probe_step(m@, right@, j as int);
                }
            },
            None => {
                proof {
                    assert(map_bucket(m@, rj.id) == Seq::<Record>::empty());
                    assert(map_bucket(m@, rj.id).map_values(with_right(rj)) =~= Seq::<
                        (Record, Record),
                    >::empty());
                    lemma_probe_step(m@, right@, j as int);
                    assert(out@ =~= probe_of(m@, right@.take(j + 1 as int)));
                }
            },
        }
        j = j + 1;
    }
    proof {
        assert(right@.take(right@.len() as int) =~= right@);
    }
    out
}

/// Sequential hash join: build once from the left side, probe with every
/// right row in order. Inner ordering is right-iteration order crossed with
/// left-bucket order.
pub fn sequential_hash_join(left: &Vec<Record>, right: &Vec<Record>) -> (out: Vec<
    (Record, Record),
>)
    ensures
        out@ == hash_join_of(left@, right@),
{
    let m = build_hash_map(left);
    let out = probe_hash_map(&m, right);
    proof {
        lemma_probe_models(m@, left@, right@);
    }
    out
}

/// Probing a split right side concatenates the parts' probes.
proof fn lemma_probe_concat(m: Map<i64, Vec<Record>>, a: Seq<Record>, b: Seq<Record>)
    ensures
        probe_of(m, a + b) == probe_of(m, a) + probe_of(m, b),
    decreases b.len(),
{
    if b.len() == 0 {
        assert(a + b =~= a);
        assert(probe_of(m, a) + probe_of(m, b) =~= probe_of(m, a));
    } else {
        assert((a + b).drop_last() =~= a + b.drop_last());
        lemma_probe_concat(m, a, b.drop_last());
        assert((a + b).last() == b.last());
        assert(probe_of(m, a) + probe_of(m, b) =~= probe_of(m, a) + (probe_of(m, b.drop_last())
            + map_bucket(m, b.last().id).map_values(with_right(b.last()))));
    }
}

/// Chunkwise probes concatenate to the whole right side's probe.
proof fn lemma_probe_chunks(m: Map<i64, Vec<Record>>, cs: Seq<Vec<Record>>, ps: Seq<
    Vec<(Record, Record)>,
>)
    requires
        cs.len() == ps.len(),
        forall|k: int| 0 <= k < cs.len() ==> (#[trigger] ps[k])@ == probe_of(m, cs[k]@),
    ensures
        flat_of(ps) == probe_of(m, flat_of(cs)),
    decreases cs.len(),
{
    if cs.len() == 0 {
        lemma_flat_of_empty(cs);
        lemma_flat_of_empty(ps);
    } else {
        let i = cs.len() - 1;
        lemma_probe_chunks(m, cs.take(i), ps.take(i));
        lemma_flat_of_take_step(cs, i);
        lemma_flat_of_take_step(ps, i);
        assert(cs.take(i + 1) =~= cs);
        assert(ps.take(i + 1) =~= ps);
        lemma_probe_concat(m, flat_of(cs.take(i)), cs[i]@);
    }
}

/// Splits a sequence of rows into contiguous chunks, cloning each row.
fn record_chunks(data: &Vec<Record>, chunk_size: usize) -> (r: Vec<Vec<Record>>)
    requires
        chunk_size >= 1,
    ensures
        flat_of(r@) == data@,
        forall|i: int| 0 <= i < r@.len() ==> 1 <= (#[trigger] r@[i])@.len() <= chunk_size,
{
    let mut out: Vec<Vec<Record>> = Vec::new();
    let mut start: usize = 0;
    proof {
        assert(out@.map_values(|c: Vec<Record>| c@) =~= Seq::<Seq<Record>>::empty());
        assert(flat_of(out@) =~= data@.subrange(0, 0));
    }
    while start < data.len()
        invariant
            chunk_size >= 1,
            start <= data.len(),
            flat_of(out@) == data@.subrange(0, start as int),
            forall|i: int| 0 <= i < out@.len() ==> 1 <= (#[trigger] out@[i])@.len() <= chunk_size,
        decreases data.len() - start,
    {
        let remaining = data.len() - start;
        let take = if remaining > chunk_size {
            chunk_size
        } else {
            remaining
        };
        let mut chunk: Vec<Record> = Vec::new();
        let mut j: usize = 0;
        while j < take
            invariant
                start + take <= data.len(),
                j <= take,
                chunk@ == data@.subrange(start as int, start + j as int),
            decreases take - j,
        {
            chunk.push(data[start + j].clone());
            proof {
                assert(data@.subrange(start as int, start + j + 1 as int) =~= data@.subrange(
                    start as int,
                    start + j as int,
                ).push(data@[start + j]));
            }
            j = j + 1;
        }
        proof {
            lemma_flat_of_push(out@, chunk);
            assert(data@.subrange(0, start as int) + data@.subrange(
                start as int,
                (start + take) as int,
            ) =~= data@.subrange(0, (start + take) as int));
        }
        out.push(chunk);
        start = start + take;
    }
    proof {
        assert(data@.subrange(0, data@.len() as int) =~= data@);
    }
    out
}

/// Hash join over caller-chosen right-side chunks: the map is built once
/// and shared read-only; each chunk is probed independently and the chunk
/// outputs concatenate in right order, so the result equals the sequential
/// join's for every chunk size.
pub fn chunked_hash_join(left: &Vec<Record>, right: &Vec<Record>, chunk_size: usize) -> (out: Vec<
    (Record, Record),
>)
    requires
        chunk_size >= 1,
    ensures
        out@ == hash_join_of(left@, right@),
{
    let m = build_hash_map(left);
    let chunks = record_chunks(right, chunk_size);
    let ghost cviews = chunks@;
    let mref = &m;
    let f = |c: Vec<Record>| -> (o: Vec<(Record, Record)>)
        ensures
            o@ == probe_of(mref@, c@),
        { probe_hash_map(mref, &c) };
    let partials = par_map(chunks, f);
    let ghost pviews = partials@;
    proof {
        assert forall|k: int| 0 <= k < cviews.len() implies (#[trigger] pviews[k])@ == probe_of(
            m@,
            cviews[k]@,
        ) by {
            assert(call_ensures(f, (cviews[k],), pviews[k]));
        }
        lemma_probe_chunks(m@, cviews, pviews);
        lemma_probe_models(m@, left@, right@);
    }
    crate::parallel::concat_chunks(partials)
}

/// Parallel hash join: right-side chunks sized by the scheduler.
pub fn parallel_hash_join(left: &Vec<Record>, right: &Vec<Record>) -> (out: Vec<(Record, Record)>)
    ensures
        out@ == hash_join_of(left@, right@),
{
    let chunk_size = determine_chunk_size(right.len());
    chunked_hash_join(left, right, chunk_size)
}

/// Rows in ascending key order; duplicate keys may repeat.
pub open spec fn sorted_ids(s: Seq<Record>) -> bool {
    forall|i: int, j: int|
        #![trigger s[i].id, s[j].id]
        0 <= i < j < s.len() ==> s[i].id <= s[j].id
}

/// The output rows one left row contributes to a merge join: one pair per
/// matching right row, right rows in right order.
pub open spec fn left_matches_of(right: Seq<Record>, l: Record) -> Seq<(Record, Record)> {
    right.filter(has_id(l.id)).map_values(with_left(l))
}

/// What a sort-merge join returns: for each left row in left order, the
/// pairs it contributes.
pub open spec fn merge_join_of(left: Seq<Record>, right: Seq<Record>) -> Seq<(Record, Record)>
    decreases left.len(),
{
    if left.len() == 0 {
        Seq::empty()
    } else {
        merge_join_of(left.drop_last(), right) + left_matches_of(right, left.last())
    }
}

/// One more left row contributes its matches.
proof fn lemma_merge_join_step(left: Seq<Record>, right: Seq<Record>, i: int)
    requires
        0 <= i < left.len(),
    ensures
        merge_join_of(left.take(i + 1), right) == merge_join_of(left.take(i), right)
            + left_matches_of(right, left[i]),
{
    assert(left.take(i + 1).drop_last() =~= left.take(i));
    assert(left.take(i + 1).last() == left[i]);
}

/// In a sequence whose rows with a given key form exactly the index range
/// `[j, k)`, the filter for that key is that contiguous run.
proof fn lemma_filter_is_run(right: Seq<Record>, id: i64, j: int, k: int)
    requires
        0 <= j <= k <= right.len(),
        forall|m: int| 0 <= m < j ==> (#[trigger] right[m]).id != id,
        forall|m: int| j <= m < k ==> (#[trigger] right[m]).id == id,
        forall|m: int| k <= m < right.len() ==> (#[trigger] right[m]).id != id,
    ensures
        right.filter(has_id(id)) == right.subrange(j, k),
    decreases right.len(),
{
    reveal(Seq::filter);
    if right.len() == 0 {
        assert(right.filter(has_id(id)) =~= right.subrange(j, k));
    } else {
        let rest = right.drop_last();
        if k == right.len() && j < k {
            lemma_filter_is_run(rest, id, j, k - 1);
            assert(right.subrange(j, k) =~= rest.subrange(j, k - 1).push(right.last()));
            assert(right.filter(has_id(id)) =~= rest.filter(has_id(id)).push(right.last()));
        } else if k == right.len() {
            lemma_filter_is_run(rest, id, j - 1, k - 1);
            assert(rest.subrange(j - 1, k - 1) =~= right.subrange(j, k));
            assert(right.filter(has_id(id)) =~= rest.filter(has_id(id)));
        } else {
            lemma_filter_is_run(rest, id, j, k);
            assert(rest.subrange(j, k) =~= right.subrange(j, k));
            assert(right.filter(has_id(id)) =~= rest.filter(has_id(id)));
        }
    }
}

/// Sequential sort-merge join. Both inputs must be pre-sorted ascending by
/// key — that is the caller's responsibility. Two cursors advance; on a key
/// match the full equal-key run on the right is emitted against the current
/// left row before the left cursor moves, so duplicate keys on either side
/// produce the full cross-product of their runs.
pub fn sequential_merge_join(left: &Vec<Record>, right: &Vec<Record>) -> (out: Vec<
    (Record, Record),
>)
    requires
        sorted_ids(left@),
        sorted_ids(right@),
    ensures
        out@ == merge_join_of(left@, right@),
{
    let mut out: Vec<(Record, Record)> = Vec::new();
    let mut i: usize = 0;
    let mut j: usize = 0;
    proof {
        assert(left@.take(0) =~= Seq::<Record>::empty());
        assert(out@ =~= merge_join_of(left@.take(0), right@));
    }
    while i < left.len()
        invariant
            sorted_ids(left@),
            sorted_ids(right@),
            i <= left@.len(),
            j <= right@.len(),
            out@ == merge_join_of(left@.take(i as int), right@),
            i < left@.len() ==> forall|m: int| 0 <= m < j ==> (#[trigger] right@[m]).id
                < left@[i as int].id,
        decreases left@.len() - i,
    {
        let lid = left[i].id;
        while j < right.len() && right[j].id < lid
            invariant
                i < left@.len(),
                lid == left@[i as int].id,
                sorted_ids(right@),
                j <= right@.len(),
                forall|m: int| 0 <= m < j ==> (#[trigger] right@[m]).id < lid,
            decreases right@.len() - j,
        {
            j = j + 1;
        }
        let mut k = j;
        let ghost out0 = out@;
        while k < right.len() && right[k].id == lid
            invariant
                i < left@.len(),
                lid == left@[i as int].id,
                j <= k <= right@.len(),
                forall|m: int| j <= m < k ==> (#[trigger] right@[m]).id == lid,
                out@ == out0 + right@.subrange(j as int, k as int).map_values(
                    with_left(left@[i as int]),
                ),
            decreases right@.len() - k,
        {
            let l = left[i].clone();
            let r = right[k].clone();
            proof {
                assert(right@.subrange(j as int, k + 1 as int) =~= right@.subrange(
                    j as int,
                    k as int,
                ).push(right@[k as int]));
                assert(right@.subrange(j as int, k + 1 as int).map_values(
                    with_left(left@[i as int]),
                ) =~= right@.subrange(j as int, k as int).map_values(
                    with_left(left@[i as int]),
                ).push((left@[i as int], right@[k as int])));
            }
            out.push((l, r));
            k = k + 1;
        }
        proof {
            assert forall|m: int| k <= m < right@.len() implies (#[trigger] right@[m]).id
                != lid by {
                if k as int == j as int {
                    assert(right@[m].id >= right@[k as int].id);
                } else {
                    assert(right@[k - 1 as int].id == lid);
                    assert(right@[m].id >= right@[k - 1 as int].id);
                    if right@[m].id == lid {
                        if m > k as int {
                            assert(right@[k as int].id <= right@[m].id);
                            assert(right@[k as int].id >= right@[k - 1 as int].id);
                        }
                        assert(false);
                    }
                }
            }
            lemma_filter_is_run(right@, lid, j as int, k as int);
            lemma_merge_join_step(left@, right@, i as int);
        }
        i = i + 1;
    }
    proof {
        assert(left@.take(left@.len() as int) =~= left@);
    }
    out
}

/// A contiguous chunk of a key-sorted sequence is key-sorted.
proof fn lemma_chunk_sorted(cs: Seq<Vec<Record>>, k: int)
    requires
        sorted_ids(flat_of(cs)),
        0 <= k < cs.len(),
    ensures
        sorted_ids(cs[k]@),
{
    lemma_flat_of_split(cs, k);
    lemma_flat_of_first(cs.skip(k));
    assert(cs.skip(k)[0] == cs[k]);
    let off = flat_of(cs.take(k)).len();
    assert forall|a: int, b: int|
        #![trigger cs[k]@[a].id, cs[k]@[b].id]
        0 <= a < b < cs[k]@.len() implies cs[k]@[a].id <= cs[k]@[b].id by {
        assert(flat_of(cs)[off + a] == cs[k]@[a]);
        assert(flat_of(cs)[off + b] == cs[k]@[b]);
        assert(flat_of(cs)[off + a].id <= flat_of(cs)[off + b].id);
    }
}

/// A merge join over a split left side concatenates the parts' joins.
proof fn lemma_merge_join_concat(a: Seq<Record>, b: Seq<Record>, right: Seq<Record>)
    ensures
        merge_join_of(a + b, right) == merge_join_of(a, right) + merge_join_of(b, right),
    decreases b.len(),
{
    if b.len() == 0 {
        assert(a + b =~= a);
        assert(merge_join_of(a, right) + merge_join_of(b, right) =~= merge_join_of(a, right));
    } else {
        assert((a + b).drop_last() =~= a + b.drop_last());
        lemma_merge_join_concat(a, b.drop_last(), right);
        assert((a + b).last() == b.last());
        assert(merge_join_of(a, right) + merge_join_of(b, right) =~= merge_join_of(a, right) + (
        merge_join_of(b.drop_last(), right) + left_matches_of(right, b.last())));
    }
}

/// Chunkwise merge joins concatenate to the whole left side's join.
proof fn lemma_merge_join_chunks(cs: Seq<Vec<Record>>, ps: Seq<Vec<(Record, Record)>>, right: Seq<
    Record,
>)
    requires
        cs.len() == ps.len(),
        forall|k: int| 0 <= k < cs.len() ==> (#[trigger] ps[k])@ == merge_join_of(cs[k]@, right),
    ensures
        flat_of(ps) == merge_join_of(flat_of(cs), right),
    decreases cs.len(),
{
    if cs.len() == 0 {
        lemma_flat_of_empty(cs);
        lemma_flat_of_empty(ps);
    } else {
        let i = cs.len() - 1;
        lemma_merge_join_chunks(cs.take(i), ps.take(i), right);
        lemma_flat_of_take_step(cs, i);
        lemma_flat_of_take_step(ps, i);
        assert(cs.take(i + 1) =~= cs);
        assert(ps.take(i + 1) =~= ps);
        lemma_merge_join_concat(flat_of(cs.take(i)), cs[i]@, right);
    }
}

/// Sort-merge join over caller-chosen left-side chunks: each chunk
/// independently scans the shared, read-only right side from the start, so
/// an equal-key run that spans a chunk boundary is matched again by the
/// next chunk and no pair is lost, wherever the boundary falls. Chunk
/// outputs concatenate in left order, so the result equals the sequential
/// join's for every chunk size.
pub fn chunked_merge_join(left: &Vec<Record>, right: &Vec<Record>, chunk_size: usize) -> (out: Vec<
    (Record, Record),
>)
    requires
        chunk_size >= 1,
        sorted_ids(left@),
        sorted_ids(right@),
    ensures
        out@ == merge_join_of(left@, right@),
{
    let chunks = record_chunks(left, chunk_size);
    let ghost cviews = chunks@;
    proof {
        assert forall|k: int| 0 <= k < cviews.len() implies sorted_ids((#[trigger] cviews[k])@) by {
            lemma_chunk_sorted(cviews, k);
        }
    }
    let f = |c: Vec<Record>| -> (o: Vec<(Record, Record)>)
        requires
            sorted_ids(c@),
            sorted_ids(right@),
        ensures
            o@ == merge_join_of(c@, right@),
        { sequential_merge_join(&c, right) };
    let partials = par_map(chunks, f);
    let ghost pviews = partials@;
    proof {
        assert forall|k: int| 0 <= k < cviews.len() implies (#[trigger] pviews[k])@
            == merge_join_of(cviews[k]@, right@) by {
            assert(call_ensures(f, (cviews[k],), pviews[k]));
        }
        lemma_merge_join_chunks(cviews, pviews, right@);
    }
    crate::parallel::concat_chunks(partials)
}

/// Parallel sort-merge join: left-side chunks sized by the scheduler. The
/// ordering guarantee holds within each left chunk's run and, because the
/// chunk outputs are collected in chunk order, globally as well.
pub fn parallel_merge_join(left: &Vec<Record>, right: &Vec<Record>) -> (out: Vec<(Record, Record)>)
    requires
        sorted_ids(left@),
        sorted_ids(right@),
    ensures
        out@ == merge_join_of(left@, right@),
{
    let chunk_size = determine_chunk_size(left.len());
    chunked_merge_join(left, right, chunk_size)
}

} // verus!
