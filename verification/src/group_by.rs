//! Group-by operator: accumulate per-key sums and counts over key-value
//! pairs and emit one aggregate per distinct key, keys in first-occurrence
//! order. The mean is kept exact as (sum, count): the division is the
//! caller's, done once at the very end, so partial results lose no
//! precision. The parallel form builds one table per chunk and reduces the
//! tables with the same verified accumulator, and is proved to return
//! exactly the sequential result.

use vstd::prelude::*;
use std::collections::HashMap;
use crate::parallel::chunks_of;
use crate::parallel::concat_chunks;
use crate::parallel::par_map;
use crate::parallel::flat_of;
use crate::parallel::lemma_flat_of_empty;
use crate::parallel::lemma_flat_of_take_step;
use crate::parallel::determine_chunk_size;
use crate::parallel::should_parallelize;
use crate::parallel::Strategy;
use crate::parallel::PARALLEL_THRESHOLD;

verus! {

/// One group's aggregate: the key, the sum of the values mapped to it, and
/// how many values there were. The group's mean is `sum / count`.
#[derive(Clone, Copy, Debug, PartialEq, Eq, Structural)]
pub struct GroupByResult {
    pub key: i64,
    pub sum: i128,
    pub count: usize,
}

/// The sum a list of rows contributes to a key.
pub open spec fn wsum(rows: Seq<GroupByResult>, k: i64) -> int
    decreases rows.len(),
{
    if rows.len() == 0 {
        0
    } else {
        wsum(rows.drop_last(), k) + if rows.last().key == k {
            rows.last().sum as int
        } else {
            0
        }
    }
}

/// The count a list of rows contributes to a key.
pub open spec fn wcount(rows: Seq<GroupByResult>, k: i64) -> int
    decreases rows.len(),
{
    if rows.len() == 0 {
        0
    } else {
        wcount(rows.drop_last(), k) + if rows.last().key == k {
            rows.last().count as int
        } else {
            0
        }
    }
}

/// Absolute value.
pub open spec fn abs1(x: int) -> int {
    if x < 0 {
        -x
    } else {
        x
    }
}

/// The absolute mass a list of rows carries for a key: an upper bound on
/// the magnitude of every partial sum for that key.
pub open spec fn wabs(rows: Seq<GroupByResult>, k: i64) -> int
    decreases rows.len(),
{
    if rows.len() == 0 {
        0
    } else {
        wabs(rows.drop_last(), k) + if rows.last().key == k {
            abs1(rows.last().sum as int)
        } else {
            0
        }
    }
}

/// Whether any row carries a key.
pub open spec fn whas(rows: Seq<GroupByResult>, k: i64) -> bool {
    exists|m: int| 0 <= m < rows.len() && (#[trigger] rows[m]).key == k
}

/// The distinct keys of a list of rows, in first-occurrence order.
pub open spec fn group_keys(rows: Seq<GroupByResult>) -> Seq<i64>
    decreases rows.len(),
{
    if rows.len() == 0 {
        Seq::empty()
    } else {
        let fk = group_keys(rows.drop_last());
        if whas(rows.drop_last(), rows.last().key) {
            fk
        } else {
            fk.push(rows.last().key)
        }
    }
}

/// One aggregate row for a key of a row list.
pub open spec fn entry_for(rows: Seq<GroupByResult>) -> spec_fn(i64) -> GroupByResult {
    |k: i64|
        GroupByResult { key: k, sum: wsum(rows, k) as i128, count: wcount(rows, k) as usize }
}

/// The grouped aggregation of a list of rows: one row per distinct key, in
/// first-occurrence order, carrying that key's total sum and count.
pub open spec fn wgroup_of(rows: Seq<GroupByResult>) -> Seq<GroupByResult> {
    group_keys(rows).map_values(entry_for(rows))
}

/// A key-value pair as a single-row contribution.
pub open spec fn unit_rows(s: Seq<(i64, i64)>) -> Seq<GroupByResult> {
    s.map_values(|p: (i64, i64)| GroupByResult { key: p.0, sum: p.1 as i128, count: 1 })
}

/// What group-by returns on a sequence of key-value pairs.
pub open spec fn group_by_of(s: Seq<(i64, i64)>) -> Seq<GroupByResult> {
    wgroup_of(unit_rows(s))
}

/// A key occurs in a concatenation when it occurs in either part.
proof fn lemma_whas_concat(a: Seq<GroupByResult>, b: Seq<GroupByResult>, k: i64)
    ensures
        whas(a + b, k) <==> whas(a, k) || whas(b, k),
{
    if whas(a, k) {
        let m = choose|m: int| 0 <= m < a.len() && (#[trigger] a[m]).key == k;
        assert((a + b)[m].key == k);
    }
    if whas(b, k) {
        let m = choose|m: int| 0 <= m < b.len() && (#[trigger] b[m]).key == k;
        assert((a + b)[a.len() + m].key == k);
    }
    if whas(a + b, k) {
        let m = choose|m: int| 0 <= m < (a + b).len() && (#[trigger] (a + b)[m]).key == k;
        if m < a.len() {
            assert(a[m].key == k);
        } else {
            assert(b[m - a.len()].key == k);
        }
    }
}

/// A key occurs after appending one row when it occurred before or the new
/// row carries it.
proof fn lemma_whas_push(rows: Seq<GroupByResult>, row: GroupByResult, k: i64)
    ensures
        whas(rows.push(row), k) <==> whas(rows, k) || row.key == k,
{
    let lp1 = rows.push(row);
    if whas(rows, k) {
        let m = choose|m: int| 0 <= m < rows.len() && (#[trigger] rows[m]).key == k;
        assert(lp1[m].key == k);
    }
    if row.key == k {
        assert(lp1[rows.len() as int].key == k);
    }
    if whas(lp1, k) {
        let m = choose|m: int| 0 <= m < lp1.len() && (#[trigger] lp1[m]).key == k;
        if m < rows.len() {
            assert(rows[m].key == k);
        }
    }
}

/// Sums, counts and masses split over a concatenation.
proof fn lemma_w_concat(a: Seq<GroupByResult>, b: Seq<GroupByResult>, k: i64)
    ensures
        wsum(a + b, k) == wsum(a, k) + wsum(b, k),
        wcount(a + b, k) == wcount(a, k) + wcount(b, k),
        wabs(a + b, k) == wabs(a, k) + wabs(b, k),
    decreases b.len(),
{
    if b.len() == 0 {
        assert(a + b =~= a);
    } else {
        assert((a + b).drop_last() =~= a + b.drop_last());
        lemma_w_concat(a, b.drop_last(), k);
        assert((a + b).last() == b.last());
    }
}

/// Masses and counts are never negative, the magnitude of a sum is bounded
/// by the mass, and an absent key contributes nothing.
proof fn lemma_w_bounds(rows: Seq<GroupByResult>, k: i64)
    ensures
        wabs(rows, k) >= 0,
        wcount(rows, k) >= 0,
        abs1(wsum(rows, k)) <= wabs(rows, k),
        !whas(rows, k) ==> wsum(rows, k) == 0 && wcount(rows, k) == 0 && wabs(rows, k) == 0,
    decreases rows.len(),
{
    if rows.len() != 0 {
        lemma_w_bounds(rows.drop_last(), k);
        if !whas(rows, k) {
            assert(!whas(rows.drop_last(), k)) by {
                if whas(rows.drop_last(), k) {
                    let m = choose|m: int|
                        0 <= m < rows.drop_last().len() && (#[trigger] rows.drop_last()[m]).key
                            == k;
                    assert(rows[m].key == k);
                }
            }
            assert(rows.last().key != k) by {
                if rows.last().key == k {
                    assert(rows[rows.len() - 1].key == k);
                }
            }
        }
    }
}

/// Splitting at an index splits every key's sum, count and mass.
proof fn lemma_w_split(rows: Seq<GroupByResult>, i: int, k: i64)
    requires
        0 <= i <= rows.len(),
    ensures
        wsum(rows, k) == wsum(rows.take(i), k) + wsum(rows.skip(i), k),
        wcount(rows, k) == wcount(rows.take(i), k) + wcount(rows.skip(i), k),
        wabs(rows, k) == wabs(rows.take(i), k) + wabs(rows.skip(i), k),
{
    assert(rows =~= rows.take(i) + rows.skip(i));
    lemma_w_concat(rows.take(i), rows.skip(i), k);
}

/// A key occurs among the rows exactly when it is one of the group keys.
proof fn lemma_whas_group_keys(rows: Seq<GroupByResult>, k: i64)
    ensures
        whas(rows, k) <==> group_keys(rows).contains(k),
    decreases rows.len(),
{
    broadcast use vstd::seq_lib::group_seq_properties;

    if rows.len() != 0 {
        let rest = rows.drop_last();
        let x = rows.last().key;
        lemma_whas_group_keys(rest, k);
        assert(rows =~= rest.push(rows.last()));
        lemma_whas_push(rest, rows.last(), k);
        if !whas(rest, x) {
            assert(group_keys(rows) == group_keys(rest).push(x));
        }
    }
}

/// Group keys never repeat.
proof fn lemma_group_keys_distinct(rows: Seq<GroupByResult>)
    ensures
        group_keys(rows).no_duplicates(),
    decreases rows.len(),
{
    if rows.len() != 0 {
        lemma_group_keys_distinct(rows.drop_last());
        let fk = group_keys(rows.drop_last());
        let x = rows.last().key;
        if !whas(rows.drop_last(), x) {
            lemma_whas_group_keys(rows.drop_last(), x);
            assert(!fk.contains(x));
            assert forall|p: int, q: int| 0 <= p < q < fk.push(x).len() implies fk.push(x)[p]
                != fk.push(x)[q] by {
                if q < fk.len() {
                } else {
                    assert(fk.push(x)[q] == x);
                    assert(fk[p] == fk.push(x)[p]);
                    assert(fk.contains(fk[p]));
                }
            }
        }
    }
}

/// Over rows whose keys are a duplicate-free list, each present key's sum,
/// count and mass are the single matching row's, and absent keys
/// contribute nothing.
proof fn lemma_w_of_keyed_rows(ks: Seq<i64>, rows: Seq<GroupByResult>, k: i64)
    requires
        ks.no_duplicates(),
        rows.len() == ks.len(),
        forall|m: int| 0 <= m < rows.len() ==> (#[trigger] rows[m]).key == ks[m],
    ensures
        ks.contains(k) ==> {
            let m = choose|m: int| 0 <= m < ks.len() && ks[m] == k;
            &&& wsum(rows, k) == rows[m].sum as int
            &&& wcount(rows, k) == rows[m].count as int
            &&& wabs(rows, k) == abs1(rows[m].sum as int)
        },
        !ks.contains(k) ==> wsum(rows, k) == 0 && wcount(rows, k) == 0 && wabs(rows, k) == 0,
    decreases rows.len(),
{
    if rows.len() != 0 {
        let ks2 = ks.drop_last();
        let rows2 = rows.drop_last();
        assert forall|p: int, q: int| 0 <= p < q < ks2.len() implies ks2[p] != ks2[q] by {
            assert(ks[p] != ks[q]);
        }
        assert forall|m: int| 0 <= m < rows2.len() implies (#[trigger] rows2[m]).key
            == ks2[m] by {
            assert(rows2[m] == rows[m]);
        }
        lemma_w_of_keyed_rows(ks2, rows2, k);
        assert(rows.last().key == ks.last());
        if ks.last() == k {
            assert(!ks2.contains(k)) by {
                if ks2.contains(k) {
                    let w = choose|w: int| 0 <= w < ks2.len() && ks2[w] == k;
                    assert(ks[w] == ks[ks.len() - 1]);
                }
            }
            assert(ks.contains(k)) by {
                assert(ks[ks.len() - 1] == k);
            }
            let m = choose|m: int| 0 <= m < ks.len() && ks[m] == k;
            assert(m == ks.len() - 1) by {
                if m < ks.len() - 1 {
                    assert(ks2[m] == k);
                }
            }
        } else {
            if ks.contains(k) {
                let m = choose|m: int| 0 <= m < ks.len() && ks[m] == k;
                assert(m < ks.len() - 1);
                assert(ks2[m] == k);
                assert(ks2.contains(k));
                let m2 = choose|m2: int| 0 <= m2 < ks2.len() && ks2[m2] == k;
                assert(ks[m2] == k);
                assert(m2 == m);
                assert(rows2[m2] == rows[m2]);
            } else {
                assert(!ks2.contains(k)) by {
                    if ks2.contains(k) {
                        let w = choose|w: int| 0 <= w < ks2.len() && ks2[w] == k;
                        assert(ks[w] == k);
                    }
                }
            }
        }
    }
}

/// Rows whose keys are a duplicate-free list have exactly that key list.
proof fn lemma_group_keys_of_keyed_rows(ks: Seq<i64>, rows: Seq<GroupByResult>)
    requires
        ks.no_duplicates(),
        rows.len() == ks.len(),
        forall|m: int| 0 <= m < rows.len() ==> (#[trigger] rows[m]).key == ks[m],
    ensures
        group_keys(rows) == ks,
    decreases rows.len(),
{
    if rows.len() == 0 {
        assert(group_keys(rows) =~= ks);
    } else {
        let ks2 = ks.drop_last();
        let rows2 = rows.drop_last();
        assert forall|p: int, q: int| 0 <= p < q < ks2.len() implies ks2[p] != ks2[q] by {
            assert(ks[p] != ks[q]);
        }
        assert forall|m: int| 0 <= m < rows2.len() implies (#[trigger] rows2[m]).key
            == ks2[m] by {
            assert(rows2[m] == rows[m]);
        }
        lemma_group_keys_of_keyed_rows(ks2, rows2);
        assert(!whas(rows2, rows.last().key)) by {
            if whas(rows2, rows.last().key) {
                let m = choose|m: int|
                    0 <= m < rows2.len() && (#[trigger] rows2[m]).key == rows.last().key;
                assert(ks[m] == ks[ks.len() - 1]);
            }
        }
        assert(group_keys(rows) =~= ks2.push(ks.last()));
        assert(ks2.push(ks.last()) =~= ks);
    }
}

/// An aggregated table has the same keys as its source rows, in the same
/// first-occurrence order.
proof fn lemma_table_keys(rows: Seq<GroupByResult>)
    ensures
        group_keys(wgroup_of(rows)) == group_keys(rows),
        forall|k: i64| #[trigger] whas(wgroup_of(rows), k) <==> whas(rows, k),
{
    let ks = group_keys(rows);
    let table = wgroup_of(rows);
    lemma_group_keys_distinct(rows);
    assert(forall|m: int| 0 <= m < table.len() ==> (#[trigger] table[m]).key == ks[m]);
    lemma_group_keys_of_keyed_rows(ks, table);
    assert forall|k: i64| #[trigger] whas(table, k) <==> whas(rows, k) by {
        lemma_whas_group_keys(table, k);
        lemma_whas_group_keys(rows, k);
    }
}

/// An aggregated table contributes to each key exactly what its source
/// rows did, with mass no greater than the source's.
proof fn lemma_w_of_table(rows: Seq<GroupByResult>, k: i64)
    requires
        -0x8000_0000_0000_0000_0000_0000_0000_0000 <= wsum(rows, k)
            < 0x8000_0000_0000_0000_0000_0000_0000_0000,
        0 <= wcount(rows, k) <= usize::MAX,
    ensures
        wsum(wgroup_of(rows), k) == wsum(rows, k),
        wcount(wgroup_of(rows), k) == wcount(rows, k),
        wabs(wgroup_of(rows), k) <= wabs(rows, k),
{
    let ks = group_keys(rows);
    let table = wgroup_of(rows);
    lemma_group_keys_distinct(rows);
    assert(forall|m: int| 0 <= m < table.len() ==> (#[trigger] table[m]).key == ks[m]);
    lemma_w_of_keyed_rows(ks, table, k);
    lemma_whas_group_keys(rows, k);
    lemma_w_bounds(rows, k);
    if ks.contains(k) {
        let m = choose|m: int| 0 <= m < ks.len() && ks[m] == k;
        assert(table[m] == entry_for(rows)(ks[m]));
        assert(table[m].sum as int == wsum(rows, k));
        assert(table[m].count as int == wcount(rows, k));
    }
}

/// Filtering with predicates that agree on a list's elements selects the
/// same elements.
proof fn lemma_filter_congruent(ks: Seq<i64>, p: spec_fn(i64) -> bool, q: spec_fn(i64) -> bool)
    requires
        forall|m: int| 0 <= m < ks.len() ==> p(#[trigger] ks[m]) == q(ks[m]),
    ensures
        ks.filter(p) == ks.filter(q),
    decreases ks.len(),
{
    reveal(Seq::filter);
    if ks.len() != 0 {
        assert forall|m: int| 0 <= m < ks.drop_last().len() implies p(
            #[trigger] ks.drop_last()[m],
        ) == q(ks.drop_last()[m]) by {
            assert(ks[m] == ks.drop_last()[m]);
        }
        lemma_filter_congruent(ks.drop_last(), p, q);
        assert(p(ks.last()) == q(ks.last()));
    }
}

/// The keys a concatenation introduces are the first part's keys followed
/// by the second part's keys not already present.
proof fn lemma_group_keys_concat(a: Seq<GroupByResult>, b: Seq<GroupByResult>)
    ensures
        group_keys(a + b) == group_keys(a) + group_keys(b).filter(|k: i64| !whas(a, k)),
    decreases b.len(),
{
    reveal(Seq::filter);
    let p = |k: i64| !whas(a, k);
    if b.len() == 0 {
        assert(a + b =~= a);
        assert(group_keys(b).filter(p) =~= Seq::<i64>::empty());
        assert(group_keys(a) + group_keys(b).filter(p) =~= group_keys(a));
    } else {
        assert((a + b).drop_last() =~= a + b.drop_last());
        lemma_group_keys_concat(a, b.drop_last());
        assert((a + b).last() == b.last());
        let x = b.last().key;
        lemma_whas_concat(a, b.drop_last(), x);
        if whas(b.drop_last(), x) {
            assert(whas(a + b.drop_last(), x));
            assert(group_keys(a + b) == group_keys(a + b.drop_last()));
            assert(group_keys(b) == group_keys(b.drop_last()));
        } else {
            assert(group_keys(b) == group_keys(b.drop_last()).push(x));
            assert(group_keys(b).drop_last() =~= group_keys(b.drop_last()));
            assert(group_keys(b).last() == x);
            if whas(a, x) {
                assert(whas(a + b.drop_last(), x));
                assert(group_keys(a + b) == group_keys(a + b.drop_last()));
                assert(!p(x));
                assert(group_keys(b).filter(p) == group_keys(b.drop_last()).filter(p));
            } else {
                assert(!whas(a + b.drop_last(), x));
                assert(group_keys(a + b) == group_keys(a + b.drop_last()).push(x));
                assert(p(x));
                assert(group_keys(b).filter(p) == group_keys(b.drop_last()).filter(p).push(x));
                assert(group_keys(a) + group_keys(b.drop_last()).filter(p).push(x) =~= (
                group_keys(a) + group_keys(b.drop_last()).filter(p)).push(x));
            }
        }
    }
}

/// One inductive step of `lemma_tables_model`, for one key: the last
/// chunk's table and the earlier chunks' tables together contribute what
/// the pairs do.
proof fn lemma_per_key_step(cs: Seq<Vec<(i64, i64)>>, ts: Seq<Vec<GroupByResult>>, i: int, key: i64)
    requires
        cs.len() == ts.len(),
        i == cs.len() - 1,
        0 <= i,
        ts[i]@ == group_by_of(cs[i]@),
        -0x8000_0000_0000_0000_0000_0000_0000_0000 <= wsum(unit_rows(cs[i]@), key)
            < 0x8000_0000_0000_0000_0000_0000_0000_0000,
        0 <= wcount(unit_rows(cs[i]@), key) <= usize::MAX,
        wsum(flat_of(ts.take(i)), key) == wsum(unit_rows(flat_of(cs.take(i))), key),
        wcount(flat_of(ts.take(i)), key) == wcount(unit_rows(flat_of(cs.take(i))), key),
        wabs(flat_of(ts.take(i)), key) <= wabs(unit_rows(flat_of(cs.take(i))), key),
        whas(flat_of(ts.take(i)), key) <==> whas(unit_rows(flat_of(cs.take(i))), key),
    ensures
        wsum(flat_of(ts), key) == wsum(unit_rows(flat_of(cs)), key),
        wcount(flat_of(ts), key) == wcount(unit_rows(flat_of(cs)), key),
        wabs(flat_of(ts), key) <= wabs(unit_rows(flat_of(cs)), key),
        whas(flat_of(ts), key) <==> whas(unit_rows(flat_of(cs)), key),
{
    lemma_flat_of_take_step(cs, i);
    lemma_flat_of_take_step(ts, i);
    assert(cs.take(i + 1) =~= cs);
    assert(ts.take(i + 1) =~= ts);
    let ta = flat_of(ts.take(i));
    let ua = unit_rows(flat_of(cs.take(i)));
    let tb = ts[i]@;
    let ub = unit_rows(cs[i]@);
    assert(unit_rows(flat_of(cs)) =~= ua + ub);
    assert(flat_of(ts) =~= ta + tb);
    assert(tb == wgroup_of(ub));
    lemma_table_keys(ub);
    lemma_w_concat(ta, tb, key);
    lemma_w_concat(ua, ub, key);
    lemma_whas_concat(ta, tb, key);
    lemma_whas_concat(ua, ub, key);
    lemma_w_of_table(ub, key);
}

/// Per-chunk tables contribute to every key exactly what the chunks' pairs
/// do, with the keys in the same first-occurrence order.
proof fn lemma_tables_model(cs: Seq<Vec<(i64, i64)>>, ts: Seq<Vec<GroupByResult>>)
    requires
        cs.len() == ts.len(),
        forall|k: int| 0 <= k < cs.len() ==> (#[trigger] ts[k])@ == group_by_of(cs[k]@),
        forall|k: int, key: i64|
            #![trigger wsum(unit_rows(cs[k]@), key)]
            0 <= k < cs.len() ==> {
                &&& -0x8000_0000_0000_0000_0000_0000_0000_0000 <= wsum(unit_rows(cs[k]@), key)
                    < 0x8000_0000_0000_0000_0000_0000_0000_0000
                &&& 0 <= wcount(unit_rows(cs[k]@), key) <= usize::MAX
            },
    ensures
        group_keys(flat_of(ts)) == group_keys(unit_rows(flat_of(cs))),
        forall|key: i64| #[trigger] wsum(flat_of(ts), key) == wsum(unit_rows(flat_of(cs)), key),
        forall|key: i64| #[trigger] wcount(flat_of(ts), key) == wcount(
            unit_rows(flat_of(cs)),
            key,
        ),
        forall|key: i64| #[trigger] wabs(flat_of(ts), key) <= wabs(unit_rows(flat_of(cs)), key),
        forall|key: i64| #[trigger] whas(flat_of(ts), key) <==> whas(unit_rows(flat_of(cs)), key),
    decreases cs.len(),
{
    if cs.len() == 0 {
        lemma_flat_of_empty(cs);
        lemma_flat_of_empty(ts);
        assert(unit_rows(flat_of(cs)) =~= Seq::<GroupByResult>::empty());
        assert(group_keys(flat_of(ts)) =~= group_keys(unit_rows(flat_of(cs))));
    } else {
        let i = cs.len() - 1;
        assert forall|k: int, key: i64|
            #![trigger wsum(unit_rows(cs.take(i)[k]@), key)]
            0 <= k < cs.take(i).len() implies {
            &&& -0x8000_0000_0000_0000_0000_0000_0000_0000 <= wsum(unit_rows(cs.take(i)[k]@), key)
                < 0x8000_0000_0000_0000_0000_0000_0000_0000
            &&& 0 <= wcount(unit_rows(cs.take(i)[k]@), key) <= usize::MAX
        } by {
            assert(cs.take(i)[k] == cs[k]);
            assert(wsum(unit_rows(cs[k]@), key) == wsum(unit_rows(cs.take(i)[k]@), key));
        }
        lemma_tables_model(cs.take(i), ts.take(i));
        lemma_flat_of_take_step(cs, i);
        lemma_flat_of_take_step(ts, i);
        assert(cs.take(i + 1) =~= cs);
        assert(ts.take(i + 1) =~= ts);
        let ta = flat_of(ts.take(i));
        let ua = unit_rows(flat_of(cs.take(i)));
        let tb = ts[i]@;
        let ub = unit_rows(cs[i]@);
        assert(unit_rows(flat_of(cs)) =~= ua + ub);
        assert(flat_of(ts) =~= ta + tb);
        assert(tb == wgroup_of(ub));
        lemma_table_keys(ub);
        assert forall|key: i64| #[trigger] wsum(flat_of(ts), key) == wsum(
            unit_rows(flat_of(cs)),
            key,
        ) by {
            lemma_per_key_step(cs, ts, i, key);
        }
        assert forall|key: i64| #[trigger] wcount(flat_of(ts), key) == wcount(
            unit_rows(flat_of(cs)),
            key,
        ) by {
            lemma_per_key_step(cs, ts, i, key);
        }
        assert forall|key: i64| #[trigger] wabs(flat_of(ts), key) <= wabs(
            unit_rows(flat_of(cs)),
            key,
        ) by {
            lemma_per_key_step(cs, ts, i, key);
        }
        assert forall|key: i64| #[trigger] whas(flat_of(ts), key) <==> whas(
            unit_rows(flat_of(cs)),
            key,
        ) by {
            lemma_per_key_step(cs, ts, i, key);
        }
        assert forall|key: i64| whas(ta, key) <==> whas(ua, key) by {
            assert(whas(flat_of(ts.take(i)), key) <==> whas(unit_rows(flat_of(cs.take(i))), key));
        }
        let pa = |k: i64| !whas(ta, k);
        let pb = |k: i64| !whas(ua, k);
        assert forall|m: int| 0 <= m < group_keys(tb).len() implies pa(
            #[trigger] group_keys(tb)[m],
        ) == pb(group_keys(tb)[m]) by {
            let key = group_keys(tb)[m];
            assert(whas(ta, key) <==> whas(ua, key));
        }
        lemma_filter_congruent(group_keys(tb), pa, pb);
        lemma_group_keys_concat(ta, tb);
        lemma_group_keys_concat(ua, ub);
        assert(group_keys(tb) == group_keys(ub));
        assert(group_keys(ta + tb) == group_keys(ua + ub));
        assert(group_keys(flat_of(ts)) == group_keys(unit_rows(flat_of(cs))));
    }
}

/// Builds the unit contribution of each key-value pair.
fn pairs_to_rows(data: &Vec<(i64, i64)>) -> (r: Vec<GroupByResult>)
    ensures
        r@ == unit_rows(data@),
{
    let mut out: Vec<GroupByResult> = Vec::new();
    let mut i: usize = 0;
    proof {
        assert(out@ =~= unit_rows(data@.take(0)));
    }
    while i < data.len()
        invariant
            i <= data@.len(),
            out@ == unit_rows(data@.take(i as int)),
        decreases data@.len() - i,
    {
        let p = data[i];
        out.push(GroupByResult { key: p.0, sum: p.1 as i128, count: 1 });
        proof {
            assert(data@.take(i + 1 as int) =~= data@.take(i as int).push(data@[i as int]));
            assert(unit_rows(data@.take(i + 1 as int)) =~= unit_rows(data@.take(i as int)).push(
                GroupByResult { key: data@[i as int].0, sum: data@[i as int].1 as i128, count: 1 },
            ));
        }
        i = i + 1;
    }
    proof {
        assert(data@.take(data@.len() as int) =~= data@);
    }
    out
}

/// The accumulator shared by every group-by form: folds a list of row
/// contributions into one table, one row per distinct key in
/// first-occurrence order, adding sums and counts keywise.
fn accumulate_rows(rows: &Vec<GroupByResult>) -> (r: Vec<GroupByResult>)
    requires
        forall|k: i64| #[trigger] wabs(rows@, k) < 0x8000_0000_0000_0000_0000_0000_0000_0000,
        forall|k: i64| #[trigger] wcount(rows@, k) <= usize::MAX,
    ensures
        r@ == wgroup_of(rows@),
{
    let mut m: HashMap<i64, (i128, usize)> = HashMap::new();
    let mut keys: Vec<i64> = Vec::new();
    let mut i: usize = 0;
    proof {
        assert(rows@.take(0) =~= Seq::<GroupByResult>::empty());
        assert(keys@ =~= group_keys(rows@.take(0)));
    }
    while i < rows.len()
        invariant
            i <= rows@.len(),
            forall|k: i64| #[trigger] wabs(rows@, k) < 0x8000_0000_0000_0000_0000_0000_0000_0000,
            forall|k: i64| #[trigger] wcount(rows@, k) <= usize::MAX,
            keys@ == group_keys(rows@.take(i as int)),
            forall|k: i64| #[trigger] m@.contains_key(k) <==> whas(rows@.take(i as int), k),
            forall|k: i64| #[trigger]
                m@.contains_key(k) ==> m@[k].0 as int == wsum(rows@.take(i as int), k)
                    && m@[k].1 as int == wcount(rows@.take(i as int), k),
        decreases rows@.len() - i,
    {
        let ghost m0 = m@;
        let ghost lp = rows@.take(i as int);
        let ghost lp1 = rows@.take(i + 1 as int);
        let row = rows[i];
        let k = row.key;
        proof {
            assert(lp1 =~= lp.push(rows@[i as int]));
            assert(lp1.drop_last() =~= lp);
            assert(lp1.last() == rows@[i as int]);
            lemma_w_split(rows@, i + 1, k);
            lemma_w_bounds(lp, k);
            lemma_w_bounds(lp1, k);
            lemma_w_bounds(rows@.skip(i + 1), k);
            assert(wsum(lp1, k) == wsum(lp, k) + row.sum);
            assert(wcount(lp1, k) == wcount(lp, k) + row.count);
            assert(abs1(wsum(lp1, k)) <= wabs(lp1, k) <= wabs(rows@, k));
            assert(wcount(lp1, k) <= wcount(rows@, k));
        }
        let (s0, c0, present) = match m.remove(&k) {
            Some(v) => (v.0, v.1, true),
            None => (0, 0, false),
        };
        proof {
            assert(present == m0.contains_key(k));
            if !present {
                assert(!whas(lp, k));
            }
            assert(s0 as int == wsum(lp, k));
            assert(c0 as int == wcount(lp, k));
        }
        let s1 = s0 + row.sum;
        let c1 = c0 + row.count;
        m.insert(k, (s1, c1));
        if !present {
            keys.push(k);
        }
        proof {
            if whas(lp, k) {
                assert(group_keys(lp1) == group_keys(lp));
                assert(keys@ == group_keys(lp1));
            } else {
                assert(group_keys(lp1) == group_keys(lp).push(k));
                assert(keys@ == group_keys(lp1));
            }
            assert forall|k2: i64| #[trigger] m@.contains_key(k2) <==> whas(lp1, k2) by {
                lemma_whas_push(lp, rows@[i as int], k2);
            }
            assert forall|k2: i64| #[trigger] m@.contains_key(k2) implies m@[k2].0 as int == wsum(
                lp1,
                k2,
            ) && m@[k2].1 as int == wcount(lp1, k2) by {
                if k2 == k {
                    assert(m@[k2] == (s1, c1));
                } else {
                    assert(m@[k2] == m0[k2]);
                    assert(wsum(lp1, k2) == wsum(lp, k2));
                    assert(wcount(lp1, k2) == wcount(lp, k2));
                }
            }
        }
        i = i + 1;
    }
    proof {
        assert(rows@.take(rows@.len() as int) =~= rows@);
    }
    let mut out: Vec<GroupByResult> = Vec::new();
    let mut u: usize = 0;
    while u < keys.len()
        invariant
            u <= keys@.len(),
            keys@ == group_keys(rows@),
            forall|k: i64| #[trigger] m@.contains_key(k) <==> whas(rows@, k),
            forall|k: i64| #[trigger]
                m@.contains_key(k) ==> m@[k].0 as int == wsum(rows@, k) && m@[k].1 as int
                    == wcount(rows@, k),
            out@.len() == u,
            forall|t: int| 0 <= t < u ==> #[trigger] out@[t] == entry_for(rows@)(keys@[t]),
        decreases keys@.len() - u,
    {
        let k = keys[u];
        proof {
            lemma_whas_group_keys(rows@, k);
            assert(group_keys(rows@).contains(k)) by {
                assert(group_keys(rows@)[u as int] == k);
            }
            assert(m@.contains_key(k));
        }
        let entry = match m.get(&k) {
            Some(v) => *v,
            None => (0, 0),
        };
        out.push(GroupByResult { key: k, sum: entry.0, count: entry.1 });
        u = u + 1;
    }
    proof {
        assert(out@ =~= wgroup_of(rows@));
    }
    out
}

/// The masses and counts of unit rows are bounded by the length.
proof fn lemma_unit_rows_bounds(s: Seq<(i64, i64)>, k: i64)
    ensures
        0 <= wabs(unit_rows(s), k) <= s.len() * 0x8000_0000_0000_0000,
        0 <= wcount(unit_rows(s), k) <= s.len(),
    decreases s.len(),
{
    if s.len() != 0 {
        lemma_unit_rows_bounds(s.drop_last(), k);
        assert(unit_rows(s).drop_last() =~= unit_rows(s.drop_last()));
        assert(unit_rows(s).last() == GroupByResult {
            key: s.last().0,
            sum: s.last().1 as i128,
            count: 1,
        });
        assert((s.len() - 1) * 0x8000_0000_0000_0000 + 0x8000_0000_0000_0000 == s.len()
            * 0x8000_0000_0000_0000) by (nonlinear_arith);
    }
}

/// The mass of fewer than `2^64` unit rows fits below the `i128` limit.
proof fn lemma_unit_mass_fits(s: Seq<(i64, i64)>, k: i64)
    requires
        s.len() <= usize::MAX,
    ensures
        0 <= wabs(unit_rows(s), k) < 0x8000_0000_0000_0000_0000_0000_0000_0000,
        0 <= wcount(unit_rows(s), k) <= usize::MAX,
        abs1(wsum(unit_rows(s), k)) < 0x8000_0000_0000_0000_0000_0000_0000_0000,
{
    lemma_unit_rows_bounds(s, k);
    lemma_w_bounds(unit_rows(s), k);
    assert(s.len() < 0x1_0000_0000_0000_0000);
    assert((s.len() as int) * 0x8000_0000_0000_0000 < 0x8000_0000_0000_0000_0000_0000_0000_0000)
        by (nonlinear_arith)
        requires s.len() < 0x1_0000_0000_0000_0000;
}

/// Sequential grouping of extracted key-value pairs: one pass with a keyed
/// accumulator map, then one emission per distinct key, keys in
/// first-occurrence order.
pub fn group_pairs(data: &Vec<(i64, i64)>) -> (r: Vec<GroupByResult>)
    ensures
        r@ == group_by_of(data@),
{
    let n = data.len();
    let rows = pairs_to_rows(data);
    proof {
        assert(n == data@.len());
        assert forall|k: i64| #[trigger] wabs(rows@, k)
            < 0x8000_0000_0000_0000_0000_0000_0000_0000 by {
            lemma_unit_mass_fits(data@, k);
        }
        assert forall|k: i64| #[trigger] wcount(rows@, k) <= usize::MAX by {
            lemma_unit_mass_fits(data@, k);
        }
    }
    accumulate_rows(&rows)
}

/// Grouping of extracted pairs over caller-chosen chunks: one table per
/// chunk (map step), the tables reduced keywise by the same verified
/// accumulator (reduce step), division still deferred. Returns exactly the
/// sequential result.
pub fn chunked_group_pairs(data: &Vec<(i64, i64)>, chunk_size: usize) -> (r: Vec<GroupByResult>)
    requires
        chunk_size >= 1,
    ensures
        r@ == group_by_of(data@),
{
    let n = data.len();
    let chunks = chunks_of(data, chunk_size);
    let ghost cviews = chunks@;
    let f = |c: Vec<(i64, i64)>| -> (o: Vec<GroupByResult>)
        ensures
            o@ == group_by_of(c@),
        { group_pairs(&c) };
    let tables = par_map(chunks, f);
    let ghost tviews = tables@;
    proof {
        assert(n == data@.len());
        assert forall|k: int| 0 <= k < cviews.len() implies (#[trigger] tviews[k])@ == group_by_of(
            cviews[k]@,
        ) by {
            assert(call_ensures(f, (cviews[k],), tviews[k]));
        }
        assert forall|k: int, key: i64|
            #![trigger wsum(unit_rows(cviews[k]@), key)]
            0 <= k < cviews.len() implies {
            &&& -0x8000_0000_0000_0000_0000_0000_0000_0000 <= wsum(unit_rows(cviews[k]@), key)
                < 0x8000_0000_0000_0000_0000_0000_0000_0000
            &&& 0 <= wcount(unit_rows(cviews[k]@), key) <= usize::MAX
        } by {
            crate::parallel::lemma_flat_of_split(cviews, k);
            crate::parallel::lemma_flat_of_first(cviews.skip(k));
            assert(cviews.skip(k)[0] == cviews[k]);
            assert(cviews[k]@.len() <= data@.len());
            lemma_unit_mass_fits(cviews[k]@, key);
        }
        lemma_tables_model(cviews, tviews);
    }
    let all_rows = concat_chunks(tables);
    proof {
        assert(all_rows@ == flat_of(tviews));
        assert forall|k: i64| #[trigger] wabs(all_rows@, k)
            < 0x8000_0000_0000_0000_0000_0000_0000_0000 by {
            lemma_unit_mass_fits(data@, k);
            assert(wabs(flat_of(tviews), k) <= wabs(unit_rows(data@), k));
        }
        assert forall|k: i64| #[trigger] wcount(all_rows@, k) <= usize::MAX by {
            lemma_unit_mass_fits(data@, k);
            assert(wcount(flat_of(tviews), k) == wcount(unit_rows(data@), k));
        }
    }
    let out = accumulate_rows(&all_rows);
    proof {
        assert(out@ =~= group_by_of(data@)) by {
            assert(group_keys(all_rows@) == group_keys(unit_rows(data@)));
            assert forall|t: int| 0 <= t < out@.len() implies out@[t] == wgroup_of(
                unit_rows(data@),
            )[t] by {
                let key = group_keys(all_rows@)[t];
                assert(wsum(all_rows@, key) == wsum(unit_rows(data@), key));
                assert(wcount(all_rows@, key) == wcount(unit_rows(data@), key));
            }
        }
    }
    out
}

/// Parallel grouping of extracted pairs: chunks sized by the scheduler.
pub fn parallel_group_pairs(data: &Vec<(i64, i64)>) -> (r: Vec<GroupByResult>)
    ensures
        r@ == group_by_of(data@),
{
    let chunk_size = determine_chunk_size(data.len());
    chunked_group_pairs(data, chunk_size)
}

/// Every caller precondition group-by needs: the key-value extractor
/// accepts each element of the input.
pub open spec fn group_by_pre<T, F: Fn(&T) -> (i64, i64)>(key_func: &F, data: Seq<T>) -> bool {
    forall|i: int| 0 <= i < data.len() ==> call_requires(*key_func, (&data[i],))
}

/// What the extraction step may produce: one key-value pair per element,
/// each a value the extractor may return for the corresponding element.
pub open spec fn extracts<T, F: Fn(&T) -> (i64, i64)>(
    key_func: &F,
    data: Seq<T>,
    pairs: Seq<(i64, i64)>,
) -> bool {
    &&& pairs.len() == data.len()
    &&& forall|i: int|
        0 <= i < data.len() ==> call_ensures(*key_func, (&data[i],), #[trigger] pairs[i])
}

/// What every group-by form returns: the grouping of some key-value pairs
/// the extractor may have produced, one per element in element order.
pub open spec fn group_by_rel<T, F: Fn(&T) -> (i64, i64)>(
    key_func: &F,
    data: Seq<T>,
    out: Seq<GroupByResult>,
) -> bool {
    exists|pairs: Seq<(i64, i64)>|
        #![auto]
        extracts(key_func, data, pairs) && out == group_by_of(pairs)
}

/// Applies the key-value extractor to every element, in order.
fn extract_pairs<T, F: Fn(&T) -> (i64, i64)>(data: &Vec<T>, key_func: &F) -> (pairs: Vec<
    (i64, i64),
>)
    requires
        group_by_pre(key_func, data@),
    ensures
        extracts(key_func, data@, pairs@),
{
    let mut out: Vec<(i64, i64)> = Vec::new();
    let mut i: usize = 0;
    while i < data.len()
        invariant
            group_by_pre(key_func, data@),
            i <= data@.len(),
            out@.len() == i,
            forall|k: int|
                0 <= k < i ==> call_ensures(*key_func, (&data@[k],), #[trigger] out@[k]),
        decreases data@.len() - i,
    {
        let p = (key_func)(&data[i]);
        out.push(p);
        i = i + 1;
    }
    out
}

/// Sequential group-by: extracts each element's key and value with the
/// caller's function, then accumulates per-key sums and counts.
pub fn sequential_group_by<T, F: Fn(&T) -> (i64, i64)>(data: &Vec<T>, key_func: &F) -> (r: Vec<
    GroupByResult,
>)
    requires
        group_by_pre(key_func, data@),
    ensures
        group_by_rel(key_func, data@, r@),
{
    let pairs = extract_pairs(data, key_func);
    let r = group_pairs(&pairs);
    proof {
        assert(extracts(key_func, data@, pairs@) && r@ == group_by_of(pairs@));
    }
    r
}

/// Group-by over caller-chosen chunks of the extracted pairs.
pub fn chunked_group_by<T, F: Fn(&T) -> (i64, i64)>(
    data: &Vec<T>,
    key_func: &F,
    chunk_size: usize,
) -> (r: Vec<GroupByResult>)
    requires
        chunk_size >= 1,
        group_by_pre(key_func, data@),
    ensures
        group_by_rel(key_func, data@, r@),
{
    let pairs = extract_pairs(data, key_func);
    let r = chunked_group_pairs(&pairs, chunk_size);
    proof {
        assert(extracts(key_func, data@, pairs@) && r@ == group_by_of(pairs@));
    }
    r
}

/// Parallel group-by: chunks of the extracted pairs, sized by the
/// scheduler.
pub fn parallel_group_by<T, F: Fn(&T) -> (i64, i64)>(data: &Vec<T>, key_func: &F) -> (r: Vec<
    GroupByResult,
>)
    requires
        group_by_pre(key_func, data@),
    ensures
        group_by_rel(key_func, data@, r@),
{
    let pairs = extract_pairs(data, key_func);
    let r = parallel_group_pairs(&pairs);
    proof {
        assert(extracts(key_func, data@, pairs@) && r@ == group_by_of(pairs@));
    }
    r
}

/// Picks sequential or parallel group-by from the input size.
pub fn adaptive_group_by<T, F: Fn(&T) -> (i64, i64)>(data: &Vec<T>, key_func: &F) -> (r: (
    Vec<GroupByResult>,
    Strategy,
))
    requires
        group_by_pre(key_func, data@),
    ensures
        group_by_rel(key_func, data@, r.0@),
        r.1 == (if data@.len() > PARALLEL_THRESHOLD {
            Strategy::Parallel
        } else {
            Strategy::Sequential
        }),
{
    if should_parallelize(data.len()) {
        (parallel_group_by(data, key_func), Strategy::Parallel)
    } else {
        (sequential_group_by(data, key_func), Strategy::Sequential)
    }
}

/// When the extractor is a function of its argument alone, every group-by
/// variant's result is the grouping of the pointwise-extracted pairs — so
/// sequential, chunked and parallel group-by all return the same table.
pub proof fn lemma_group_by_deterministic<T, F: Fn(&T) -> (i64, i64)>(
    key_func: &F,
    g: spec_fn(T) -> (i64, i64),
    data: Seq<T>,
    out: Seq<GroupByResult>,
)
    requires
        forall|x: T, y: (i64, i64)| call_ensures(*key_func, (&x,), y) ==> y == g(x),
        group_by_rel(key_func, data, out),
    ensures
        out == group_by_of(data.map_values(g)),
{
    let pairs = choose|pairs: Seq<(i64, i64)>|
        #![auto]
        extracts(key_func, data, pairs) && out == group_by_of(pairs);
    assert forall|i: int| 0 <= i < data.len() implies pairs[i] == g(data[i]) by {
        assert(call_ensures(*key_func, (&data[i],), pairs[i]));
    }
    assert(pairs =~= data.map_values(g));
}

} // verus!
