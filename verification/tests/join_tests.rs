use par_query::joins::chunked_hash_join;
use par_query::joins::chunked_merge_join;
use par_query::joins::parallel_hash_join;
use par_query::joins::parallel_merge_join;
use par_query::joins::sequential_hash_join;
use par_query::joins::sequential_merge_join;
use par_query::joins::Record;

fn rec(id: i64, value: &str) -> Record {
    Record { id, value: value.to_string() }
}

#[test]
fn hash_join_pairs_matching_ids() {
    let left = vec![rec(1, "a"), rec(1, "b"), rec(2, "c")];
    let right = vec![rec(1, "x")];
    let out = sequential_hash_join(&left, &right);
    assert_eq!(out.len(), 2);
    assert!(out.contains(&(rec(1, "a"), rec(1, "x"))));
    assert!(out.contains(&(rec(1, "b"), rec(1, "x"))));
    for (l, r) in &out {
        assert!(l.id != 2 && r.id != 2);
    }
}

#[test]
fn hash_join_variants_agree() {
    let left = vec![rec(1, "a"), rec(1, "b"), rec(2, "c"), rec(4, "d")];
    let right = vec![rec(1, "x"), rec(2, "y"), rec(2, "z"), rec(3, "w")];
    let expected = sequential_hash_join(&left, &right);
    assert_eq!(parallel_hash_join(&left, &right), expected);
    for chunk_size in [1, 2, 3, 10] {
        assert_eq!(chunked_hash_join(&left, &right, chunk_size), expected);
    }
}

#[test]
fn hash_join_of_empty_sides() {
    let left = vec![rec(1, "a")];
    let empty: Vec<Record> = vec![];
    assert_eq!(sequential_hash_join(&left, &empty), vec![]);
    assert_eq!(sequential_hash_join(&empty, &left), vec![]);
    assert_eq!(parallel_hash_join(&empty, &empty), vec![]);
}

#[test]
fn merge_join_crosses_equal_key_runs() {
    let left = vec![rec(1, "l0"), rec(1, "l1"), rec(2, "l2")];
    let right = vec![rec(1, "r0"), rec(2, "r1"), rec(2, "r2")];
    let out = sequential_merge_join(&left, &right);
    assert_eq!(out.len(), 4);
    assert_eq!(out[0], (rec(1, "l0"), rec(1, "r0")));
    assert_eq!(out[1], (rec(1, "l1"), rec(1, "r0")));
    assert_eq!(out[2], (rec(2, "l2"), rec(2, "r1")));
    assert_eq!(out[3], (rec(2, "l2"), rec(2, "r2")));
}

#[test]
fn merge_join_chunk_boundaries_do_not_lose_pairs() {
    let left = vec![rec(1, "l0"), rec(1, "l1"), rec(2, "l2")];
    let right = vec![rec(1, "r0"), rec(2, "r1"), rec(2, "r2")];
    let expected = sequential_merge_join(&left, &right);
    assert_eq!(expected.len(), 4);
    for chunk_size in [1, 2, 3, 4] {
        assert_eq!(chunked_merge_join(&left, &right, chunk_size), expected);
    }
    assert_eq!(parallel_merge_join(&left, &right), expected);
}

#[test]
fn merge_join_with_duplicate_run_across_boundary() {
    let left = vec![rec(3, "a"), rec(3, "b"), rec(3, "c"), rec(5, "d")];
    let right = vec![rec(3, "x"), rec(3, "y"), rec(5, "z")];
    let expected = sequential_merge_join(&left, &right);
    assert_eq!(expected.len(), 7);
    for chunk_size in [1, 2, 3] {
        assert_eq!(chunked_merge_join(&left, &right, chunk_size), expected);
    }
}

#[test]
fn merge_join_of_disjoint_keys_is_empty() {
    let left = vec![rec(1, "a"), rec(3, "b")];
    let right = vec![rec(2, "x"), rec(4, "y")];
    assert_eq!(sequential_merge_join(&left, &right), vec![]);
    assert_eq!(parallel_merge_join(&left, &right), vec![]);
}
