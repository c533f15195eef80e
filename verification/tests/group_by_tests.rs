use par_query::group_by::adaptive_group_by;
use par_query::group_by::chunked_group_by;
use par_query::group_by::chunked_group_pairs;
use par_query::group_by::group_pairs;
use par_query::group_by::parallel_group_by;
use par_query::group_by::parallel_group_pairs;
use par_query::group_by::sequential_group_by;
use par_query::group_by::GroupByResult;
use par_query::joins::Record;

#[test]
fn group_by_aggregates_each_key() {
    let data = vec![(1, 2), (1, 4), (2, 5)];
    let out = sequential_group_by(&data, &|p: &(i64, i64)| *p);
    assert_eq!(out.len(), 2);
    assert_eq!(out[0], GroupByResult { key: 1, sum: 6, count: 2 });
    assert_eq!(out[1], GroupByResult { key: 2, sum: 5, count: 1 });
    let mean0 = out[0].sum as f64 / out[0].count as f64;
    let mean1 = out[1].sum as f64 / out[1].count as f64;
    assert_eq!(mean0, 3.0);
    assert_eq!(mean1, 5.0);
}

#[test]
fn group_by_applies_the_extractor() {
    let data = vec![
        Record { id: 7, value: "a".to_string() },
        Record { id: 7, value: "bc".to_string() },
        Record { id: 9, value: "d".to_string() },
    ];
    let key_func = |r: &Record| (r.id, r.value.len() as i64);
    let out = sequential_group_by(&data, &key_func);
    assert_eq!(out, vec![
        GroupByResult { key: 7, sum: 3, count: 2 },
        GroupByResult { key: 9, sum: 1, count: 1 },
    ]);
    assert_eq!(parallel_group_by(&data, &key_func), out);
    assert_eq!(adaptive_group_by(&data, &key_func).0, out);
}

#[test]
fn group_by_variants_agree() {
    let data: Vec<(i64, i64)> = (0..200).map(|x| (x % 5, x * 3 - 70)).collect();
    let ident = |p: &(i64, i64)| *p;
    let expected = sequential_group_by(&data, &ident);
    assert_eq!(parallel_group_by(&data, &ident), expected);
    for chunk_size in [1, 2, 7, 500] {
        assert_eq!(chunked_group_by(&data, &ident, chunk_size), expected);
    }
    assert_eq!(adaptive_group_by(&data, &ident).0, expected);
}

#[test]
fn group_pairs_variants_agree() {
    let data: Vec<(i64, i64)> = (0..150).map(|x| (x % 4, 10 - x)).collect();
    let expected = group_pairs(&data);
    assert_eq!(parallel_group_pairs(&data), expected);
    for chunk_size in [1, 3, 11, 200] {
        assert_eq!(chunked_group_pairs(&data, chunk_size), expected);
    }
}

#[test]
fn group_by_of_empty_input_is_empty() {
    let data: Vec<(i64, i64)> = vec![];
    assert_eq!(sequential_group_by(&data, &|p: &(i64, i64)| *p), vec![]);
    assert_eq!(parallel_group_by(&data, &|p: &(i64, i64)| *p), vec![]);
    assert_eq!(group_pairs(&data), vec![]);
}

#[test]
fn group_by_keeps_first_occurrence_order() {
    let data = vec![(9, 1), (2, 1), (9, 1), (7, 1), (2, 1)];
    let out = group_pairs(&data);
    let keys: Vec<i64> = out.iter().map(|g| g.key).collect();
    assert_eq!(keys, vec![9, 2, 7]);
    assert_eq!(parallel_group_pairs(&data), out);
}

#[test]
fn group_by_handles_negative_sums() {
    let data = vec![(4, -10), (4, -20), (4, 6)];
    let out = group_pairs(&data);
    assert_eq!(out, vec![GroupByResult { key: 4, sum: -24, count: 3 }]);
    assert_eq!(chunked_group_pairs(&data, 1), out);
    assert_eq!(sequential_group_by(&data, &|p: &(i64, i64)| *p), out);
}
