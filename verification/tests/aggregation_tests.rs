use par_query::aggregations::adaptive_avg;
use par_query::aggregations::adaptive_count;
use par_query::aggregations::adaptive_distinct_count;
use par_query::aggregations::adaptive_max;
use par_query::aggregations::adaptive_median;
use par_query::aggregations::adaptive_min;
use par_query::aggregations::chunked_avg;
use par_query::aggregations::chunked_count;
use par_query::aggregations::chunked_distinct_count;
use par_query::aggregations::chunked_max;
use par_query::aggregations::chunked_median;
use par_query::aggregations::chunked_min;
use par_query::aggregations::chunked_sum;
use par_query::aggregations::normal_avg;
use par_query::aggregations::normal_count;
use par_query::aggregations::normal_distinct_count;
use par_query::aggregations::normal_max;
use par_query::aggregations::normal_min;
use par_query::aggregations::normal_sum;
use par_query::aggregations::parallel_avg;
use par_query::aggregations::parallel_count;
use par_query::aggregations::parallel_distinct_count;
use par_query::aggregations::parallel_max;
use par_query::aggregations::parallel_median;
use par_query::aggregations::parallel_min;
use par_query::aggregations::parallel_sum;
use par_query::aggregations::sequential_median;

#[test]
fn sum_variants_agree_on_all_sizes() {
    for data in [vec![], vec![7], vec![3, -1, 4, 1, -5, 9, 2, 6], (0..100).collect::<Vec<i64>>()] {
        let expected = normal_sum(&data);
        assert_eq!(parallel_sum(&data), expected);
        for chunk_size in [1, 2, 3, 7, 100] {
            assert_eq!(chunked_sum(&data, chunk_size), expected);
        }
    }
}

#[test]
fn sum_of_known_values() {
    let data = vec![1, 2, 3, 4, 5];
    assert_eq!(normal_sum(&data), 15);
    assert_eq!(chunked_sum(&data, 2), 15);
}

#[test]
fn empty_sum_is_additive_identity() {
    let data: Vec<i64> = vec![];
    assert_eq!(normal_sum(&data), 0);
    assert_eq!(parallel_sum(&data), 0);
}

#[test]
fn empty_count_is_zero() {
    let data: Vec<i64> = vec![];
    assert_eq!(normal_count(&data), 0);
    assert_eq!(parallel_count(&data), 0);
}

#[test]
fn empty_average_is_the_empty_indicator() {
    let data: Vec<i64> = vec![];
    assert_eq!(normal_avg(&data), None);
    assert_eq!(parallel_avg(&data), None);
    assert_eq!(adaptive_avg(&data).0, None);
}

#[test]
fn count_variants_agree() {
    for data in [vec![], vec![5], vec![1, 1, 1, 1], (0..37).collect::<Vec<i64>>()] {
        let expected = normal_count(&data);
        assert_eq!(parallel_count(&data), expected);
        for chunk_size in [1, 3, 50] {
            assert_eq!(chunked_count(&data, chunk_size), expected);
        }
    }
}

#[test]
fn average_is_sum_and_count() {
    let data = vec![1, 2, 3, 4];
    assert_eq!(normal_avg(&data), Some((10, 4)));
    assert_eq!(parallel_avg(&data), Some((10, 4)));
    for chunk_size in [1, 2, 3] {
        assert_eq!(chunked_avg(&data, chunk_size), Some((10, 4)));
    }
    let (sum, count) = normal_avg(&data).unwrap();
    assert_eq!(sum as f64 / count as f64, 2.5);
}

#[test]
fn min_max_variants_agree() {
    for data in [vec![], vec![-3], vec![5, -2, 8, -2, 0], (0..64).map(|x| 31 - x).collect::<Vec<i64>>()] {
        assert_eq!(parallel_min(&data), normal_min(&data));
        assert_eq!(parallel_max(&data), normal_max(&data));
        for chunk_size in [1, 2, 5] {
            assert_eq!(chunked_min(&data, chunk_size), normal_min(&data));
            assert_eq!(chunked_max(&data, chunk_size), normal_max(&data));
        }
    }
}

#[test]
fn min_max_of_known_values() {
    let data = vec![5, -2, 8, -2, 0];
    assert_eq!(normal_min(&data), Some(-2));
    assert_eq!(normal_max(&data), Some(8));
    assert_eq!(normal_min(&vec![]), None);
    assert_eq!(normal_max(&vec![]), None);
    assert_eq!(adaptive_min(&data).0, Some(-2));
    assert_eq!(adaptive_max(&data).0, Some(8));
}

#[test]
fn distinct_count_regardless_of_chunk_size() {
    let data = vec![1, 1, 2, 2, 3];
    assert_eq!(normal_distinct_count(&data), 3);
    assert_eq!(parallel_distinct_count(&data), 3);
    for chunk_size in [1, 2, 5, 10] {
        assert_eq!(chunked_distinct_count(&data, chunk_size), 3);
    }
    assert_eq!(adaptive_distinct_count(&data).0, 3);
}

#[test]
fn distinct_count_variants_agree() {
    for data in [vec![], vec![9], vec![4, 4, 4, 4], (0..50).map(|x| x % 7).collect::<Vec<i64>>()] {
        let expected = normal_distinct_count(&data);
        assert_eq!(parallel_distinct_count(&data), expected);
        for chunk_size in [1, 3, 8] {
            assert_eq!(chunked_distinct_count(&data, chunk_size), expected);
        }
    }
}

#[test]
fn median_odd_length_is_middle_of_sorted() {
    let data = vec![5, 3, 1, 4, 2];
    assert_eq!(sequential_median(&data), Some(3));
    assert_eq!(parallel_median(&data), Some(3));
    for chunk_size in [1, 2, 3, 5] {
        assert_eq!(chunked_median(&data, chunk_size), Some(3));
    }
}

#[test]
fn median_even_length_is_lower_median() {
    let data = vec![1, 2, 3, 4];
    assert_eq!(sequential_median(&data), Some(2));
    for chunk_size in [1, 2, 4] {
        assert_eq!(chunked_median(&data, chunk_size), Some(2));
    }
    assert_eq!(adaptive_median(&data).0, Some(2));
}

#[test]
fn median_of_empty_is_the_empty_indicator() {
    let data: Vec<i64> = vec![];
    assert_eq!(sequential_median(&data), None);
    assert_eq!(parallel_median(&data), None);
}

#[test]
fn median_variants_agree() {
    for data in [vec![8], vec![2, 2, 2], vec![9, -1, 3, 3, 7, 0], (0..33).map(|x| (x * 13) % 11).collect::<Vec<i64>>()] {
        let expected = sequential_median(&data);
        assert_eq!(parallel_median(&data), expected);
        for chunk_size in [1, 2, 4, 50] {
            assert_eq!(chunked_median(&data, chunk_size), expected);
        }
    }
}

#[test]
fn adaptive_count_always_reports_sequential() {
    let data: Vec<i64> = (0..200).collect();
    let (value, strategy) = adaptive_count(&data);
    assert_eq!(value, 200);
    assert_eq!(strategy, par_query::parallel::Strategy::Sequential);
}
