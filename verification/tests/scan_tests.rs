use par_query::scans::adaptive_scan;
use par_query::scans::adaptive_scan_with_filter;
use par_query::scans::normal_scan;
use par_query::scans::normal_scan_with_filter;
use par_query::scans::parallel_scan;
use par_query::scans::parallel_scan_chunked;
use par_query::scans::parallel_scan_chunked_with_filter;
use par_query::scans::parallel_scan_with_filter;

#[test]
fn scan_variants_agree_on_all_sizes() {
    let double = |x: i64| x * 2;
    for data in [vec![], vec![3], vec![1, -2, 3, -4, 5], (0..300).collect::<Vec<i64>>()] {
        let expected = normal_scan(&data, &double);
        assert_eq!(parallel_scan(&data, &double), expected);
        assert_eq!(adaptive_scan(&data, &double), expected);
        for chunk_size in [1, 2, 7, 1000] {
            assert_eq!(parallel_scan_chunked(&data, &double, chunk_size), expected);
        }
    }
}

#[test]
fn scan_preserves_order() {
    let data = vec![10, 20, 30];
    assert_eq!(normal_scan(&data, &|x| x + 1), vec![11, 21, 31]);
    assert_eq!(parallel_scan_chunked(&data, &|x| x + 1, 2), vec![11, 21, 31]);
}

#[test]
fn filtered_scan_keeps_only_accepted_elements() {
    let data = vec![1, 2, 3, 4, 5, 6];
    let out = normal_scan_with_filter(&data, &|x| x * 10, &|x| x % 2 == 0);
    assert_eq!(out, vec![20, 40, 60]);
}

#[test]
fn filtered_scan_variants_agree() {
    let keep_odd = |x: i64| x % 2 == 1;
    let negate = |x: i64| -x;
    for data in [vec![], vec![2], vec![9, 8, 7, 6, 5], (0..250).collect::<Vec<i64>>()] {
        let expected = normal_scan_with_filter(&data, &negate, &keep_odd);
        assert_eq!(parallel_scan_with_filter(&data, &negate, &keep_odd), expected);
        assert_eq!(adaptive_scan_with_filter(&data, &negate, &keep_odd), expected);
        for chunk_size in [1, 3, 8] {
            assert_eq!(
                parallel_scan_chunked_with_filter(&data, &negate, &keep_odd, chunk_size),
                expected
            );
        }
    }
}

#[test]
fn filtered_scan_can_drop_everything() {
    let data = vec![1, 3, 5];
    let out = normal_scan_with_filter(&data, &|x| x, &|_x| false);
    assert_eq!(out, Vec::<i64>::new());
}
