use par_query::aggregations::adaptive_sum;
use par_query::aggregations::normal_sum;
use par_query::parallel::chunk_size_for;
use par_query::parallel::determine_chunk_size;
use par_query::parallel::should_parallelize;
use par_query::parallel::Strategy;
use par_query::parallel::BASE_CHUNK_SIZE;
use par_query::parallel::PARALLEL_THRESHOLD;

#[test]
fn adaptive_sum_below_threshold_is_sequential() {
    let data: Vec<i64> = (0..100).collect();
    let (value, strategy) = adaptive_sum(&data);
    assert_eq!(value, normal_sum(&data));
    assert_eq!(strategy, Strategy::Sequential);
}

#[test]
fn adaptive_sum_above_threshold_is_parallel() {
    let data: Vec<i64> = (0..(PARALLEL_THRESHOLD as i64 + 1)).collect();
    let (value, strategy) = adaptive_sum(&data);
    assert_eq!(value, normal_sum(&data));
    assert_eq!(strategy, Strategy::Parallel);
}

#[test]
fn threshold_boundary_is_sequential() {
    let data: Vec<i64> = (0..(PARALLEL_THRESHOLD as i64)).collect();
    let (value, strategy) = adaptive_sum(&data);
    assert_eq!(value, normal_sum(&data));
    assert_eq!(strategy, Strategy::Sequential);
    assert!(!should_parallelize(PARALLEL_THRESHOLD));
    assert!(should_parallelize(PARALLEL_THRESHOLD + 1));
}

#[test]
fn chunk_size_policy_has_a_floor() {
    assert_eq!(chunk_size_for(0, 4), BASE_CHUNK_SIZE);
    assert_eq!(chunk_size_for(1_000_000, 4), 125_000);
    assert_eq!(chunk_size_for(80_000, 4), BASE_CHUNK_SIZE);
    assert!(determine_chunk_size(1_000_000) >= BASE_CHUNK_SIZE);
}

#[test]
fn parse_errors_are_distinguished() {
    let err = par_query::parser::parse_sql("THIS IS NOT SQL @@@");
    assert!(matches!(err, Err(par_query::parser::ParseSqlError::Syntax(_))));
    let empty = par_query::parser::parse_sql("");
    assert!(matches!(empty, Err(par_query::parser::ParseSqlError::Empty)));
}
