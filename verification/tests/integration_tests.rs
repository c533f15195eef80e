use par_query::parser::parse_sql;
use par_query::scans::normal_scan;
use par_query::scans::parallel_scan;

#[test]
fn test_parse_simple_query() {
    let query = "SELECT * FROM users";
    let _parsed = parse_sql(query).unwrap();
}

#[test]
fn test_parse_complex_query() {
    let query = "SELECT u.name, c.city FROM users u JOIN cities c ON u.city_id = c.id WHERE u.age > 30 ORDER BY u.name";
    let _parsed = parse_sql(query).unwrap();
}

#[test]
fn test_normal_scan() {
    let data = vec![1, 2, 3, 4, 5];
    let result = normal_scan(&data, &|x| x * 2);
    assert_eq!(result, vec![2, 4, 6, 8, 10]);
}

#[test]
fn test_parallel_scan() {
    let data = vec![1, 2, 3, 4, 5];
    let result = parallel_scan(&data, &|x| x * 2);
    assert_eq!(result, vec![2, 4, 6, 8, 10]);
}

#[test]
fn test_parallel_scan_large_data() {
    let data: Vec<i64> = (0..1_000_000).collect();
    let result = parallel_scan(&data, &|x| x + 1);
    assert_eq!(result.len(), 1_000_000);
    assert_eq!(result[0], 1);
    assert_eq!(result[999_999], 1_000_000);
}
