#[test]
fn test_ops_per_second_calculation() {
    // A benchmark result of about 37,494 nanoseconds per operation
    let nanoseconds = 37494.0;
    let microseconds = nanoseconds / 1000.0;
    let ops_per_second = 1_000_000.0 / microseconds;

    // Should be around 26,670 ops/sec
    assert!((ops_per_second - 26670.0_f64).abs() < 100.0);
}
