use emolytics::statistics::{compute_statistics, percentile_index, StatisticsResult};

fn ratio_value(num: i128, den: usize) -> f64 {
    num as f64 / den as f64
}

fn percentile(r: &StatisticsResult, label: &str) -> Option<i64> {
    r.percentiles.iter().find(|p| p.0 == label).map(|p| p.1)
}

#[test]
fn test_compute_statistics() {
    let values = vec![1i64, 2, 3, 4, 5];
    let result = compute_statistics(&values);

    assert_eq!(ratio_value(result.mean.num, result.mean.den), 3.0);
    assert_eq!(ratio_value(result.median.num, result.median.den), 3.0);
    assert_eq!(result.min as f64, 1.0);
    assert_eq!(result.max as f64, 5.0);
    assert!(percentile(&result, "p50").is_some());
}

#[test]
fn test_compute_statistics_empty() {
    let result = compute_statistics(&vec![]);
    assert_eq!(ratio_value(result.mean.num, result.mean.den), 0.0);
    assert_eq!(ratio_value(result.median.num, result.median.den), 0.0);
    assert_eq!(result.min, 0);
    assert_eq!(result.max, 0);
    assert!(result.percentiles.is_empty());
}

#[test]
fn test_statistics_exact_percentiles() {
    let values = vec![5i64, 1, 4, 2, 3];
    let result = compute_statistics(&values);
    assert_eq!(percentile(&result, "p10"), Some(1));
    assert_eq!(percentile(&result, "p25"), Some(2));
    assert_eq!(percentile(&result, "p50"), Some(3));
    assert_eq!(percentile(&result, "p75"), Some(4));
    assert_eq!(percentile(&result, "p90"), Some(5));
    assert_eq!(percentile(&result, "p95"), Some(5));
    assert_eq!(percentile(&result, "p99"), Some(5));
    assert_eq!(result.percentiles.len(), 7);
}

#[test]
fn test_statistics_even_length_median() {
    let values = vec![4i64, 1, 3, 2];
    let result = compute_statistics(&values);
    assert_eq!(ratio_value(result.median.num, result.median.den), 2.5);
    assert_eq!(ratio_value(result.mean.num, result.mean.den), 2.5);
    assert_eq!(result.min, 1);
    assert_eq!(result.max, 4);
}

#[test]
fn test_statistics_summary_ordered() {
    let values = vec![-7i64, 12, 0, 5, 5, -3, 9, 22, 1, -1, 4];
    let r = compute_statistics(&values);
    let chain = [
        r.min,
        percentile(&r, "p10").unwrap(),
        percentile(&r, "p25").unwrap(),
    ];
    assert!(chain.windows(2).all(|w| w[0] <= w[1]));
    let med = ratio_value(r.median.num, r.median.den);
    assert!(percentile(&r, "p25").unwrap() as f64 <= med);
    assert!(med <= percentile(&r, "p75").unwrap() as f64);
    let upper = [
        percentile(&r, "p75").unwrap(),
        percentile(&r, "p90").unwrap(),
        percentile(&r, "p95").unwrap(),
        percentile(&r, "p99").unwrap(),
        r.max,
    ];
    assert!(upper.windows(2).all(|w| w[0] <= w[1]));
    let mean = ratio_value(r.mean.num, r.mean.den);
    assert!(r.min as f64 <= mean && mean <= r.max as f64);
}

#[test]
fn test_percentile_index_formula() {
    // round(p/100 * (n-1)) at n = 5
    assert_eq!(percentile_index(10, 5), 0);
    assert_eq!(percentile_index(25, 5), 1);
    assert_eq!(percentile_index(50, 5), 2);
    assert_eq!(percentile_index(75, 5), 3);
    assert_eq!(percentile_index(90, 5), 4);
    assert_eq!(percentile_index(99, 5), 4);
    assert_eq!(percentile_index(50, 1), 0);
}

#[test]
fn test_statistics_rerun_is_identical() {
    let values = vec![3i64, -2, 8, 8, 0];
    let a = compute_statistics(&values);
    let b = compute_statistics(&values);
    assert_eq!(a.mean, b.mean);
    assert_eq!(a.median, b.median);
    assert_eq!(a.min, b.min);
    assert_eq!(a.max, b.max);
    assert_eq!(a.percentiles.len(), b.percentiles.len());
    for (x, y) in a.percentiles.iter().zip(b.percentiles.iter()) {
        assert_eq!(x.0, y.0);
        assert_eq!(x.1, y.1);
    }
}
