use oscilloscope::sample::Sample;
use oscilloscope::stats::{finite_values, ChannelStats};

fn stats_bits(xs: &[f64]) -> Vec<Sample> {
    xs.iter().map(|x| x.to_bits()).collect()
}

fn stats_over(xs: &[f64]) -> ChannelStats {
    let finite: Vec<f64> = xs.iter().copied().filter(|x| x.is_finite()).collect();
    let sum: f64 = finite.iter().fold(0.0, |acc, x| acc + x);
    let sum_sq: f64 = finite.iter().fold(0.0, |acc, x| acc + x * x);
    ChannelStats::from_values(&stats_bits(xs), sum.to_bits(), sum_sq.to_bits())
}

fn stats_merge(acc: &mut ChannelStats, other: &ChannelStats) {
    let sum = f64::from_bits(acc.sum) + f64::from_bits(other.sum);
    let sum_sq = f64::from_bits(acc.sum_sq) + f64::from_bits(other.sum_sq);
    acc.merge(other, sum.to_bits(), sum_sq.to_bits());
}

#[test]
fn channel_stats_from_values_skips_nan() {
    let vals = vec![1.0, f64::NAN, 3.0, f64::INFINITY, -2.0];
    let s = stats_over(&vals);
    assert_eq!(s.count, 3);
    assert!((f64::from_bits(s.min) - (-2.0)).abs() < 1e-15);
    assert!((f64::from_bits(s.max) - 3.0).abs() < 1e-15);
    assert!((f64::from_bits(s.sum) - 2.0).abs() < 1e-15);
    assert!(f64::from_bits(s.sum).is_finite());
    assert!((f64::from_bits(s.sum) / 3.0 - (2.0 / 3.0)).abs() < 1e-15);
}

#[test]
fn channel_stats_all_nan_has_zero_count() {
    let s = stats_over(&[f64::NAN, f64::NAN]);
    assert_eq!(s.count, 0);
    let (min, max) = (f64::from_bits(s.min), f64::from_bits(s.max));
    assert!(min.is_infinite() && min > 0.0);
    assert!(max.is_infinite() && max < 0.0);
}

#[test]
fn channel_stats_merge_combines() {
    let a = stats_over(&[1.0, 2.0]);
    let b = stats_over(&[0.5, 4.0]);
    let mut acc = a;
    stats_merge(&mut acc, &b);
    assert_eq!(acc.count, 4);
    assert!((f64::from_bits(acc.min) - 0.5).abs() < 1e-15);
    assert!((f64::from_bits(acc.max) - 4.0).abs() < 1e-15);
    assert!((f64::from_bits(acc.sum) - 7.5).abs() < 1e-15);
    assert!((f64::from_bits(acc.sum_sq) - (1.0 + 4.0 + 0.25 + 16.0)).abs() < 1e-15);
}

#[test]
fn channel_stats_merge_ignores_empty() {
    let mut a = stats_over(&[1.0, 2.0]);
    let empty = stats_over(&[f64::NAN]);
    stats_merge(&mut a, &empty);
    assert_eq!(a.count, 2);
}

#[test]
fn merging_parts_gives_the_whole() {
    let (a, b) = ([3.0, -7.5, f64::NAN], [0.25, 9.0, f64::NEG_INFINITY]);
    let mut parts = stats_over(&a);
    stats_merge(&mut parts, &stats_over(&b));
    let whole = stats_over(&[3.0, -7.5, f64::NAN, 0.25, 9.0, f64::NEG_INFINITY]);
    assert_eq!(parts, whole);
}

#[test]
fn an_aggregate_over_nothing_is_neutral() {
    let e = ChannelStats::empty();
    assert_eq!(e, stats_over(&[]));
    let mut acc = ChannelStats::empty();
    stats_merge(&mut acc, &stats_over(&[5.0]));
    assert_eq!(acc, stats_over(&[5.0]));
}

#[test]
fn only_finite_values_are_kept() {
    let kept = finite_values(&stats_bits(&[1.0, f64::NAN, -0.0, f64::INFINITY, 2.0]));
    assert_eq!(kept, stats_bits(&[1.0, -0.0, 2.0]));
}
