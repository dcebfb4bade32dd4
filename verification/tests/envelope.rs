use oscilloscope::envelope::{choose_stride, fit, thin, Bar, Envelope};
use oscilloscope::sample::Point;

fn env_points(xs: &[(f64, f64)]) -> Vec<Point> {
    xs.iter().map(|&(t, v)| Point { t: t.to_bits(), v: v.to_bits() }).collect()
}

fn env_of(values: &[f64], stride: u128, max_points: usize) -> Vec<(f64, f64)> {
    let times: Vec<u64> = (0..values.len()).map(|i| (i as f64).to_bits()).collect();
    let column: Vec<u64> = values.iter().map(|v| v.to_bits()).collect();
    let mut e = Envelope::new(1, 0.0f64.to_bits(), 1e9f64.to_bits(), stride);
    e.scan(&times, &vec![column], &vec![0]);
    e.finish(max_points)
        .remove(0)
        .iter()
        .map(|p| (f64::from_bits(p.t), f64::from_bits(p.v)))
        .collect()
}

#[test]
fn bins_show_their_extremes() {
    let e = env_of(&[1.0, 5.0, -2.0, 3.0, 3.0, 3.0, 7.0], 3, 100);
    assert_eq!(e, vec![(0.0, -2.0), (0.0, 5.0), (3.0, 3.0), (6.0, 7.0)]);
}

#[test]
fn a_stride_of_one_keeps_every_sample() {
    let e = env_of(&[1.0, 5.0, -2.0], 1, 100);
    assert_eq!(e, vec![(0.0, 1.0), (1.0, 5.0), (2.0, -2.0)]);
}

#[test]
fn a_spike_survives_any_stride() {
    let mut values = vec![0.0; 1_000];
    values[777] = 99.0;
    for stride in [7u128, 50, 1_000] {
        let e = env_of(&values, stride, 10_000);
        assert!(e.iter().any(|p| p.1 == 99.0));
        assert!(e.len() <= 2 * ((1_000 + stride as usize - 1) / stride as usize));
    }
}

#[test]
fn bins_persist_across_chunks() {
    let mut e = Envelope::new(1, 0.0f64.to_bits(), 10.0f64.to_bits(), 3);
    let t = |x: f64| x.to_bits();
    e.scan(&vec![t(0.0), t(1.0)], &vec![vec![t(4.0), t(2.0)]], &vec![0]);
    e.scan(&vec![t(2.0), t(3.0), t(11.0)], &vec![vec![t(9.0), t(1.0), t(50.0)]], &vec![0]);
    let out = e.finish(100);
    assert_eq!(out, vec![env_points(&[(0.0, 2.0), (0.0, 9.0), (3.0, 1.0)])]);
}

#[test]
fn a_missing_value_is_a_nan() {
    let mut e = Envelope::new(1, 0.0f64.to_bits(), 10.0f64.to_bits(), 1);
    e.scan(&vec![1.0f64.to_bits(), 2.0f64.to_bits()], &vec![vec![5.0f64.to_bits()]], &vec![0]);
    let out = e.finish(10).remove(0);
    assert_eq!(out.len(), 2);
    assert!(f64::from_bits(out[1].v).is_nan());
}

#[test]
fn strides_follow_the_points_wanted() {
    assert_eq!(choose_stride(10, 100), 1);
    assert_eq!(choose_stride(50, 100), 1);
    assert_eq!(choose_stride(51, 100), 1);
    assert_eq!(choose_stride(99, 100), 1);
    assert_eq!(choose_stride(100, 100), 2);
    assert_eq!(choose_stride(101, 100), 2);
    assert_eq!(choose_stride(1_000, 100), 20);
    assert_eq!(choose_stride(1_049, 100), 20);
    assert_eq!(choose_stride(4, 4), 2);
    assert_eq!(choose_stride(7, 4), 3);
    assert_eq!(choose_stride(0, 0), 1);
    assert_eq!(choose_stride(1_000, 0), 1_000);
    assert_eq!(choose_stride(1_000, 3), 1_000);
}

#[test]
fn thinning_keeps_every_so_many_th_point() {
    let points: Vec<Point> = (0..10).map(|i| Point { t: i, v: i }).collect();
    assert_eq!(thin(points.clone(), 10).len(), 10);
    let kept: Vec<u64> = thin(points.clone(), 6).iter().map(|p| p.t).collect();
    assert_eq!(kept, vec![0, 2, 4, 6, 8]);
    let kept: Vec<u64> = thin(points.clone(), 3).iter().map(|p| p.t).collect();
    assert_eq!(kept, vec![0, 4, 8]);
    let kept: Vec<u64> = thin(points, 1).iter().map(|p| p.t).collect();
    assert_eq!(kept, vec![0]);
    assert!(thin(Vec::new(), 0).is_empty());
}

#[test]
fn no_more_points_than_wanted() {
    for rows in [1usize, 2, 4, 5, 6, 7, 19, 100, 101, 999] {
        let mut values: Vec<f64> = (0..rows).map(|i| ((i * 7) % 13) as f64).collect();
        values[rows / 2] = 50.0;
        values[rows / 3] = -50.0;
        for wanted in [1usize, 2, 3, 4, 5, 10, 50, 100, 101] {
            let stride = choose_stride(rows as u128, wanted);
            let shown = env_of(&values, stride, wanted);
            assert!(shown.len() <= wanted, "{} of {} rows for {}", shown.len(), rows, wanted);
            if rows < 2 * (wanted / 2).max(1) {
                assert_eq!(shown.len(), rows);
            }
            if wanted >= 2 {
                let low = values.iter().cloned().fold(f64::INFINITY, f64::min);
                let high = values.iter().cloned().fold(f64::NEG_INFINITY, f64::max);
                assert!(shown.iter().any(|p| p.1 == low));
                assert!(shown.iter().any(|p| p.1 == high));
            }
        }
    }
}

fn fitted(bars: &[(f64, f64, f64)], wanted: usize) -> Vec<(f64, f64)> {
    let bars: Vec<Bar> = bars
        .iter()
        .map(|&(t, low, high)| Bar { t: t.to_bits(), low: low.to_bits(), high: high.to_bits() })
        .collect();
    fit(&bars, wanted).iter().map(|p| (f64::from_bits(p.t), f64::from_bits(p.v))).collect()
}

#[test]
fn bars_are_taken_together_before_any_is_lost() {
    let bars = [(0.0, 1.0, 2.0), (1.0, -7.0, 0.0), (2.0, 0.0, 9.0)];
    let all =
        vec![(0.0, 1.0), (0.0, 2.0), (1.0, -7.0), (1.0, 0.0), (2.0, 0.0), (2.0, 9.0)];
    assert_eq!(fitted(&bars, 6), all);
    let pairs = vec![(0.0, -7.0), (0.0, 2.0), (2.0, 0.0), (2.0, 9.0)];
    assert_eq!(fitted(&bars, 5), pairs);
    assert_eq!(fitted(&bars, 4), pairs);
    assert_eq!(fitted(&bars, 3), vec![(0.0, 1.0), (1.0, -7.0), (2.0, 0.0)]);
    assert_eq!(fitted(&bars, 1), vec![(0.0, 1.0)]);
    assert!(fitted(&[], 0).is_empty());
}

#[test]
fn bins_that_do_not_come_out_even() {
    // Nine rows for six points make three bins of three rows.
    let e = env_of(&[0.0, 1.0, 2.0, 3.0, 4.0, 5.0, 6.0, 7.0, 8.0], choose_stride(9, 6), 6);
    assert_eq!(
        e,
        vec![(0.0, 0.0), (0.0, 2.0), (3.0, 3.0), (3.0, 5.0), (6.0, 6.0), (6.0, 8.0)]
    );
    // A tenth row begins a fourth bin; neighbours are then taken together.
    let e = env_of(&[0.0, 1.0, 2.0, 3.0, 4.0, 5.0, 6.0, 7.0, 8.0, 9.0], choose_stride(10, 6), 6);
    assert_eq!(e, vec![(0.0, 0.0), (0.0, 5.0), (6.0, 6.0), (6.0, 9.0)]);
}
