use oscilloscope::density::{column_density, compute_density, peak_count, CachedState};
use oscilloscope::export::{csv_header, export_row, pixel_position, row_count, xy_points};
use oscilloscope::eye_diagram::{
    advance_to, cell_index, cluster_len, core_range, edge_candidate, eye_work,
    find_clock_crossings, find_signal_edges, positive_durations, quartiles, rows_from_columns,
    ClockPolarity, EyeColorMode, EyeWork,
};
use oscilloscope::fft_analysis::{input_len, spectrum_len, transform_len, WindowType};
use oscilloscope::measurement::{
    find_edge, first_reach, level_crossings, prefix_letter, range_of_values, value_style,
    ValueStyle,
};
use oscilloscope::sample::{Point, Sample};
use oscilloscope::sort::sort_samples;

fn wave(values: &[f64]) -> Vec<Point> {
    values
        .iter()
        .enumerate()
        .map(|(i, v)| Point { t: (i as f64).to_bits(), v: v.to_bits() })
        .collect()
}

fn bits(x: f64) -> Sample {
    x.to_bits()
}

#[test]
fn segments_cover_the_pixels_between_their_ends() {
    assert_eq!(column_density(&[0, 2, 1], 0, 2, 4), vec![1, 2, 2, 0]);
    assert_eq!(column_density(&[-5, 9, 3], 0, 1, 3), vec![1, 1, 1]);
    assert_eq!(column_density(&[1, 1, 1], 2, 1, 3), vec![0, 0, 0]);
}

#[test]
fn density_is_stored_row_by_row() {
    let points = wave(&[0.0, 1.0, 0.0]);
    let edges = [(bits(0.0), bits(0.5)), (bits(0.5), bits(2.0))];
    let image = compute_density(&points, &[0, 1, 0], &edges, 2, 2);
    assert_eq!(image, vec![1, 1, 1, 1]);
    let image = compute_density(&points, &[0, 0, 1], &edges, 2, 2);
    assert_eq!(image, vec![1, 1, 0, 1]);
    assert_eq!(peak_count(&image), 1);
    assert_eq!(peak_count(&[0, 7, 3]), 7);
    assert_eq!(peak_count(&[]), 1);
}

#[test]
fn pictures_serve_smaller_ranges() {
    let wide = CachedState {
        n_points: 5,
        x_min: bits(0.0),
        x_max: bits(10.0),
        y_min: bits(-1.0),
        y_max: bits(1.0),
        width: 20,
        height: 10,
    };
    let narrow = CachedState { x_min: bits(2.0), x_max: bits(9.0), ..wide };
    assert!(wide.serves(&narrow));
    assert!(!narrow.serves(&wide));
    assert!(!wide.serves(&CachedState { n_points: 6, ..narrow }));
    assert!(!CachedState::new().serves(&narrow));
    assert!(wide.drawable());
    assert!(!CachedState { n_points: 1, ..wide }.drawable());
    assert!(!CachedState { x_max: bits(0.0), ..wide }.drawable());
}

#[test]
fn noise_around_a_threshold_triggers_once() {
    let signal = wave(&[0.0, 1.1, 0.9, 1.1, 0.0, 1.2, 0.0]);
    let (hi, lo) = (bits(1.0), bits(0.5));
    assert_eq!(find_signal_edges(&signal, hi, lo, ClockPolarity::Rising), vec![1, 5]);
    assert_eq!(find_signal_edges(&signal, hi, lo, ClockPolarity::Falling), vec![4, 6]);
    assert_eq!(find_signal_edges(&signal, hi, lo, ClockPolarity::Both), vec![1, 4, 5, 6]);
    assert_eq!(find_signal_edges(&[], hi, lo, ClockPolarity::Rising), Vec::<usize>::new());
}

#[test]
fn clocks_trigger_at_their_middle_level() {
    let clock = wave(&[0.0, 1.0, 1.0, 0.0, 0.5, 1.0]);
    let mid = bits(0.5);
    assert_eq!(find_clock_crossings(&clock, mid, ClockPolarity::Rising), vec![1, 5]);
    assert_eq!(find_clock_crossings(&clock, mid, ClockPolarity::Falling), vec![3]);
    assert_eq!(find_clock_crossings(&clock, mid, ClockPolarity::Both), vec![1, 3, 5]);
}

#[test]
fn points_up_to_an_instant() {
    let points = wave(&[0.0; 5]);
    assert_eq!(advance_to(&points, 1, bits(3.0)), 3);
    assert_eq!(advance_to(&points, 1, bits(99.0)), 5);
    assert_eq!(edge_candidate(&points, 1, bits(2.5)), 3);
    assert_eq!(edge_candidate(&points, 1, bits(99.0)), 4);
}

#[test]
fn the_unit_interval_leaves_out_the_tails() {
    assert_eq!(core_range(0), None);
    assert_eq!(core_range(1), Some((0, 1)));
    assert_eq!(core_range(9), Some((0, 9)));
    assert_eq!(core_range(15), Some((1, 14)));
    assert_eq!(core_range(20), Some((2, 18)));
    assert_eq!(core_range(100), Some((10, 90)));
    assert_eq!(cluster_len(&[false, false, true, false]), 2);
    assert_eq!(cluster_len(&[true, false]), 2);
    assert_eq!(cluster_len(&[]), 0);
    let kept = positive_durations(&[bits(2.0), bits(0.0), bits(-1.0), bits(3.0), bits(f64::NAN)]);
    assert_eq!(kept, vec![bits(2.0), bits(3.0)]);
    let sorted: Vec<Sample> = (0..8).map(|i| bits(i as f64)).collect();
    assert_eq!(quartiles(&sorted), (bits(2.0), bits(6.0)));
}

#[test]
fn samples_are_sorted() {
    let values = [3.0, -1.0, f64::INFINITY, 0.5, -7.0, 3.0];
    let sorted = sort_samples(&values.map(bits));
    let floats: Vec<f64> = sorted.iter().map(|&b| f64::from_bits(b)).collect();
    assert_eq!(floats, vec![-7.0, -1.0, 0.5, 3.0, 3.0, f64::INFINITY]);
    assert!(sort_samples(&[]).is_empty());
}

#[test]
fn cells_of_the_grid() {
    assert_eq!(cell_index(2, 3, 5, 10), Some(23));
    assert_eq!(cell_index(-1, 3, 5, 10), None);
    assert_eq!(cell_index(5, 3, 5, 10), None);
    assert_eq!(cell_index(0, i64::MAX, 5, 10), None);
    assert_eq!(rows_from_columns(&[1, 2, 3, 4, 5, 6], 2, 3), vec![1, 4, 2, 5, 3, 6]);
}

#[test]
fn choices_of_the_eye_diagram() {
    assert_eq!(EyeColorMode::all().len(), 8);
    assert_eq!(EyeColorMode::all()[0].label(), "Monochrome");
    assert_eq!(EyeColorMode::CrtAmber.label(), "CRT Amber");
    assert_eq!(ClockPolarity::all().len(), 3);
    assert_eq!(ClockPolarity::Both.label(), "Both");
    assert_eq!(eye_work(true, true, true), EyeWork::IntervalAndDiagram);
    assert_eq!(eye_work(false, false, true), EyeWork::Diagram);
    assert_eq!(eye_work(false, false, false), EyeWork::Nothing);
}

#[test]
fn lengths_of_a_transform() {
    assert_eq!(input_len(3), None);
    assert_eq!(input_len(4), Some(4));
    assert_eq!(input_len(1_000_000), Some(131_072));
    assert_eq!(transform_len(1), 1);
    assert_eq!(transform_len(5), 8);
    assert_eq!(transform_len(131_072), 131_072);
    assert_eq!(spectrum_len(8), 5);
    assert_eq!(WindowType::BlackmanHarris.label(), "Blackman-Harris");
    assert_eq!(WindowType::Hanning.label(), "Hanning");
}

#[test]
fn crossings_of_the_middle_level() {
    let points = wave(&[0.0, 1.0, 0.0, 0.0, 1.0]);
    assert_eq!(level_crossings(&points, bits(0.5)), (vec![1, 4], vec![2]));
    let (lo, hi) = range_of_values(&wave(&[1.0, f64::NAN, -3.0]));
    assert_eq!((f64::from_bits(lo), f64::from_bits(hi)), (-3.0, 1.0));
    let (lo, hi) = range_of_values(&wave(&[f64::NAN]));
    assert_eq!((f64::from_bits(lo), f64::from_bits(hi)), (f64::INFINITY, f64::NEG_INFINITY));
}

#[test]
fn the_first_edge_is_measured() {
    let points = wave(&[0.0, 0.05, 0.5, 0.95, 0.5, 0.0]);
    assert_eq!(find_edge(&points, bits(0.1), bits(0.9), true), Some((2, 3)));
    assert_eq!(find_edge(&points, bits(0.9), bits(0.1), false), Some((4, 5)));
    // A signal may jump across both levels at once.
    let jump = wave(&[0.0, 1.0, 1.0]);
    assert_eq!(find_edge(&jump, bits(0.1), bits(0.9), true), Some((1, 1)));
    let square = wave(&[0.0, 1.0, 0.0, 1.0]);
    assert_eq!(find_edge(&square, bits(0.1), bits(0.9), true), Some((1, 1)));
    assert_eq!(find_edge(&square, bits(0.9), bits(0.1), false), Some((2, 2)));
    assert_eq!(find_edge(&wave(&[0.0, 0.5]), bits(0.1), bits(0.9), true), None);
    assert_eq!(find_edge(&wave(&[1.0, 1.0]), bits(0.1), bits(0.9), true), None);
    assert_eq!(first_reach(&jump, 1, bits(0.9), true), Some(1));
    assert_eq!(first_reach(&jump, 2, bits(0.9), true), None);
}

#[test]
fn values_get_prefixes() {
    let style = |x: f64| value_style(x.to_bits());
    assert_eq!(style(f64::NAN), ValueStyle::Missing);
    assert_eq!(style(f64::INFINITY), ValueStyle::Missing);
    assert_eq!(style(-0.0), ValueStyle::Zero);
    assert_eq!(style(2.5e12), ValueStyle::Prefixed(0));
    assert_eq!(style(999.0), ValueStyle::Prefixed(3));
    assert_eq!(style(998.9), ValueStyle::Prefixed(4));
    assert_eq!(style(1.0), ValueStyle::Prefixed(4));
    assert_eq!(style(-0.5), ValueStyle::Prefixed(5));
    assert_eq!(style(1e-12), ValueStyle::Prefixed(8));
    assert_eq!(style(1e-13), ValueStyle::Scientific);
    for (k, scale) in [1e12, 1e9, 1e6, 1e3, 1.0, 1e-3, 1e-6, 1e-9, 1e-12].iter().enumerate() {
        assert_eq!(style(scale * 0.999), ValueStyle::Prefixed(k));
        let below = f64::from_bits((scale * 0.999f64).to_bits() - 1);
        assert_ne!(style(below), ValueStyle::Prefixed(k));
    }
    assert_eq!((prefix_letter(0), prefix_letter(4), prefix_letter(8)), ("T", "", "p"));
}

#[test]
fn exported_tables() {
    let names = vec!["a".to_string(), "b".to_string()];
    assert_eq!(csv_header("t", &names, &[1, 7, 0]), "t,b,a");
    let runs = vec![wave(&[1.0, 2.0, 3.0]), wave(&[4.0, 5.0])];
    assert_eq!(row_count(&runs), 2);
    assert_eq!(row_count(&[]), 0);
    assert_eq!(export_row(&runs, 1), vec![bits(1.0), bits(2.0), bits(5.0)]);
    assert_eq!(
        xy_points(&runs[0], &runs[1]),
        vec![Point { t: bits(1.0), v: bits(4.0) }, Point { t: bits(2.0), v: bits(5.0) }]
    );
    assert_eq!(pixel_position(7, 3), (1, 2));
}
