use oscilloscope::cursor::{near_cursor, CursorId, CursorMode, CursorState};
use oscilloscope::math_channel::{MathChannelDef, MathOp, Operands};
use oscilloscope::sample::{self, Point, Sample};
use oscilloscope::strips::{
    add_overlay, add_strip, initial_strips, move_channel_to_strip, remove_channel,
    remove_from_strip, split_strip, Strip, YAxisMode, STRIP_HEIGHT,
};
use oscilloscope::units::{TimeUnit, VoltageUnit};
use oscilloscope::view::{
    channel_label, chosen_channel, color_index, decode_budget, install_decoded, load_percent,
    measurement_range, oversized, stale_channels, view_phase, Bounds, ChannelNeed, DecodedChannel,
    StripCache, ViewPhase, ZoomHistory,
};

fn channels_of(strips: &[Strip]) -> Vec<Vec<usize>> {
    strips.iter().map(|s| s.channel_indices.clone()).collect()
}

fn at(x: f64) -> Sample {
    x.to_bits()
}

#[test]
fn every_channel_gets_a_strip() {
    let strips = initial_strips(3);
    assert_eq!(channels_of(&strips), vec![vec![0], vec![1], vec![2]]);
    assert_eq!(f32::from_bits(strips[0].height), 150.0);
    assert_eq!(strips[0].y_mode, YAxisMode::Linked);
    assert_eq!((f64::from_bits(strips[0].y_min), f64::from_bits(strips[0].y_max)), (-1.0, 1.0));
    let mut strips = strips;
    add_strip(&mut strips, 3);
    assert_eq!(channels_of(&strips)[3], vec![3]);
}

#[test]
fn channels_are_moved_and_split() {
    let mut strips = initial_strips(3);
    assert_eq!(move_channel_to_strip(&mut strips, 0, 2), 1);
    assert_eq!(channels_of(&strips), vec![vec![1], vec![2, 0]]);
    strips[1].height = 77;
    assert!(split_strip(&mut strips, 1));
    assert_eq!(channels_of(&strips), vec![vec![1], vec![2], vec![0]]);
    assert_eq!(strips[2].height, 77);
    assert!(!split_strip(&mut strips, 1));
    assert!(!split_strip(&mut strips, 9));
    let mut lone = initial_strips(1);
    assert_eq!(move_channel_to_strip(&mut lone, 0, 0), 0);
    assert_eq!(channels_of(&lone), vec![vec![0]]);
    assert_eq!(lone[0].height, STRIP_HEIGHT);
    let mut strips = initial_strips(3);
    assert_eq!(move_channel_to_strip(&mut strips, 0, 1), 0);
    assert_eq!(channels_of(&strips), vec![vec![1, 0], vec![2]]);
    let mut strips = initial_strips(3);
    assert_eq!(move_channel_to_strip(&mut strips, 2, 0), 0);
    assert_eq!(channels_of(&strips), vec![vec![0, 2], vec![1]]);
    assert_eq!(move_channel_to_strip(&mut strips, 0, 9), 1);
    assert_eq!(channels_of(&strips), vec![vec![2], vec![1, 0]]);
    let mut none = initial_strips(0);
    assert_eq!(move_channel_to_strip(&mut none, 5, 0), 0);
    assert_eq!(channels_of(&none), vec![vec![5]]);
}

#[test]
fn overlays_take_a_channel_from_its_strip() {
    let mut strips = initial_strips(3);
    add_overlay(&mut strips, 0, 2);
    assert_eq!(channels_of(&strips), vec![vec![0, 2], vec![1]]);
    add_overlay(&mut strips, 0, 2);
    assert_eq!(channels_of(&strips), vec![vec![0, 2], vec![1]]);
}

#[test]
fn a_channel_taken_out_gets_its_own_strip() {
    let mut strips = initial_strips(3);
    add_overlay(&mut strips, 0, 2);
    remove_from_strip(&mut strips, 0, 0);
    assert_eq!(channels_of(&strips), vec![vec![2], vec![0], vec![1]]);
    let mut doubled = initial_strips(2);
    doubled[0].channel_indices.push(1);
    remove_from_strip(&mut doubled, 0, 1);
    assert_eq!(channels_of(&doubled), vec![vec![0], vec![1]]);
}

#[test]
fn removing_a_channel_renumbers_the_others() {
    let mut strips = initial_strips(4);
    add_overlay(&mut strips, 0, 3);
    remove_channel(&mut strips, 1);
    assert_eq!(channels_of(&strips), vec![vec![0, 2], vec![1]]);
}

#[test]
fn zooming_out_goes_back() {
    let view = |x: f64| Bounds { x_min: at(x), y_min: at(0.0), x_max: at(x + 1.0), y_max: at(1.0) };
    let mut h = ZoomHistory::new();
    assert_eq!(h.undo_zoom(), None);
    h.push_zoom_history(Bounds::nothing());
    assert_eq!(h.views.len(), 0);
    for i in 0..60 {
        h.push_zoom_history(view(i as f64));
    }
    assert_eq!(h.views.len(), 50);
    assert_eq!(h.views[0], view(10.0));
    assert_eq!(h.undo_zoom(), Some(view(59.0)));
    assert_eq!(h.undo_zoom(), Some(view(58.0)));
}

#[test]
fn undoing_in_a_full_history_loses_the_oldest_view() {
    let view = |x: f64| Bounds { x_min: at(x), y_min: at(0.0), x_max: at(x + 1.0), y_max: at(1.0) };
    let mut h = ZoomHistory::new();
    for i in 0..50 {
        h.push_zoom_history(view(i as f64));
    }
    h.push_zoom_history(view(50.0));
    assert_eq!(h.undo_zoom(), Some(view(50.0)));
    assert_eq!(h.views, (1..50).map(|i| view(i as f64)).collect::<Vec<Bounds>>());
}

#[test]
fn points_at_hand_are_used_again() {
    let cache = StripCache {
        points: Vec::new(),
        vis_x_min: at(0.0),
        vis_x_max: at(10.0),
        delay: at(0.0),
        ch_idx: 1,
        is_coarse: false,
    };
    assert!(cache.is_valid(at(1.0), at(9.0), at(-0.0), 1, true));
    assert!(!cache.is_valid(at(-1.0), at(9.0), at(0.0), 1, true));
    assert!(!cache.is_valid(at(1.0), at(11.0), at(0.0), 1, true));
    assert!(!cache.is_valid(at(1.0), at(9.0), at(0.5), 1, true));
    assert!(!cache.is_valid(at(1.0), at(9.0), at(0.0), 2, true));
    assert!(!cache.is_valid(at(1.0), at(9.0), at(0.0), 1, false));
}

#[test]
fn only_stale_channels_are_decoded() {
    let mut caches: Vec<Option<StripCache>> = vec![None, None, None];
    let need = ChannelNeed { delay: at(0.0), sharp: true };
    let needs = [need, need, need];
    let (lo, hi) = (at(0.0), at(5.0));
    assert_eq!(stale_channels(&[2, 0, 1, 9], 2, &needs, &caches, lo, hi), vec![0, 1]);
    let done = DecodedChannel { ch_idx: 1, points: vec![Point { t: 1, v: 2 }], delay: at(0.0) };
    install_decoded(&mut caches, done, lo, hi);
    assert_eq!(stale_channels(&[2, 0, 1, 9], 2, &needs, &caches, lo, hi), vec![0]);
    assert_eq!(caches[1].as_ref().unwrap().points.len(), 1);
    let gone = DecodedChannel { ch_idx: 7, points: Vec::new(), delay: at(0.0) };
    install_decoded(&mut caches, gone, lo, hi);
    assert_eq!(caches.len(), 3);
}

#[test]
fn channels_share_the_decoding() {
    assert_eq!(decode_budget(1), 400_000);
    assert_eq!(decode_budget(8), 187_500);
    assert_eq!(decode_budget(1_000), 20_000);
}

#[test]
fn measurements_can_be_gated() {
    let bounds = Bounds { x_min: at(0.0), y_min: at(-1.0), x_max: at(10.0), y_max: at(1.0) };
    let mut cursor = CursorState::default();
    assert_eq!(measurement_range(&bounds, true, &cursor), (at(0.0), at(10.0)));
    cursor.set_mode(CursorMode::Vertical, at(7.0), at(-3.0));
    assert_eq!(measurement_range(&bounds, true, &cursor), (at(0.0), at(7.0)));
    assert_eq!(measurement_range(&bounds, false, &cursor), (at(0.0), at(10.0)));
}

#[test]
fn cursors_are_dragged() {
    let mut c = CursorState::default();
    assert_eq!((c.mode, c.dragging), (CursorMode::Off, None));
    c.follow(true, Some(at(1.0)), Some((at(0.0), at(0.0))));
    assert_eq!(c.dragging, None);
    c.set_mode(CursorMode::Vertical, at(3.0), at(7.0));
    c.follow(true, None, Some((at(8.0), at(9.0))));
    assert_eq!(c.dragging, None);
    c.follow(true, None, Some((at(5.0), at(2.0))));
    assert_eq!(c.dragging, Some(CursorId::B));
    c.follow(true, Some(at(7.5)), None);
    assert_eq!((c.pos_a, c.pos_b), (at(3.0), at(7.5)));
    c.follow(false, None, None);
    assert_eq!(c.dragging, None);
    c.follow(true, None, Some((at(2.0), at(2.0))));
    assert_eq!(c.dragging, Some(CursorId::A));
    c.switch_off();
    assert_eq!((c.mode, c.dragging, c.pos_b), (CursorMode::Off, None, at(7.5)));
    assert!(near_cursor(at(9.0), at(5.9)));
    assert!(!near_cursor(at(6.0), at(6.0)));
}

#[test]
fn loading_is_reported() {
    assert_eq!(load_percent(5, 0), 0);
    assert_eq!(load_percent(50, 200), 25);
    assert_eq!(load_percent(500, 200), 100);
    assert_eq!(load_percent(u64::MAX, u64::MAX), 100);
    assert_eq!(oversized(Some(5_000_000_000)), Some(5_000_000_000));
    assert_eq!(oversized(Some(4_294_967_296)), None);
    assert_eq!(oversized(None), None);
    assert_eq!(view_phase(true, true, true, true), ViewPhase::Loading);
    assert_eq!(view_phase(false, true, true, false), ViewPhase::Decoding);
    assert_eq!(view_phase(false, true, true, true), ViewPhase::Ready);
    assert_eq!(channel_label(0), "CH1");
    assert_eq!(color_index(11), 3);
}

#[test]
fn computed_channels_have_names() {
    let names: Vec<String> = ["CH1", "CH2"].iter().map(|s| s.to_string()).collect();
    let name = |op: MathOp| chosen_channel(op, 0, 1).display_name(&names);
    assert_eq!(name(MathOp::Add), "CH1+CH2");
    assert_eq!(name(MathOp::Subtract), "CH1-CH2");
    assert_eq!(name(MathOp::Multiply), "CH1*CH2");
    assert_eq!(name(MathOp::Invert), "-CH1");
    assert_eq!(name(MathOp::Abs), "|CH1|");
    assert_eq!(name(MathOp::Derivative), "d(CH1)/dt");
    assert_eq!(name(MathOp::Integral), "int(CH1)");
    let lost = MathChannelDef { operation: MathOp::Add, source_a: 9, source_b: None };
    assert_eq!(lost.display_name(&names), "?+CH1");
    assert_eq!(MathOp::all().len(), 7);
    assert_eq!(MathOp::all()[6].label(), "Integral");
    assert!(MathOp::Add.needs_source_b() && !MathOp::Abs.needs_source_b());
}

#[test]
fn computed_channels_have_values() {
    let pts = vec![Point { t: 1, v: at(-2.0) }, Point { t: 2, v: at(3.0) }];
    let def = |op: MathOp| chosen_channel(op, 0, 1);
    let inverted = def(MathOp::Invert).compute_unary(&pts).unwrap();
    assert_eq!(inverted, vec![Point { t: 1, v: at(2.0) }, Point { t: 2, v: at(-3.0) }]);
    assert_eq!(def(MathOp::Invert).compute_unary(&inverted), Some(pts.clone()));
    assert_eq!(def(MathOp::Add).compute_unary(&pts), Some(pts.clone()));
    assert_eq!(def(MathOp::Derivative).compute_unary(&pts), None);
    assert_eq!(def(MathOp::Integral).compute_unary(&pts), None);
    let absolute = def(MathOp::Abs).compute_unary(&pts).unwrap();
    assert_eq!(absolute, vec![Point { t: 1, v: at(2.0) }, Point { t: 2, v: at(3.0) }]);
    let other = vec![Point { t: 9, v: at(5.0) }];
    let rows = def(MathOp::Add).compute_binary(&pts, &other);
    assert_eq!(rows, vec![Operands { t: 1, a: at(-2.0), b: at(5.0) }]);
    assert_eq!(def(MathOp::Add).second_source(), 1);
    assert_eq!(def(MathOp::Abs).second_source(), 0);
}

#[test]
fn units_have_suffixes() {
    let all: Vec<&str> = TimeUnit::all().iter().map(|u| u.suffix()).collect();
    assert_eq!(all, vec!["ps", "ns", "μs", "ms", "s"]);
    let all: Vec<&str> = VoltageUnit::all().iter().map(|u| u.suffix()).collect();
    assert_eq!(all, vec!["V", "mV"]);
}

#[test]
fn samples_compare_as_doubles() {
    let xs = [
        f64::NEG_INFINITY,
        -2.5,
        -0.0,
        0.0,
        1e-310,
        1.0,
        f64::MAX,
        f64::INFINITY,
        f64::NAN,
        -f64::NAN,
    ];
    for a in xs {
        assert_eq!(sample::is_nan(at(a)), a.is_nan());
        assert_eq!(sample::is_finite(at(a)), a.is_finite());
        assert_eq!(sample::neg(at(a)), at(-a));
        assert_eq!(sample::abs(at(a)), at(a.abs()));
        for b in xs {
            assert_eq!(sample::lt(at(a), at(b)), a < b);
            assert_eq!(sample::le(at(a), at(b)), a <= b);
            assert_eq!(sample::eq(at(a), at(b)), a == b);
            let (lo, hi) = (f64::from_bits(sample::min(at(a), at(b))), a.min(b));
            assert!(lo == hi || (lo.is_nan() && hi.is_nan()));
            let (lo, hi) = (f64::from_bits(sample::max(at(a), at(b))), a.max(b));
            assert!(lo == hi || (lo.is_nan() && hi.is_nan()));
        }
    }
    assert!(sample::in_range(at(0.5), at(0.0), at(1.0)));
    assert!(!sample::in_range(at(f64::NAN), at(0.0), at(1.0)));
}
