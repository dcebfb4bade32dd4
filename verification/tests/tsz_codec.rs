use oscilloscope::sample::Sample;
use oscilloscope::tsz_codec::{
    decode_channel, decode_channel_points, encode_channel, frame_channel, restore_times,
    restore_values, time_differences, try_decode_channel, try_decode_channel_points, value_masks,
};

fn codec_bits(xs: &[f64]) -> Vec<Sample> {
    xs.iter().map(|x| x.to_bits()).collect()
}

fn codec_floats(xs: &[Sample]) -> Vec<f64> {
    xs.iter().map(|&x| f64::from_bits(x)).collect()
}

fn through_codec(timestamps: &[f64], values: &[f64]) -> (Vec<f64>, Vec<f64>) {
    let encoded = encode_channel(&codec_bits(timestamps), &codec_bits(values));
    let (ts, vs) = decode_channel(&encoded);
    (codec_floats(&ts), codec_floats(&vs))
}

#[test]
fn roundtrip_empty() {
    let (ts, vs) = decode_channel(&[]);
    assert!(ts.is_empty());
    assert!(vs.is_empty());
}

#[test]
fn roundtrip_single_point() {
    let timestamps = vec![1.0f64];
    let values = vec![42.0f64];
    let encoded = encode_channel(&codec_bits(&timestamps), &codec_bits(&values));
    assert!(!encoded.is_empty());
    let (ts, vs) = through_codec(&timestamps, &values);
    assert_eq!(ts.len(), 1);
    assert!((ts[0] - 1.0).abs() < f64::EPSILON);
    assert!((vs[0] - 42.0).abs() < f64::EPSILON);
}

#[test]
fn roundtrip_waveform() {
    let n = 100_000;
    let timestamps: Vec<f64> = (0..n).map(|i| 1e-6 + i as f64 * 1e-9).collect();
    let values: Vec<f64> = (0..n).map(|i| (i as f64 * 0.001).sin()).collect();

    let encoded = encode_channel(&codec_bits(&timestamps), &codec_bits(&values));
    let (ts, vs) = decode_channel(&encoded);
    let (ts, vs) = (codec_floats(&ts), codec_floats(&vs));

    assert_eq!(ts.len(), n);
    assert_eq!(vs.len(), n);
    assert!((ts[0] - timestamps[0]).abs() < f64::EPSILON);
    assert!((vs[0] - values[0]).abs() < f64::EPSILON);
    assert!((ts[n - 1] - timestamps[n - 1]).abs() < f64::EPSILON);
    assert!((vs[n - 1] - values[n - 1]).abs() < f64::EPSILON);
    assert_eq!(ts, timestamps);
    assert_eq!(vs, values);

    let raw_size = n * 16;
    let ratio = raw_size as f64 / encoded.len() as f64;
    assert!(ratio > 2.0, "Expected at least 2:1 compression, got {:.1}:1", ratio);
}

#[test]
fn decode_points_matches() {
    let timestamps = vec![1.0, 2.0, 3.0];
    let values = vec![10.0, 20.0, 30.0];
    let encoded = encode_channel(&codec_bits(&timestamps), &codec_bits(&values));
    let points = decode_channel_points(&encoded);
    assert_eq!(points.len(), 3);
    assert!((f64::from_bits(points[0].t) - 1.0).abs() < f64::EPSILON);
    assert!((f64::from_bits(points[0].v) - 10.0).abs() < f64::EPSILON);
    assert!((f64::from_bits(points[2].t) - 3.0).abs() < f64::EPSILON);
    assert!((f64::from_bits(points[2].v) - 30.0).abs() < f64::EPSILON);
}

#[test]
fn roundtrip_negative_timestamps() {
    let timestamps = vec![-1.32e-6, -1.31e-6, -1.30e-6];
    let values = vec![-0.036, -0.035, -0.034];
    let (ts, vs) = through_codec(&timestamps, &values);
    assert_eq!(ts.len(), 3);
    for i in 0..3 {
        assert!((ts[i] - timestamps[i]).abs() < 1e-20);
        assert!((vs[i] - values[i]).abs() < 1e-20);
    }
}

#[test]
fn roundtrip_randomish_data() {
    let n = 10_000;
    let timestamps: Vec<f64> = (0..n).map(|i| i as f64 * 7.3e-9).collect();
    let values: Vec<f64> = (0..n)
        .map(|i| (i as f64 * 0.01).sin() * 0.5 + (i as f64 * 0.037).cos() * 0.3)
        .collect();
    let (ts, vs) = through_codec(&timestamps, &values);
    assert_eq!(ts.len(), n);
    for i in 0..n {
        assert!(
            (ts[i] - timestamps[i]).abs() < 1e-20,
            "ts[{}]: got {}, expected {}",
            i,
            ts[i],
            timestamps[i]
        );
        assert!(
            (vs[i] - values[i]).abs() < 1e-20,
            "vs[{}]: got {}, expected {}",
            i,
            vs[i],
            values[i]
        );
    }
}

#[test]
fn nan_patterns_survive() {
    let odd = 0x7ff8_0000_0000_1234u64;
    let encoded = encode_channel(&[1, 2, 3], &[odd, 0x8000_0000_0000_0000, odd]);
    let (ts, vs) = decode_channel(&encoded);
    assert_eq!(ts, vec![1, 2, 3]);
    assert_eq!(vs, vec![odd, 0x8000_0000_0000_0000, odd]);
}

#[test]
fn the_stored_streams_are_compressed() {
    let ts: Vec<Sample> = (0..5_000).map(|i| 1_000 + 7 * i).collect();
    let vs: Vec<Sample> = vec![17; 5_000];
    let encoded = encode_channel(&ts, &vs);
    assert!(encoded.len() < 1_000);
    assert_eq!(&encoded[0..8], &1_000u64.to_le_bytes());
    assert_eq!(&encoded[8..16], &17u64.to_le_bytes());
    assert_eq!(&encoded[16..20], &5_000u32.to_le_bytes());
}

#[test]
fn second_differences_of_even_steps_are_zero() {
    assert_eq!(time_differences(&[10, 13, 16, 19]), vec![3, 0, 0]);
    assert_eq!(time_differences(&[10]), Vec::<u64>::new());
    assert_eq!(time_differences(&[5, 3]), vec![2u64.wrapping_neg()]);
    assert_eq!(value_masks(&[6, 5, 5]), vec![3, 0]);
}

#[test]
fn a_stream_that_was_not_decompressed_leaves_the_first_sample() {
    assert_eq!(restore_times(9, 3, &None), vec![9]);
    assert_eq!(restore_values(9, 3, &None), vec![9]);
    let plain: Vec<u8> = [3u64, 0].iter().flat_map(|w| w.to_le_bytes()).collect();
    assert_eq!(restore_times(10, 3, &Some(plain.clone())), vec![10, 13, 16]);
    assert_eq!(restore_values(10, 3, &Some(plain)), vec![10, 9, 9]);
}

#[test]
fn damaged_channels_are_told_apart() {
    let encoded = encode_channel(&[1, 2, 3], &[4, 5, 6]);
    assert!(try_decode_channel(&encoded).is_some());
    assert!(try_decode_channel(&encoded[..encoded.len() - 1]).is_none());
    assert!(try_decode_channel_points(&encoded[..30]).is_none());
    assert_eq!(try_decode_channel_points(&encoded).map(|p| p.len()), Some(3));
    // Too short to announce anything.
    assert_eq!(try_decode_channel(&encoded[..10]), Some((vec![], vec![])));
    // Streams that are no compressed data.
    let framed = frame_channel(7, 8, 2, &[1, 2, 3], &[4]);
    assert_eq!(try_decode_channel(&framed), Some((vec![7], vec![8])));
}
