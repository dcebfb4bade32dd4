use oscilloscope::cache::CacheMeta;
use oscilloscope::chunk_index::{ChunkEntry, ChunkIndex};
use oscilloscope::chunk_store::{chunk_range, ChunkStore};
use oscilloscope::chunk_writer::{file_records, ChunkWriter};
use oscilloscope::csv_rows::{count_csv_columns, field_text, parse_field, RowCursor, RowStep};
use oscilloscope::data::{TszData, WaveformData};
use oscilloscope::raw_query::{decode_chunk, read_raw_points_multi_readonly, DecodedChunk, RawQuery};
use oscilloscope::sample::{Point, Sample};
use oscilloscope::segments::{
    chunk_bases, count_rows, merge_segments, segment_bounds, segment_starts,
};
use oscilloscope::stats::ChannelStats;
use oscilloscope::stats_query::StatsPart;

fn entry(index: u32, t_min: f64, t_max: f64, rows: u64, stats: Vec<ChannelStats>) -> ChunkEntry {
    ChunkEntry {
        index,
        t_min: t_min.to_bits(),
        t_max: t_max.to_bits(),
        row_count: rows,
        file_size: 0,
        stats,
    }
}

fn chunk_stats(min: f64, max: f64, sum: f64, sum_sq: f64, count: u64) -> ChannelStats {
    ChannelStats {
        min: min.to_bits(),
        max: max.to_bits(),
        sum: sum.to_bits(),
        sum_sq: sum_sq.to_bits(),
        count,
    }
}

fn make_store(entries: Vec<ChunkEntry>, columns: Vec<String>) -> ChunkStore {
    let total_rows: usize = entries.iter().map(|e| e.row_count as usize).sum();
    let x_min = entries.first().map(|e| e.t_min).unwrap_or(0);
    let x_max = entries.last().map(|e| e.t_max).unwrap_or(0);
    ChunkStore::new("/nonexistent".to_string(), entries, columns, total_rows, x_min, x_max)
}

/// Minimum, maximum, mean, root mean square and count of a channel, with the
/// chunks' files read from `disk`.
fn stats_from(
    store: &mut ChunkStore,
    disk: &[Option<Vec<Vec<u8>>>],
    ch: usize,
    lo: f64,
    hi: f64,
) -> (Option<(f64, f64, f64, f64, usize)>, usize) {
    let mut q = store.compute_channel_stats(ch, lo.to_bits(), hi.to_bits());
    let (mut sum, mut sum_sq, mut decoded) = (0.0f64, 0.0f64, 0usize);
    while let Some(k) = q.next_chunk() {
        let needed = q.needs_samples(store) && !store.cache.contains(k as u32);
        let files = if needed { disk.get(k).cloned().flatten() } else { None };
        if needed && files.is_some() {
            decoded += 1;
        }
        match q.advance(store, &files) {
            StatsPart::Aggregate(s) => {
                if s.count > 0 {
                    sum += f64::from_bits(s.sum);
                    sum_sq += f64::from_bits(s.sum_sq);
                }
            }
            StatsPart::Samples(vs) => {
                for v in vs {
                    let v = f64::from_bits(v);
                    sum += v;
                    sum_sq += v * v;
                }
            }
            StatsPart::Nothing => {}
        }
    }
    let result = q.finish().map(|s| {
        let n = s.count as f64;
        (
            f64::from_bits(s.min),
            f64::from_bits(s.max),
            sum / n,
            (sum_sq / n).sqrt(),
            s.count as usize,
        )
    });
    (result, decoded)
}

fn run_query(mut q: RawQuery, store: &mut ChunkStore, disk: &[Option<Vec<Vec<u8>>>]) -> Vec<Vec<Point>> {
    while let Some(k) = q.next_chunk() {
        let files =
            if store.cache.contains(k as u32) { None } else { disk.get(k).cloned().flatten() };
        q.advance(store, &files);
    }
    q.finish()
}

/// Chunks of `rows` rows of a waveform with `n_ch` channels, and their files.
fn synthetic(n_chunks: usize, rows: usize, n_ch: usize) -> (Vec<ChunkEntry>, Vec<Option<Vec<Vec<u8>>>>) {
    let mut writer = ChunkWriter::new(n_ch + 1, 0);
    let mut entries = Vec::new();
    let mut disk = Vec::new();
    for k in 0..n_chunks {
        for i in 0..rows {
            let x = (k * rows + i) as f64;
            let mut row = vec![x.to_bits()];
            for c in 0..n_ch {
                row.push(((x * 0.37 + c as f64).sin() * (c + 1) as f64).to_bits());
            }
            writer.push_row(&row);
        }
        let sums: Vec<(Sample, Sample)> = writer.pending_columns()[1..]
            .iter()
            .map(|col| {
                let vs: Vec<f64> =
                    col.iter().map(|&b| f64::from_bits(b)).filter(|v| v.is_finite()).collect();
                let sum: f64 = vs.iter().sum();
                let sum_sq: f64 = vs.iter().map(|v| v * v).sum();
                (sum.to_bits(), sum_sq.to_bits())
            })
            .collect();
        let chunk = writer.take_chunk(&sums);
        entries.push(chunk.entry.clone());
        disk.push(Some(chunk.files));
        writer.enter_chunk(chunk.entry, true);
    }
    (entries, disk)
}

fn names(n: usize) -> Vec<String> {
    (0..n).map(|i| format!("column_{}", i + 1)).collect()
}

#[test]
fn stats_from_precomputed_no_decode() {
    let entries = vec![entry(0, 0.0, 100.0, 4, vec![chunk_stats(-1.0, 1.0, 0.0, 2.0, 4)])];
    let mut store = make_store(entries, vec!["t".to_string(), "ch1".to_string()]);
    let (r, decoded) = stats_from(&mut store, &[], 0, 0.0, 100.0);
    let r = r.unwrap();
    assert_eq!(decoded, 0);
    assert!((r.0 - (-1.0)).abs() < 1e-15);
    assert!((r.1 - 1.0).abs() < 1e-15);
    assert!((r.2 - 0.0).abs() < 1e-15);
    assert!((r.3 - (2.0_f64 / 4.0).sqrt()).abs() < 1e-15);
    assert_eq!(r.4, 4);
}

#[test]
fn stats_aggregate_across_chunks() {
    let entries = vec![
        entry(0, 0.0, 50.0, 2, vec![chunk_stats(-1.0, 1.0, 0.0, 2.0, 2)]),
        entry(1, 50.0, 100.0, 2, vec![chunk_stats(-3.0, 2.0, -1.0, 13.0, 2)]),
    ];
    let mut store = make_store(entries, vec!["t".to_string(), "ch1".to_string()]);
    let (r, _) = stats_from(&mut store, &[], 0, 0.0, 100.0);
    let r = r.unwrap();
    assert!((r.0 - (-3.0)).abs() < 1e-15);
    assert!((r.1 - 2.0).abs() < 1e-15);
    assert_eq!(r.4, 4);
    assert!((r.2 - (-0.25)).abs() < 1e-15);
    assert!((r.3 - (3.75_f64).sqrt()).abs() < 1e-15);
}

#[test]
fn stats_full_range_matches_subrange_aggregation() {
    let (entries, disk) = synthetic(5, 400, 2);
    let mut store = make_store(entries, names(3));
    let (full, decoded) = stats_from(&mut store, &disk, 0, 0.0, 1999.0);
    assert_eq!(decoded, 0);
    let full = full.expect("full stats");
    let eps = 1999.0 * 1e-9;
    let (near, decoded) = stats_from(&mut store, &disk, 0, eps, 1999.0 - eps);
    assert_eq!(decoded, 2);
    let near = near.expect("near-full stats");
    assert!(full.4.saturating_sub(near.4) <= 10);
    assert!((full.0 - near.0).abs() < 1e-9 * full.0.abs().max(1.0));
    assert!((full.1 - near.1).abs() < 1e-9 * full.1.abs().max(1.0));
    assert_eq!(full.4, 2000);
    assert_eq!(near.4, 1998);
}

#[test]
fn aggregates_match_decoding_everything() {
    let (mut entries, disk) = synthetic(3, 50, 1);
    let mut fast = make_store(entries.clone(), names(2));
    let (by_index, _) = stats_from(&mut fast, &disk, 0, -1.0, 1000.0);
    for e in entries.iter_mut() {
        e.stats.clear();
    }
    let mut slow = make_store(entries, names(2));
    let (by_samples, decoded) = stats_from(&mut slow, &disk, 0, -1.0, 1000.0);
    assert_eq!(decoded, 3);
    let (a, b) = (by_index.unwrap(), by_samples.unwrap());
    assert_eq!((a.0, a.1, a.4), (b.0, b.1, b.4));
}

#[test]
fn stats_need_two_samples() {
    let entries = vec![entry(0, 0.0, 1.0, 1, vec![chunk_stats(1.0, 1.0, 1.0, 1.0, 1)])];
    let mut store = make_store(entries, vec!["t".to_string(), "ch1".to_string()]);
    assert_eq!(stats_from(&mut store, &[], 0, 0.0, 1.0).0, None);
    assert_eq!(stats_from(&mut store, &[], 1, 0.0, 1.0).0, None);
    assert_eq!(stats_from(&mut store, &[], 0, 1.0, 0.0).0, None);
    assert_eq!(stats_from(&mut store, &[], 0, 5.0, 6.0).0, None);
}

#[test]
fn raw_points_multi_matches_per_channel() {
    let (entries, disk) = synthetic(4, 300, 3);
    let mut store = make_store(entries, names(4));
    let (lo, hi) = (0.0f64.to_bits(), 1199.0f64.to_bits());
    for cap in [100usize, 1_000, 50_000] {
        let per_channel: Vec<Vec<Point>> = (0..3)
            .map(|ch| {
                let q = store.get_raw_points(ch, lo, hi, cap);
                run_query(q, &mut store, &disk).remove(0)
            })
            .collect();
        let q = store.get_raw_points_multi(&[0, 1, 2], lo, hi, cap);
        let batched = run_query(q, &mut store, &disk);
        assert_eq!(per_channel, batched);
    }
}

#[test]
fn readonly_decode_matches_lru_path() {
    let (entries, disk) = synthetic(4, 300, 3);
    let mut store = make_store(entries.clone(), names(4));
    let (lo, hi) = (100.0f64.to_bits(), 1000.0f64.to_bits());
    let channels = [2usize, 0];
    let q = store.get_raw_points_multi(&channels, lo, hi, 200);
    let via_lru = run_query(q, &mut store, &disk);
    let (start, end) = chunk_range(&entries, lo, hi);
    let chunks: Vec<Option<DecodedChunk>> = (start..end)
        .map(|k| {
            let files = disk[k].as_ref().unwrap();
            let wanted: Vec<Vec<u8>> = channels.iter().map(|&ch| files[ch].clone()).collect();
            decode_chunk(&files[0], &wanted)
        })
        .collect();
    let via_readonly = read_raw_points_multi_readonly(&entries, &channels, lo, hi, 200, &chunks);
    assert_eq!(via_lru, via_readonly);
    assert!(!via_lru[0].is_empty());
}

#[test]
fn raw_points_match_csv_for_demo2() {
    // The first and the last row of a recording with seven channels.
    let csv = b"-1.32094967e-06,-3.608419e-02,-7.65844e-03,2.50038e-03,0,0,0,0\n\
        malformed,row\n\
        6.790347e-07,2.3215561e-01,0,0,0,0,0,\n";
    let n_cols = count_csv_columns("-1.32094967e-06,-3.608419e-02,-7.65844e-03,2.50038e-03,0,0,0,0\n");
    assert_eq!(n_cols, Some(8));
    let mut writer = ChunkWriter::new(8, 0);
    for record in file_records(csv, 8) {
        match record {
            None => writer.skip_row(),
            Some(fields) => {
                let row: Vec<Sample> = fields
                    .iter()
                    .map(|f| {
                        let number = field_text(f)
                            .and_then(|text| fast_float::parse::<f64, _>(text).ok())
                            .map(|x| x.to_bits());
                        parse_field(number)
                    })
                    .collect();
                writer.push_row(&row);
            }
        }
    }
    assert_eq!(writer.n_rows(), 2);
    let chunk = writer.take_chunk(&[(0, 0); 7]);
    let disk = vec![Some(chunk.files)];
    let mut store = make_store(vec![chunk.entry], names(8));
    assert_eq!(store.n_channels(), 7);
    let (lo, hi) = (store.x_min, store.x_max);
    let tol = 1e-12;
    let q = store.get_raw_points(0, lo, hi, 500_000);
    let ch0 = run_query(q, &mut store, &disk).remove(0);
    assert!((f64::from_bits(ch0[0].t) - (-1.32094967e-06)).abs() < tol);
    assert!((f64::from_bits(ch0[0].v) - (-3.608419e-02)).abs() < tol);
    let q = store.get_raw_points(1, lo, hi, 500_000);
    let ch1 = run_query(q, &mut store, &disk).remove(0);
    assert!((f64::from_bits(ch1[0].v) - (-7.65844e-03)).abs() < tol);
    let q = store.get_raw_points(2, lo, hi, 500_000);
    let ch2 = run_query(q, &mut store, &disk).remove(0);
    assert!((f64::from_bits(ch2[0].v) - 2.50038e-03).abs() < tol);
    let end = ch0.last().unwrap();
    assert!((f64::from_bits(end.t) - 6.790347e-07).abs() < tol);
    assert!((f64::from_bits(end.v) - 2.3215561e-01).abs() < tol);
}

#[test]
fn queries_keep_to_the_points_wanted() {
    let (entries, disk) = synthetic(3, 100, 2);
    let mut store = make_store(entries, names(3));
    let (lo, hi) = (0.0f64.to_bits(), 299.0f64.to_bits());
    for wanted in [1usize, 2, 3, 7, 100, 299, 300, 301, 302, 303] {
        let q = store.get_raw_points_multi(&[0, 1], lo, hi, wanted);
        let results = run_query(q, &mut store, &disk);
        assert_eq!(results.len(), 2);
        for points in results {
            assert!(points.len() <= wanted);
            if wanted >= 302 {
                assert_eq!(points.len(), 300);
            }
        }
    }
}

#[test]
fn few_samples_come_out_unchanged() {
    let (entries, disk) = synthetic(2, 10, 1);
    let mut store = make_store(entries, names(2));
    let q = store.get_raw_points(0, 3.0f64.to_bits(), 15.0f64.to_bits(), 1_000);
    let points = run_query(q, &mut store, &disk).remove(0);
    let times: Vec<f64> = points.iter().map(|p| f64::from_bits(p.t)).collect();
    assert_eq!(times, (3..=15).map(|i| i as f64).collect::<Vec<f64>>());
    assert_eq!(points[0].v, (3.0f64 * 0.37).sin().to_bits());
}

#[test]
fn impossible_queries_are_empty() {
    let (entries, disk) = synthetic(1, 10, 1);
    let mut store = make_store(entries, names(2));
    let (lo, hi) = (0.0f64.to_bits(), 9.0f64.to_bits());
    let q = store.get_raw_points(5, lo, hi, 100);
    assert_eq!(run_query(q, &mut store, &disk), vec![vec![]]);
    let q = store.get_raw_points(0, hi, lo, 100);
    assert_eq!(run_query(q, &mut store, &disk), vec![vec![]]);
    let q = store.get_raw_points_multi(&[0, 7], lo, hi, 100);
    assert_eq!(run_query(q, &mut store, &disk), vec![vec![], vec![]]);
    let q = store.get_raw_points_multi(&[], lo, hi, 100);
    assert_eq!(run_query(q, &mut store, &disk), Vec::<Vec<Point>>::new());
    let q = store.get_raw_points(0, 50.0f64.to_bits(), 60.0f64.to_bits(), 100);
    assert_eq!(run_query(q, &mut store, &disk), vec![vec![]]);
}

#[test]
fn chunks_that_cannot_be_read_are_left_out() {
    let (entries, mut disk) = synthetic(3, 10, 1);
    disk[1] = None;
    if let Some(files) = disk[2].as_mut() {
        files[0].truncate(30);
    }
    let mut store = make_store(entries, names(2));
    let q = store.get_raw_points(0, 0.0f64.to_bits(), 100.0f64.to_bits(), 1_000);
    let points = run_query(q, &mut store, &disk).remove(0);
    assert_eq!(points.len(), 10);
}

#[test]
fn the_least_recently_used_chunk_leaves() {
    let (entries, disk) = synthetic(66, 2, 1);
    let mut store = make_store(entries, names(2));
    for k in 0..64u32 {
        assert!(store.ensure_loaded(k, &disk[k as usize]));
    }
    assert!(store.ensure_loaded(0, &None));
    assert!(store.ensure_loaded(64, &disk[64]));
    assert!(store.cache.contains(0));
    assert!(!store.cache.contains(1));
    assert!(store.cache.contains(2));
    // Room is made even if the new chunk cannot be had.
    assert!(!store.ensure_loaded(65, &None));
    assert!(!store.cache.contains(2));
    assert!(store.cache.contains(3));
    assert!(store.cache.contains(64));
    let held = store.cache.get(64).unwrap();
    assert_eq!(held.columns[0], vec![128.0f64.to_bits(), 129.0f64.to_bits()]);
    assert_eq!(held.t_min, 128.0f64.to_bits());
    assert!(store.cache.get(1).is_none());
}

#[test]
fn overlapping_chunks_are_found() {
    let entries = vec![
        entry(0, 0.0, 9.0, 10, vec![]),
        entry(1, 10.0, 19.0, 10, vec![]),
        entry(2, 20.0, 29.0, 10, vec![]),
    ];
    let range = |lo: f64, hi: f64| chunk_range(&entries, lo.to_bits(), hi.to_bits());
    assert_eq!(range(0.0, 29.0), (0, 3));
    assert_eq!(range(9.0, 10.0), (0, 2));
    assert_eq!(range(9.5, 9.7), (1, 1));
    assert_eq!(range(12.0, 13.0), (1, 2));
    assert_eq!(range(-5.0, -1.0), (0, 0));
    assert_eq!(range(30.0, 40.0), (3, 3));
}

#[test]
fn a_waveform_is_opened() {
    let (entries, _) = synthetic(2, 5, 2);
    let meta = CacheMeta {
        md5: String::new(),
        n_rows: 10,
        n_cols: 3,
        columns: vec!["t".to_string(), "a".to_string(), "b".to_string()],
        x_min: 0,
        x_max: 9.0f64.to_bits(),
        chunked: true,
        n_chunks: 2,
        rows_per_chunk: 5,
        format: "tsz".to_string(),
    };
    let index = ChunkIndex {
        entries,
        columns: names(3),
        total_rows: 10,
        x_min: 0,
        x_max: 9.0f64.to_bits(),
        rows_per_chunk: 5,
    };
    let data = WaveformData::Tsz(TszData::from_meta(meta, index, "dir".to_string()));
    assert_eq!(data.n_channels(), 2);
    assert_eq!(data.n_rows(), 10);
    assert_eq!(data.time_col(), "t");
    assert_eq!(data.data_cols(), &["a".to_string(), "b".to_string()]);
    assert_eq!(data.chunks_dir(), "dir");
    assert_eq!(data.entries().len(), 2);
    assert_eq!(f64::from_bits(data.x_max()) - f64::from_bits(data.x_min()), 9.0);
    assert_eq!(data.get_raw_points(1, 0, 9.0f64.to_bits(), 10).next_chunk(), Some(0));
    assert_eq!(data.get_raw_points(2, 0, 9.0f64.to_bits(), 10).next_chunk(), None);
    assert_eq!(data.compute_channel_stats(0, 0, 9.0f64.to_bits()).next_chunk(), Some(0));
}

#[test]
fn a_text_converted_in_segments_is_shown_again() {
    let mut text = String::new();
    let mut want: Vec<Vec<(f64, f64)>> = vec![Vec::new(), Vec::new()];
    for i in 0..40 {
        let (t, a, b) = (i as f64 * 0.5, ((i * 7) % 11) as f64 - 3.25, -(i as f64));
        text.push_str(&format!("{}, {} ,{}\r\n", t, a, b));
        want[0].push((t, a));
        want[1].push((t, b));
        if i % 9 == 4 {
            text.push_str("too,few\n\n");
        }
    }
    let data = text.as_bytes();
    for seg_len in [1usize, 50, 200, 100_000] {
        let starts = segment_starts(data, seg_len);
        let segments: Vec<&[u8]> = (0..starts.len())
            .map(|i| {
                let (from, to) = segment_bounds(&starts, i, data.len());
                &data[from..to]
            })
            .collect();
        let counts: Vec<usize> = segments.iter().map(|s| count_rows(s, 3)).collect();
        let bases = chunk_bases(&counts);
        let mut disk = Vec::new();
        let mut parts = Vec::new();
        for (segment, base) in segments.iter().zip(bases) {
            let mut writer = ChunkWriter::new(3, base);
            let mut cursor = RowCursor::new();
            let mut fields = Vec::new();
            loop {
                match cursor.next_row(segment, 3, &mut fields) {
                    RowStep::End => break,
                    RowStep::Malformed => writer.skip_row(),
                    RowStep::Row => {
                        let row: Vec<Sample> = fields
                            .iter()
                            .map(|&(from, to)| {
                                let number = field_text(&segment[from..to])
                                    .and_then(|x| fast_float::parse::<f64, _>(x).ok())
                                    .map(|x| x.to_bits());
                                parse_field(number)
                            })
                            .collect();
                        writer.push_row(&row);
                    }
                }
            }
            if writer.has_rows() {
                let chunk = writer.take_chunk(&[(0, 0); 2]);
                assert_eq!(chunk.entry.index as usize, disk.len());
                disk.push(Some(chunk.files));
                writer.enter_chunk(chunk.entry, true);
            }
            parts.push(writer.finish());
        }
        let whole = merge_segments(parts);
        assert_eq!((whole.n_rows, whole.skipped), (40, 4));
        let (lo, hi) = (whole.x_min, whole.x_max);
        let mut store = make_store(whole.entries, names(3));
        let q = store.get_raw_points_multi(&[0, 1], lo, hi, 42);
        let shown: Vec<Vec<(f64, f64)>> = run_query(q, &mut store, &disk)
            .iter()
            .map(|c| c.iter().map(|p| (f64::from_bits(p.t), f64::from_bits(p.v))).collect())
            .collect();
        assert_eq!(shown, want);
    }
}
