use oscilloscope::chunk_index::{load_index, write_index};
use oscilloscope::chunk_writer::{check_records, file_records, ChunkWriter};
use oscilloscope::csv_index::{CsvIndex, CsvIndexBuilder};
use oscilloscope::csv_query::{
    bin_count, channel_column, fill_bins, m4_downsample, nth_field, place_row, reduce_points,
    row_step, RangeQuery, RangeStep,
};
use oscilloscope::csv_rows::{
    count_csv_columns, field_text, find_byte, parse_field, split_fields, RowCursor, RowStep,
};
use oscilloscope::sample::{Point, NAN};
use oscilloscope::segments::{
    chunk_bases, count_lines, count_rows, merge_segments, segment_bounds, segment_len,
    segment_starts, Conversion,
};

fn rows_found(data: &[u8], n_cols: usize) -> Vec<Option<Vec<Vec<u8>>>> {
    let mut cursor = RowCursor::new();
    let mut fields = Vec::new();
    let mut rows = Vec::new();
    loop {
        match cursor.next_row(data, n_cols, &mut fields) {
            RowStep::End => return rows,
            RowStep::Malformed => rows.push(None),
            RowStep::Row => {
                rows.push(Some(fields.iter().map(|&(a, b)| data[a..b].to_vec()).collect()))
            }
        }
    }
}

fn row_of_texts(texts: &[&str]) -> Option<Vec<Vec<u8>>> {
    Some(texts.iter().map(|t| t.as_bytes().to_vec()).collect())
}

#[test]
fn rows_of_a_text() {
    let data = b"1,2\r\n\n3,4\n5\n6,7,8\n\r\n9,";
    assert_eq!(
        rows_found(data, 2),
        vec![
            row_of_texts(&["1", "2"]),
            row_of_texts(&["3", "4"]),
            None,
            None,
            row_of_texts(&["9", ""]),
        ]
    );
    assert_eq!(rows_found(b"", 2), vec![]);
    assert_eq!(rows_found(b"a\n", 1), vec![row_of_texts(&["a"])]);
}

#[test]
fn cutting_after_a_line_feed_keeps_the_rows() {
    let data = b"1,2\n3,4\n\n5,6\n7\n8,9";
    for cut in 1..data.len() {
        if data[cut - 1] == b'\n' {
            let mut rows = rows_found(&data[..cut], 2);
            rows.extend(rows_found(&data[cut..], 2));
            assert_eq!(rows, rows_found(data, 2));
        }
    }
}

#[test]
fn fields_are_trimmed_texts() {
    assert_eq!(field_text(b" 1.5e-3\t"), Some("1.5e-3"));
    assert_eq!(field_text("\u{a0}7\u{3000}".as_bytes()), Some("7"));
    assert_eq!(field_text(b""), None);
    assert_eq!(field_text(b" \t "), None);
    assert_eq!(field_text(&[0xff, 0xfe]), None);
    assert_eq!(parse_field(Some(5)), 5);
    assert_eq!(parse_field(None), NAN);
    assert!(f64::from_bits(NAN).is_nan());
}

#[test]
fn positions_of_separators() {
    assert_eq!(find_byte(b"ab,c", 0, 4, b','), 2);
    assert_eq!(find_byte(b"ab,c", 3, 4, b','), 4);
    let mut fields = Vec::new();
    assert!(split_fields(b"x1,22,", 1, 6, 3, &mut fields));
    assert_eq!(fields, vec![(1, 2), (3, 5), (6, 6)]);
    assert!(!split_fields(b"1,2,3", 0, 5, 2, &mut fields));
    assert!(!split_fields(b"1", 0, 1, 2, &mut fields));
}

#[test]
fn columns_are_counted_on_the_first_line() {
    assert_eq!(count_csv_columns("1,2,3\n"), Some(3));
    assert_eq!(count_csv_columns("  7  \n"), Some(1));
    assert_eq!(count_csv_columns(" \t\n"), None);
}

#[test]
fn records_of_a_small_file() {
    let rows = file_records(b"1,2\n\"3,5\",4\n6\n7,8\n", 2);
    assert_eq!(
        rows,
        vec![
            row_of_texts(&["1", "2"]),
            row_of_texts(&["3,5", "4"]),
            None,
            row_of_texts(&["7", "8"]),
        ]
    );
    let checked = check_records(vec![row_of_texts(&["1"]), None, row_of_texts(&["1", "2"])], 1);
    assert_eq!(checked, vec![row_of_texts(&["1"]), None, None]);
}

#[test]
fn segments_begin_after_line_feeds() {
    let data = b"aaaa\nbb\ncccccc\nd\n";
    assert_eq!(segment_starts(data, 3), vec![0, 5, 15]);
    assert_eq!(segment_starts(data, 100), vec![0]);
    assert_eq!(segment_starts(b"no line feed", 2), vec![0]);
    let starts = segment_starts(data, 3);
    assert_eq!(segment_bounds(&starts, 0, data.len()), (0, 5));
    assert_eq!(segment_bounds(&starts, 2, data.len()), (15, 17));
    let mut rows = Vec::new();
    for i in 0..starts.len() {
        let (s, e) = segment_bounds(&starts, i, data.len());
        rows.extend(rows_found(&data[s..e], 1));
    }
    assert_eq!(rows, rows_found(data, 1));
}

#[test]
fn segments_are_not_too_short() {
    assert_eq!(segment_len(1_000, 8), 16 * 1024 * 1024);
    assert_eq!(segment_len(8_000_000_000, 10), 200_000_000);
}

#[test]
fn segments_get_chunk_numbers_of_their_own() {
    assert_eq!(count_lines(b"a\nb\n\nc"), 3);
    assert_eq!(count_lines(&vec![b'\n'; 1_000]), 1_000);
    assert_eq!(chunk_bases(&[250_000, 0, 100_000, 1]), vec![0, 3, 3, 4]);
    assert_eq!(chunk_bases(&[]), Vec::<u32>::new());
    assert_eq!(chunk_bases(&[usize::MAX, 5]), vec![0, u32::MAX]);
    assert_eq!(count_rows(b"1,2\n\n3\n4,5\r\n\r\n6,7", 2), 3);
    assert_eq!(count_rows(b"", 2), 0);
    assert_eq!(count_rows(b"\n\n", 1), 0);
}

/// Converts one segment; every field is a whole number.
fn convert_segment(segment: &[u8], n_cols: usize, base: u32) -> Conversion {
    let mut w = ChunkWriter::new(n_cols, base);
    let flush = |w: &mut ChunkWriter| {
        let chunk = w.take_chunk(&vec![(0, 0); n_cols - 1]);
        w.enter_chunk(chunk.entry, true);
    };
    for row in rows_found(segment, n_cols) {
        match row {
            None => w.skip_row(),
            Some(fields) => {
                let values: Vec<u64> = fields
                    .iter()
                    .map(|f| String::from_utf8(f.clone()).unwrap().parse::<f64>().unwrap().to_bits())
                    .collect();
                w.push_row(&values);
                if w.is_full() {
                    flush(&mut w);
                }
            }
        }
    }
    if w.has_rows() {
        flush(&mut w);
    }
    w.finish()
}

#[test]
fn chunks_of_segments_are_numbered_without_a_gap() {
    // 100,000 rows, a blank line and a malformed one: one chunk, not two.
    let mut first = String::new();
    for i in 0..100_000 {
        first.push_str(&format!("{},{}\n", i, i % 7));
    }
    first.push_str("\n9\n");
    let second = "100000,1\n\n100001,2\n";
    let (first, second) = (first.as_bytes(), second.as_bytes());
    assert_eq!(count_lines(first), 100_002);
    let counts = [count_rows(first, 2), count_rows(second, 2)];
    assert_eq!(counts, [100_000, 2]);
    let bases = chunk_bases(&counts);
    assert_eq!(bases, vec![0, 1]);
    let whole = merge_segments(vec![
        convert_segment(first, 2, bases[0]),
        convert_segment(second, 2, bases[1]),
    ]);
    assert_eq!(whole.entries.iter().map(|e| e.index).collect::<Vec<u32>>(), vec![0, 1]);
    assert_eq!(whole.entries.iter().map(|e| e.row_count).collect::<Vec<u64>>(), vec![100_000, 2]);
    assert_eq!((whole.n_rows, whole.skipped), (100_002, 1));
    assert_eq!((f64::from_bits(whole.x_min), f64::from_bits(whole.x_max)), (0.0, 100_001.0));
}

#[test]
fn merged_segments_add_up() {
    let part = |n: usize, lo: f64, hi: f64| Conversion {
        entries: Vec::new(),
        n_rows: n,
        x_min: lo.to_bits(),
        x_max: hi.to_bits(),
        skipped: 1,
    };
    let whole = merge_segments(vec![part(3, 5.0, 6.0), part(4, -2.0, 1.0)]);
    assert_eq!((whole.n_rows, whole.skipped), (7, 2));
    assert_eq!((f64::from_bits(whole.x_min), f64::from_bits(whole.x_max)), (-2.0, 6.0));
    let none = merge_segments(Vec::new());
    assert_eq!(f64::from_bits(none.x_min), f64::INFINITY);
    assert_eq!(f64::from_bits(none.x_max), f64::NEG_INFINITY);
}

#[test]
fn rows_are_gathered_into_chunks() {
    let mut w = ChunkWriter::new(2, 7);
    for (t, v) in [(2.0f64, 1.0f64), (f64::NAN, 5.0), (1.0, f64::NAN)] {
        w.push_row(&[t.to_bits(), v.to_bits()]);
    }
    w.skip_row();
    assert!(w.has_rows() && !w.is_full());
    assert_eq!(w.n_rows(), 3);
    let chunk = w.take_chunk(&[(6.0f64.to_bits(), 26.0f64.to_bits())]);
    assert_eq!(chunk.entry.index, 7);
    assert_eq!(chunk.entry.row_count, 3);
    assert_eq!(f64::from_bits(chunk.entry.t_min), 1.0);
    assert_eq!(f64::from_bits(chunk.entry.t_max), 2.0);
    assert_eq!(chunk.entry.stats[0].count, 2);
    assert_eq!(chunk.entry.file_size, chunk.files[0].len() as u64);
    assert!(!w.has_rows());
    w.enter_chunk(chunk.entry, false);
    w.push_row(&[9.0f64.to_bits(), 0]);
    let chunk = w.take_chunk(&[(0, 0)]);
    assert_eq!(chunk.entry.index, 8);
    w.enter_chunk(chunk.entry, true);
    let done = w.finish();
    assert_eq!((done.n_rows, done.skipped, done.entries.len()), (4, 1, 2));
    assert_eq!((f64::from_bits(done.x_min), f64::from_bits(done.x_max)), (1.0, 9.0));
    // A chunk whose files were not written has no size and empty aggregates.
    assert_eq!(done.entries[0].file_size, 0);
    assert_eq!(done.entries[0].stats.len(), 1);
    assert_eq!(done.entries[0].stats[0].count, 0);
    assert_eq!(f64::from_bits(done.entries[0].stats[0].min), f64::INFINITY);
    assert_eq!(done.entries[1].stats.len(), 1);
    // An index with such a chunk is read back whole.
    let columns = vec!["t".to_string(), "ch1".to_string()];
    let bytes = write_index(&done.entries, &columns, 4, done.x_min, done.x_max, 100_000);
    let index = load_index(&bytes).unwrap();
    assert_eq!(index.entries.len(), 2);
    assert_eq!(index.entries[0].row_count, 3);
    assert_eq!(index.entries[0].stats[0].count, 0);
    assert_eq!(index.entries[1].stats[0].count, done.entries[1].stats[0].count);
    assert_eq!(index.entries[1].file_size, done.entries[1].file_size);
}

#[test]
fn a_full_chunk_is_noticed() {
    let mut w = ChunkWriter::new(1, 0);
    for i in 0..100_000u64 {
        assert!(!w.is_full());
        w.push_row(&[i]);
    }
    assert!(w.is_full());
    assert_eq!(w.pending_columns()[0].len(), 100_000);
}

#[test]
fn an_index_into_a_text_file() {
    let mut b = CsvIndexBuilder::new();
    for i in 0..25_000u64 {
        let time = if i == 10_000 { None } else { Some((i as f64).to_bits()) };
        b.push_row(i * 10, 3, time);
    }
    let idx = b.finish().unwrap();
    assert_eq!((idx.n_cols, idx.total_rows, idx.step), (3, 25_000, 10_000));
    assert_eq!(idx.entries, vec![(0, 0), (200_000, 20_000.0f64.to_bits())]);
    assert_eq!(f64::from_bits(idx.x_max), 24_999.0);
    assert_eq!(idx.n_channels(), 2);
    assert_eq!(idx.seek_offset_for_time(15_000.0f64.to_bits()), 0);
    assert_eq!(idx.seek_offset_for_time(20_000.0f64.to_bits()), 200_000);
    assert_eq!(idx.seek_offset_for_time((-1.0f64).to_bits()), 0);
    assert!(CsvIndexBuilder::new().finish().is_none());
}

#[test]
fn the_text_index_is_read_back() {
    let idx = CsvIndex {
        n_cols: 2,
        total_rows: 25,
        step: 10,
        x_min: 1,
        x_max: 2,
        entries: vec![(0, 3), (10, 4), (20, 5)],
    };
    let bytes = idx.to_bytes();
    assert_eq!(bytes.len(), 48 + 3 * 16);
    let back = CsvIndex::from_bytes(&bytes).unwrap();
    assert_eq!((back.n_cols, back.total_rows, back.step), (2, 25, 10));
    assert_eq!((back.x_min, back.x_max), (1, 2));
    assert_eq!(back.entries, idx.entries);
    assert!(CsvIndex::from_bytes(&bytes[..bytes.len() - 1]).is_none());
    assert!(CsvIndex::from_bytes(&bytes[..20]).is_none());
    let mut other = bytes.clone();
    other[8] = 9;
    assert!(CsvIndex::from_bytes(&other).is_none());
    let mut stuck = bytes;
    stuck[24] = 0;
    assert!(CsvIndex::from_bytes(&stuck).is_none());
}

#[test]
fn a_built_index_is_read_back() {
    let built = |rows: u64| {
        let mut b = CsvIndexBuilder::new();
        for i in 0..rows {
            b.push_row(i * 10, 3, Some((i as f64).to_bits()));
        }
        b.finish().unwrap()
    };
    for rows in [1, 9_999, 10_000, 10_001, 20_000, 25_000] {
        let idx = built(rows);
        let back = CsvIndex::from_bytes(&idx.to_bytes()).unwrap();
        assert_eq!((back.n_cols, back.total_rows, back.step), (3, rows, 10_000));
        assert_eq!((back.x_min, back.x_max), (idx.x_min, idx.x_max));
        assert_eq!(back.entries, idx.entries);
    }
}

#[test]
fn a_range_query_stops_past_the_range() {
    let bits = |x: f64| Some(x.to_bits());
    let mut q = RangeQuery::new(2.0f64.to_bits(), 6.0f64.to_bits(), 2, 100);
    for i in 0..7 {
        assert!(q.take_row(bits(i as f64), bits(10.0 * i as f64)));
    }
    assert!(q.take_row(None, bits(1.0)));
    assert!(!q.take_row(bits(6.5), bits(0.0)));
    let times: Vec<f64> = q.finish().iter().map(|p| f64::from_bits(p.t)).collect();
    assert_eq!(times, vec![2.0, 4.0, 6.0]);
    let mut q = RangeQuery::new(0, 9.0f64.to_bits(), 1, 2);
    assert!(q.take_row(Some(0), Some(0)));
    assert!(!q.take_row(Some(0), Some(0)));
    assert_eq!(q.finish().len(), 2);
}

#[test]
fn fields_and_columns_of_a_line() {
    let line = b"a, b ,,d";
    assert_eq!(nth_field(line, 0), Some((0, 1)));
    assert_eq!(nth_field(line, 1), Some((2, 5)));
    assert_eq!(nth_field(line, 2), Some((6, 6)));
    assert_eq!(nth_field(line, 3), Some((7, 8)));
    assert_eq!(nth_field(line, 4), None);
    assert_eq!(channel_column(3, 1), Some(2));
    assert_eq!(channel_column(3, 2), None);
    assert_eq!(channel_column(1, 5), Some(0));
    assert_eq!(channel_column(0, 0), None);
    assert_eq!(place_row(5, 6, 9), RangeStep::Before);
    assert_eq!(place_row(10, 6, 9), RangeStep::Past);
    assert_eq!(place_row(9, 6, 9), RangeStep::Inside);
    assert_eq!(row_step(1_000, 100), 10);
    assert_eq!(row_step(99, 100), 1);
}

#[test]
fn four_points_for_each_bin() {
    let p = |t: f64, v: f64| Point { t: t.to_bits(), v: v.to_bits() };
    let points = vec![p(0.0, 1.0), p(1.0, 9.0), p(2.0, -4.0), p(3.0, 2.0), p(8.0, 5.0)];
    let bins = fill_bins(&points, &[0, 0, 0, 0, 2], 3);
    assert_eq!(bins[1].count, 0);
    let out = m4_downsample(&bins, &[true, true, false]);
    assert_eq!(
        out,
        vec![
            p(0.0, 1.0),
            p(0.0, -4.0),
            p(0.0, 9.0),
            p(3.0, 2.0),
            p(8.0, 5.0),
            p(8.0, 5.0),
        ]
    );
}

#[test]
fn reduced_points_are_bounded() {
    assert_eq!(bin_count(0), 1);
    assert_eq!(bin_count(3), 1);
    assert_eq!(bin_count(4), 1);
    assert_eq!(bin_count(11), 2);
    let points: Vec<Point> =
        (0..20).map(|i| Point { t: (i as f64).to_bits(), v: (i as f64).to_bits() }).collect();
    assert_eq!(reduce_points(points.clone(), &[], &[], 20), points);
    let whole = fill_bins(&points, &[0; 20], bin_count(3));
    let kept = reduce_points(points.clone(), &whole, &[false], 3);
    assert_eq!(kept.iter().map(|p| f64::from_bits(p.t)).collect::<Vec<f64>>(), vec![0.0, 19.0]);
    let kept = reduce_points(points.clone(), &whole, &[true], 3);
    assert_eq!(kept.iter().map(|p| f64::from_bits(p.v)).collect::<Vec<f64>>(), vec![0.0, 19.0]);
    let kept = reduce_points(points.clone(), &whole, &[true], 1);
    assert_eq!(kept.iter().map(|p| f64::from_bits(p.v)).collect::<Vec<f64>>(), vec![0.0]);
    assert!(reduce_points(points.clone(), &whole, &[true], 0).is_empty());
    let halves: Vec<usize> = (0..20).map(|i| i / 10).collect();
    let bins = fill_bins(&points, &halves, 2);
    let kept = reduce_points(points, &bins, &[true, true], 9);
    assert_eq!(
        kept.iter().map(|p| (f64::from_bits(p.t), f64::from_bits(p.v))).collect::<Vec<(f64, f64)>>(),
        vec![
            (0.0, 0.0),
            (0.0, 0.0),
            (0.0, 9.0),
            (9.0, 9.0),
            (10.0, 10.0),
            (10.0, 10.0),
            (10.0, 19.0),
            (19.0, 19.0),
        ]
    );
}
