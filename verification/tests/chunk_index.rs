use oscilloscope::chunk_index::{
    load_index, make_column_names, write_index, ChunkEntry, IndexError,
};
use oscilloscope::le::{bytes_to_words, read_u32, read_u64, words_to_bytes, write_u32, write_u64};
use oscilloscope::stats::ChannelStats;

fn index_stats(min: f64, max: f64, sum: f64, sum_sq: f64, count: u64) -> ChannelStats {
    ChannelStats {
        min: min.to_bits(),
        max: max.to_bits(),
        sum: sum.to_bits(),
        sum_sq: sum_sq.to_bits(),
        count,
    }
}

fn index_sample() -> (Vec<ChunkEntry>, Vec<ChannelStats>) {
    let stats = vec![
        index_stats(-0.5, 0.5, 1.25, 0.9, 5),
        index_stats(-1.0, 2.0, 3.0, 5.0, 3),
    ];
    let entries = vec![ChunkEntry {
        index: 0,
        t_min: 0.0f64.to_bits(),
        t_max: 100.0f64.to_bits(),
        row_count: 5,
        file_size: 1234,
        stats: stats.clone(),
    }];
    (entries, stats)
}

fn index_written() -> Vec<u8> {
    let (entries, _) = index_sample();
    let columns = vec!["t".to_string(), "ch1".to_string(), "ch2".to_string()];
    write_index(&entries, &columns, 5, 0.0f64.to_bits(), 100.0f64.to_bits(), 100)
}

#[test]
fn index_roundtrip_preserves_stats() {
    let (_, stats) = index_sample();
    let loaded = load_index(&index_written()).unwrap();
    assert_eq!(loaded.columns.len(), 3);
    assert_eq!(loaded.total_rows, 5);
    assert!((f64::from_bits(loaded.x_min) - 0.0).abs() < 1e-15);
    assert!((f64::from_bits(loaded.x_max) - 100.0).abs() < 1e-15);
    assert_eq!(loaded.rows_per_chunk, 100);
    assert_eq!(loaded.entries.len(), 1);
    let e = &loaded.entries[0];
    assert_eq!(e.index, 0);
    assert_eq!(e.row_count, 5);
    assert_eq!(e.file_size, 1234);
    assert_eq!(e.stats.len(), 2);
    for (got, want) in e.stats.iter().zip(stats.iter()) {
        assert!((f64::from_bits(got.min) - f64::from_bits(want.min)).abs() < 1e-15, "min mismatch");
        assert!((f64::from_bits(got.max) - f64::from_bits(want.max)).abs() < 1e-15, "max mismatch");
        assert!((f64::from_bits(got.sum) - f64::from_bits(want.sum)).abs() < 1e-15, "sum mismatch");
        assert!(
            (f64::from_bits(got.sum_sq) - f64::from_bits(want.sum_sq)).abs() < 1e-15,
            "sum_sq mismatch"
        );
        assert_eq!(got.count, want.count, "count mismatch");
    }
}

#[test]
fn chunks_are_numbered_as_they_are_listed() {
    let (mut entries, stats) = index_sample();
    entries[0].index = 7;
    entries.push(ChunkEntry {
        index: 3,
        t_min: 100.0f64.to_bits(),
        t_max: 200.0f64.to_bits(),
        row_count: 8,
        file_size: 99,
        stats,
    });
    let columns = vec!["t".to_string(), "ch1".to_string(), "ch2".to_string()];
    let bytes = write_index(&entries, &columns, 13, 0.0f64.to_bits(), 200.0f64.to_bits(), 100);
    let loaded = load_index(&bytes).unwrap();
    assert_eq!(loaded.entries.iter().map(|e| e.index).collect::<Vec<u32>>(), vec![0, 1]);
    assert_eq!((loaded.entries[1].row_count, loaded.entries[1].file_size), (8, 99));
    assert_eq!(loaded.entries[1].stats, entries[1].stats);
}

#[test]
fn the_index_has_its_layout() {
    let bytes = index_written();
    assert_eq!(bytes.len(), 52 + 40 + 2 * 40);
    assert_eq!(&bytes[0..8], b"OSCVIDX\0");
    assert_eq!(&bytes[8..12], &3u32.to_le_bytes());
    assert_eq!(&bytes[12..16], &3u32.to_le_bytes());
    assert_eq!(&bytes[16..20], &1u32.to_le_bytes());
    assert_eq!(&bytes[20..28], &100u64.to_le_bytes());
    assert_eq!(&bytes[44..52], &100.0f64.to_le_bytes());
    assert_eq!(&bytes[84..92], &1234u64.to_le_bytes());
}

#[test]
fn damaged_indexes_are_told_apart() {
    let bytes = index_written();
    assert!(matches!(load_index(&bytes[..5]), Err(IndexError::Truncated)));
    assert!(matches!(load_index(b"OSCVXXX\0aaaa"), Err(IndexError::BadMagic)));
    assert!(matches!(load_index(&bytes[..30]), Err(IndexError::Truncated)));
    assert!(matches!(load_index(&bytes[..60]), Err(IndexError::Truncated)));
    assert!(matches!(load_index(&bytes[..100]), Err(IndexError::StatsTruncated)));
    let mut older = bytes.clone();
    older[8] = 2;
    assert!(matches!(load_index(&older), Err(IndexError::UnsupportedVersion(2))));
    let mut longer = bytes.clone();
    longer.push(7);
    assert!(load_index(&longer).is_ok());
}

#[test]
fn index_errors_say_what_is_wrong() {
    assert_eq!(IndexError::BadMagic.message(), "Invalid index magic bytes");
    assert_eq!(IndexError::UnsupportedVersion(2).message(), "Unsupported index version: 2");
    assert_eq!(
        IndexError::UnsupportedVersion(u32::MAX).message(),
        "Unsupported index version: 4294967295"
    );
    assert_eq!(
        IndexError::Truncated.message(),
        "Index read error: failed to fill whole buffer"
    );
    assert_eq!(
        IndexError::StatsTruncated.message(),
        "Index stats read error: failed to fill whole buffer"
    );
}

#[test]
fn columns_are_numbered_from_one() {
    assert_eq!(make_column_names(0), Vec::<String>::new());
    assert_eq!(make_column_names(2), vec!["column_1".to_string(), "column_2".to_string()]);
    assert_eq!(make_column_names(12)[11], "column_12");
}

#[test]
fn little_endian_words() {
    let mut out = Vec::new();
    write_u32(&mut out, 0x0102_0304);
    write_u64(&mut out, 0x1122_3344_5566_7788);
    assert_eq!(out, vec![4, 3, 2, 1, 0x88, 0x77, 0x66, 0x55, 0x44, 0x33, 0x22, 0x11]);
    assert_eq!(read_u32(&out, 0), Some(0x0102_0304));
    assert_eq!(read_u64(&out, 4), Some(0x1122_3344_5566_7788));
    assert_eq!(read_u64(&out, 5), None);
    assert_eq!(read_u32(&out, usize::MAX), None);
    let words = vec![1u64, u64::MAX];
    assert_eq!(bytes_to_words(&words_to_bytes(&words)), words);
}
