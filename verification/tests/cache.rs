use oscilloscope::cache::{
    cache_holds, channel_file_name, chunk_dir_name, default_format, early_progress, fingerprint,
    fingerprint_head, fingerprint_input, fingerprint_tail, late_progress, CacheMeta, ConversionError,
};
use oscilloscope::segments::Conversion;
use oscilloscope::text::{append_decimal, append_padded, count_char, hex_string, trim};

fn meta_with(md5: &str, n_cols: usize, chunked: bool) -> CacheMeta {
    CacheMeta {
        md5: md5.to_string(),
        n_rows: 1,
        n_cols,
        columns: Vec::new(),
        x_min: 0,
        x_max: 0,
        chunked,
        n_chunks: 0,
        rows_per_chunk: 0,
        format: default_format(),
    }
}

#[test]
fn names_of_chunks_and_channels() {
    assert_eq!(chunk_dir_name(0), "chunk_000000");
    assert_eq!(chunk_dir_name(42), "chunk_000042");
    assert_eq!(chunk_dir_name(1_234_567), "chunk_1234567");
    assert_eq!(channel_file_name(0), "ch0.tsz");
    assert_eq!(channel_file_name(12), "ch12.tsz");
    assert_eq!(default_format(), "parquet");
}

#[test]
fn fingerprints_are_md5_digests() {
    // The digest of the eight zero bytes of an empty file's size.
    assert_eq!(fingerprint(&[], &[], 0), "7dea362b3fac8e00956a4952a3d4f474");
    assert_eq!(fingerprint_input(b"ab", b"c", 3), b"abc\x03\0\0\0\0\0\0\0".to_vec());
    assert_ne!(fingerprint(b"ab", b"c", 3), fingerprint(b"ab", b"d", 3));
    assert_ne!(fingerprint(b"ab", b"c", 3), fingerprint(b"ab", b"c", 4));
    assert_eq!(fingerprint(b"ab", b"c", 3).len(), 32);
}

#[test]
fn fingerprints_take_both_ends_of_large_files() {
    let mib = 1024 * 1024u64;
    assert_eq!((fingerprint_head(10), fingerprint_tail(10)), (10, 0));
    assert_eq!((fingerprint_head(32 * mib), fingerprint_tail(32 * mib)), (32 * mib, 0));
    assert_eq!(fingerprint_tail(32 * mib + 1), 32 * mib);
    assert_eq!((fingerprint_head(64 * mib), fingerprint_tail(64 * mib)), (32 * mib, 32 * mib));
    assert_eq!(fingerprint_tail(1_000 * mib), 32 * mib);
}

#[test]
fn a_cache_holds_for_its_file_only() {
    let fp = "abc".to_string();
    assert!(cache_holds(&meta_with("abc", 2, true), &fp, true, true));
    assert!(!cache_holds(&meta_with("abd", 2, true), &fp, true, true));
    assert!(!cache_holds(&meta_with("abc", 2, true), &fp, false, true));
    assert!(!cache_holds(&meta_with("abc", 2, true), &fp, true, false));
    // A cache of an earlier format has no chunks.
    assert!(!cache_holds(&meta_with("abc", 2, false), &fp, false, false));
    assert!(!cache_holds(&meta_with("abc", 2, false), &fp, true, true));
}

#[test]
fn channels_of_a_cache() {
    assert_eq!(meta_with("", 8, true).n_channels(), 7);
    assert_eq!(meta_with("", 1, true).n_channels(), 1);
    assert_eq!(meta_with("", 0, true).n_channels(), 1);
}

#[test]
fn properties_of_a_conversion() {
    let mut done = Conversion {
        entries: Vec::new(),
        n_rows: 12,
        x_min: f64::INFINITY.to_bits(),
        x_max: 3.0f64.to_bits(),
        skipped: 0,
    };
    let meta = done.meta("fp".to_string(), 2).unwrap();
    assert_eq!((meta.n_rows, meta.n_cols, meta.rows_per_chunk), (12, 2, 100_000));
    assert_eq!((meta.x_min, f64::from_bits(meta.x_max)), (0, 3.0));
    assert_eq!((meta.md5.as_str(), meta.format.as_str(), meta.chunked), ("fp", "tsz", true));
    assert_eq!(meta.columns, vec!["column_1".to_string(), "column_2".to_string()]);
    done.n_rows = 0;
    assert!(matches!(done.meta(String::new(), 2), Err(ConversionError::NoRows)));
}

#[test]
fn progress_stays_short_of_the_whole() {
    assert_eq!(late_progress(1_000), (970, 990));
    assert_eq!(late_progress(0), (1, 1));
    assert_eq!(late_progress(2), (1, 1));
    assert_eq!(late_progress(u64::MAX).0, (u64::MAX as u128 * 97 / 100) as u64);
    assert_eq!(early_progress(500, 1_000), 500);
    assert_eq!(early_progress(1_000, 1_000), 970);
}

#[test]
fn numbers_and_texts() {
    let mut s = String::from("x");
    append_decimal(&mut s, 1_050);
    append_padded(&mut s, 7, 3);
    assert_eq!(s, "x1050007");
    assert_eq!(hex_string(&[0, 255, 0x1a]), "00ff1a");
    assert_eq!(trim("\u{2003} a b\n"), "a b");
    assert_eq!(trim("\u{200b}"), "\u{200b}");
    assert_eq!(count_char("a,b,,", ','), 3);
}
