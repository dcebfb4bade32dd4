//! The cache that stands next to a source file: its names, when it holds for
//! the file, and how a conversion reports its progress.

use crate::chunk_index::{column_names, make_column_names};
use crate::le::{u64_bytes, write_u64};
use crate::sample::{finite, is_finite, Sample, ZERO};
use crate::segments::{Conversion, ROWS_PER_GROUP};
use crate::text::{append_decimal, append_padded, decimal, hex, hex_string};
use crate::text::{lemma_decimal_denotes, lemma_hex_distinct, padded, texts};
use vstd::prelude::*;
use vstd::string::*;

verus! {

/// The directory of all caches, next to the source files.
pub const CACHE_DIR: &'static str = ".oscv";

/// The file with the properties of a cache.
pub const META_FILE: &'static str = "metadata.json";

/// The file with the index of a cache.
pub const INDEX_FILE: &'static str = "index.bin";

/// The directory with the chunks of a cache.
pub const CHUNKS_DIR: &'static str = "chunks";

/// The size from which files are converted in segments, side by side.
pub const PARALLEL_THRESHOLD: u64 = 4_194_304;

/// How much of each end of a file goes into its fingerprint.
pub const FINGERPRINT_LEN: u64 = 33_554_432;

// ---------------------------------------------------------------------------
// Names
// ---------------------------------------------------------------------------

/// The name of a chunk's directory.
pub open spec fn chunk_name(chunk_idx: u32) -> Seq<char> {
    "chunk_"@ + padded(chunk_idx as nat, 6)
}

/// The name of a channel's file.
pub open spec fn channel_name(ch: u64) -> Seq<char> {
    "ch"@ + decimal(ch as nat) + ".tsz"@
}

/// The name of a chunk's directory.
pub fn chunk_dir_name(chunk_idx: u32) -> (name: String)
    ensures
        name@ == chunk_name(chunk_idx),
{
    let mut name: String = String::from_str("chunk_");
    append_padded(&mut name, chunk_idx as u64, 6);
    name
}

/// The name of a channel's file.
pub fn channel_file_name(ch: u64) -> (name: String)
    ensures
        name@ == channel_name(ch),
{
    let mut name: String = String::from_str("ch");
    append_decimal(&mut name, ch);
    name.append(".tsz");
    name
}

/// Chunks have directories of their own, and channels files of their own.
pub proof fn law_names_distinct(a: u32, b: u32, c: u64, d: u64)
    ensures
        chunk_name(a) == chunk_name(b) ==> a == b,
        channel_name(c) == channel_name(d) ==> c == d,
{
    let p = "chunk_"@.len() as int;
    if chunk_name(a) == chunk_name(b) {
        assert(chunk_name(a).skip(p) =~= padded(a as nat, 6));
        assert(chunk_name(b).skip(p) =~= padded(b as nat, 6));
        lemma_decimal_denotes(a as nat, 6);
        lemma_decimal_denotes(b as nat, 6);
    }
    let q = "ch"@.len() as int;
    let r = ".tsz"@.len() as int;
    if channel_name(c) == channel_name(d) {
        let n = channel_name(c).len() as int;
        assert(channel_name(c).subrange(q, n - r) =~= decimal(c as nat));
        assert(channel_name(d).subrange(q, n - r) =~= decimal(d as nat));
        lemma_decimal_denotes(c as nat, 0);
        lemma_decimal_denotes(d as nat, 0);
    }
}

// ---------------------------------------------------------------------------
// Fingerprints
// ---------------------------------------------------------------------------

/// The MD5 digest of some data.
pub uninterp spec fn md5_digest(data: Seq<u8>) -> Seq<u8>;

/// Calls `Md5::digest`, whose result is a function of the data and 16 bytes
/// long.
#[verifier::external_body]
fn md5(data: &[u8]) -> (digest: Vec<u8>)
    ensures
        digest@ == md5_digest(data@),
        digest@.len() == 16,
{
    <md5::Md5 as md5::Digest>::digest(data).to_vec()
}

/// How many bytes at the beginning of a file go into its fingerprint.
pub fn fingerprint_head(size: u64) -> (n: u64)
    ensures
        n == (if size < FINGERPRINT_LEN {
            size
        } else {
            FINGERPRINT_LEN
        }),
        n <= size && n <= 0x200_0000,
        n == size || n == 0x200_0000,
{
    if size < FINGERPRINT_LEN {
        size
    } else {
        FINGERPRINT_LEN
    }
}

/// How many bytes at the end of a file go into its fingerprint: none where all
/// of it is in the beginning.  The end of a larger file may overlap its
/// beginning.
pub fn fingerprint_tail(size: u64) -> (n: u64)
    ensures
        n == (if size > FINGERPRINT_LEN {
            FINGERPRINT_LEN
        } else {
            0
        }),
{
    if size > FINGERPRINT_LEN {
        FINGERPRINT_LEN
    } else {
        0
    }
}

/// The bytes that a fingerprint is taken of.
pub open spec fn fingerprinted(head: Seq<u8>, tail: Seq<u8>, size: u64) -> Seq<u8> {
    head + tail + u64_bytes(size)
}

/// Puts the bytes together that a fingerprint is taken of.
pub fn fingerprint_input(head: &[u8], tail: &[u8], size: u64) -> (data: Vec<u8>)
    ensures
        data@ == fingerprinted(head@, tail@, size),
{
    let mut data: Vec<u8> = Vec::new();
    data.extend_from_slice(head);
    data.extend_from_slice(tail);
    write_u64(&mut data, size);
    assert(data@ =~= fingerprinted(head@, tail@, size));
    data
}

/// The fingerprint of a file, given its ends and its size.
pub fn fingerprint(head: &[u8], tail: &[u8], size: u64) -> (text: String)
    ensures
        text@ == hex(md5_digest(fingerprinted(head@, tail@, size))),
        text@.len() == 32,
{
    let data: Vec<u8> = fingerprint_input(head, tail, size);
    let digest: Vec<u8> = md5(&data);
    hex_string(&digest)
}

/// Fingerprints tell digests apart.
pub proof fn law_fingerprint_distinct(a: Seq<u8>, b: Seq<u8>)
    requires
        hex(md5_digest(a)) == hex(md5_digest(b)),
    ensures
        md5_digest(a) == md5_digest(b),
{
    lemma_hex_distinct(md5_digest(a), md5_digest(b));
}

/// The bytes of a file that its fingerprint is taken of.
pub open spec fn file_ends(file: Seq<u8>) -> (Seq<u8>, Seq<u8>) {
    let n = file.len() as int;
    let len = FINGERPRINT_LEN as int;
    if n > len {
        (file.take(len), file.skip(n - len))
    } else {
        (file, Seq::empty())
    }
}

/// A fingerprint is taken of both ends of a file: files of the same size with
/// the same bytes there to take it of have the same ends, and files no longer
/// than both ends together are the same.
pub proof fn law_fingerprint_sees_ends(a: Seq<u8>, b: Seq<u8>)
    requires
        a.len() == b.len(),
        a.len() <= u64::MAX,
        fingerprinted(file_ends(a).0, file_ends(a).1, a.len() as u64) == fingerprinted(
            file_ends(b).0,
            file_ends(b).1,
            b.len() as u64,
        ),
    ensures
        file_ends(a) == file_ends(b),
        a.len() > 0 ==> a[0] == b[0] && a.last() == b.last(),
        a.len() <= 2 * FINGERPRINT_LEN ==> a == b,
{
    let (fa, fb) = (
        fingerprinted(file_ends(a).0, file_ends(a).1, a.len() as u64),
        fingerprinted(file_ends(b).0, file_ends(b).1, b.len() as u64),
    );
    let n = a.len() as int;
    let len = FINGERPRINT_LEN as int;
    let h = file_ends(a).0.len() as int;
    let t = file_ends(a).1.len() as int;
    assert(file_ends(a).0 =~= fa.take(h));
    assert(file_ends(b).0 =~= fb.take(h));
    assert(file_ends(a).1 =~= fa.subrange(h, h + t));
    assert(file_ends(b).1 =~= fb.subrange(h, h + t));
    assert forall|i: int| 0 <= i < n && (i < len || i >= n - len) implies #[trigger] a[i] == b[i] by {
        if i < h {
            assert(file_ends(a).0[i] == a[i] && file_ends(b).0[i] == b[i]);
        } else {
            assert(file_ends(a).1[i - (n - len)] == a[i]);
            assert(file_ends(b).1[i - (n - len)] == b[i]);
        }
    }
    if n <= 2 * len {
        assert(a =~= b);
    }
}

// ---------------------------------------------------------------------------
// Properties of a cache
// ---------------------------------------------------------------------------

/// The properties of a cache.
#[derive(Debug)]
pub struct CacheMeta {
    pub md5: String,
    pub n_rows: usize,
    pub n_cols: usize,
    pub columns: Vec<String>,
    pub x_min: Sample,
    pub x_max: Sample,
    pub chunked: bool,
    pub n_chunks: u32,
    pub rows_per_chunk: u64,
    /// How the cache stores samples.
    pub format: String,
}

/// The format of caches that do not name one.
pub fn default_format() -> (format: String)
    ensures
        format@ == "parquet"@,
{
    String::from_str("parquet")
}

impl CacheMeta {
    /// How many data channels there are; at least one.
    pub fn n_channels(&self) -> (n: usize)
        ensures
            n == (if self.n_cols > 1 {
                self.n_cols - 1
            } else {
                1
            }),
    {
        if self.n_cols > 1 {
            self.n_cols - 1
        } else {
            1
        }
    }
}

/// Whether a cache holds for its source file: it was made from a file with the
/// same fingerprint, it has chunks, their index can be read and they are there.
/// Caches of earlier formats have no chunks and are made anew.
pub fn cache_holds(
    meta: &CacheMeta,
    fingerprint: &String,
    index_readable: bool,
    chunks_exist: bool,
) -> (holds: bool)
    ensures
        holds == (meta.md5@ == fingerprint@ && meta.chunked && index_readable && chunks_exist),
{
    if meta.md5 != *fingerprint {
        return false;
    }
    meta.chunked && index_readable && chunks_exist
}

/// Why a conversion gives no cache.
#[derive(Clone, Copy, Debug, PartialEq, Eq, Structural)]
pub enum ConversionError {
    /// The file has no rows.
    NoRows,
}

/// An end of the range of instants; zero where it is not finite.
pub open spec fn or_zero(x: Sample) -> Sample {
    if finite(x) {
        x
    } else {
        ZERO
    }
}

impl Conversion {
    /// The range of instants; an end that is not finite is zero.
    pub fn x_min_filtered(&self) -> (r: (Sample, Sample))
        ensures
            r == (or_zero(self.x_min), or_zero(self.x_max)),
    {
        let x_min: Sample = if is_finite(self.x_min) {
            self.x_min
        } else {
            ZERO
        };
        let x_max: Sample = if is_finite(self.x_max) {
            self.x_max
        } else {
            ZERO
        };
        (x_min, x_max)
    }

    /// The properties of the cache that a conversion filled.
    pub fn meta(&self, md5: String, n_cols: usize) -> (r: Result<CacheMeta, ConversionError>)
        requires
            self.entries@.len() <= u32::MAX,
        ensures
            match r {
                Ok(m) => {
                    &&& self.n_rows > 0
                    &&& m.md5 == md5
                    &&& m.n_rows == self.n_rows
                    &&& m.n_cols == n_cols
                    &&& texts(m.columns@) == column_names(n_cols as nat)
                    &&& m.x_min == or_zero(self.x_min)
                    &&& m.x_max == or_zero(self.x_max)
                    &&& m.chunked
                    &&& m.n_chunks == self.entries@.len()
                    &&& m.rows_per_chunk == ROWS_PER_GROUP
                    &&& m.format@ == "tsz"@
                },
                Err(e) => self.n_rows == 0 && e == ConversionError::NoRows,
            },
    {
        if self.n_rows == 0 {
            return Err(ConversionError::NoRows);
        }
        let (x_min, x_max) = self.x_min_filtered();
        Ok(
            CacheMeta {
                md5,
                n_rows: self.n_rows,
                n_cols,
                columns: make_column_names(n_cols),
                x_min,
                x_max,
                chunked: true,
                n_chunks: self.entries.len() as u32,
                rows_per_chunk: ROWS_PER_GROUP as u64,
                format: String::from_str("tsz"),
            },
        )
    }
}

// ---------------------------------------------------------------------------
// Progress
// ---------------------------------------------------------------------------

/// The progress once the rows are converted, in bytes of the file.
pub open spec fn rows_done(total: u64) -> int {
    if total * 97 / 100 < 1 {
        1
    } else {
        total * 97 / 100
    }
}

/// The progress once the index is written, in bytes of the file.
pub open spec fn index_done(total: u64) -> int {
    if total * 99 / 100 < rows_done(total) {
        rows_done(total)
    } else {
        total * 99 / 100
    }
}

/// The progress once the rows are converted, and once the index is written:
/// short of the whole, because work remains.
pub fn late_progress(total: u64) -> (r: (u64, u64))
    ensures
        r.0 == rows_done(total),
        r.1 == index_done(total),
{
    let near: u64 = (total as u128 * 97 / 100) as u64;
    let near: u64 = if near < 1 {
        1
    } else {
        near
    };
    let nearer: u64 = (total as u128 * 99 / 100) as u64;
    let nearer: u64 = if nearer < near {
        near
    } else {
        nearer
    };
    (near, nearer)
}

/// The progress that is shown while rows are converted.
pub open spec fn rows_progress(bytes: u64, total: u64) -> int {
    if bytes < rows_done(total) {
        bytes as int
    } else {
        rows_done(total)
    }
}

/// The progress while rows are converted, given how many bytes are: no more than
/// once they all are.
pub fn early_progress(bytes: u64, total: u64) -> (r: u64)
    ensures
        r == rows_progress(bytes, total),
{
    let (near, nearer) = late_progress(total);
    if bytes < near {
        bytes
    } else {
        near
    }
}

/// Progress never goes back, and stays below the whole until all is done.
pub proof fn law_progress_monotonic(total: u64, earlier: u64, later: u64)
    requires
        total > 1,
        earlier <= later,
    ensures
        rows_progress(earlier, total) <= rows_progress(later, total) <= rows_done(total),
        1 <= rows_done(total) <= index_done(total) < total,
{
}

/// A fingerprint sees the size of a file: no two files of different sizes give
/// the same bytes to take it of.
pub proof fn law_fingerprint_sees_size(
    head_a: Seq<u8>,
    tail_a: Seq<u8>,
    a: u64,
    head_b: Seq<u8>,
    tail_b: Seq<u8>,
    b: u64,
)
    requires
        fingerprinted(head_a, tail_a, a) == fingerprinted(head_b, tail_b, b),
    ensures
        a == b,
{
    let (x, y) = (fingerprinted(head_a, tail_a, a), fingerprinted(head_b, tail_b, b));
    assert(x.skip(x.len() - 8) =~= u64_bytes(a));
    assert(y.skip(y.len() - 8) =~= u64_bytes(b));
    crate::le::law_words_read_back(a, 0, seq![0u64], 0);
    crate::le::law_words_read_back(b, 0, seq![0u64], 0);
}

/// The ends of a file are its first 32 MiB and, of a larger file, its last 32 MiB.
pub proof fn law_file_ends(file: Seq<u8>)
    ensures
        ({
            let (head, tail) = file_ends(file);
            let len = 0x200_0000int;
            &&& file.len() <= len ==> head == file && tail.len() == 0
            &&& file.len() > len ==> head == file.subrange(0, len) && tail == file.subrange(
                file.len() - len,
                file.len() as int,
            )
        }),
{
    let (head, tail) = file_ends(file);
    if file.len() > 0x200_0000 {
        assert(head =~= file.subrange(0, 0x200_0000));
        assert(tail =~= file.subrange(file.len() - 0x200_0000, file.len() as int));
    }
}

/// How far a conversion is once its rows are converted and once its index is
/// written: 97 and 99 per cent of the file, rounded down.
pub proof fn law_progress_share(total: u64)
    requires
        total >= 100,
    ensures
        97 * total - 100 < 100 * rows_done(total) <= 97 * total,
        99 * total - 100 < 100 * index_done(total) <= 99 * total,
{
}

/// While rows are converted the bytes read are shown as they are, up to the share
/// that is left for the index.
pub proof fn law_rows_progress(bytes: u64, total: u64)
    ensures
        bytes <= rows_done(total) ==> rows_progress(bytes, total) == bytes,
        bytes > rows_done(total) ==> rows_progress(bytes, total) == rows_done(total),
{
}

/// An end of the range of instants is kept as it is where it is finite, and is
/// zero where it is not.
pub proof fn law_or_zero(x: Sample)
    ensures
        finite(x) ==> or_zero(x) == x,
        !finite(x) ==> or_zero(x) == 0,
{
}

/// Chunks are kept in directories that sort like their numbers: the number is
/// padded to six digits.
pub proof fn law_chunk_name(chunk_idx: u32)
    ensures
        ({
            let name = chunk_name(chunk_idx);
            &&& name.take(6) == seq!['c', 'h', 'u', 'n', 'k', '_']
            &&& name.len() >= 12
            &&& chunk_idx <= 999_999 ==> name.len() == 12
            &&& crate::text::denoted(name.skip(6)) == chunk_idx
        }),
{
    reveal_strlit("chunk_");
    let name = chunk_name(chunk_idx);
    assert("chunk_"@ =~= seq!['c', 'h', 'u', 'n', 'k', '_']);
    assert(name.take(6) =~= "chunk_"@);
    assert(name.skip(6) =~= padded(chunk_idx as nat, 6));
    lemma_decimal_denotes(chunk_idx as nat, 6);
    reveal_with_fuel(decimal, 7);
    crate::text::law_padded(chunk_idx as nat, 6);
}

/// A channel's file is named after its number.
pub proof fn law_channel_name(ch: u64)
    ensures
        channel_name(ch) == seq!['c', 'h'] + decimal(ch as nat) + seq!['.', 't', 's', 'z'],
{
    reveal_strlit("ch");
    reveal_strlit(".tsz");
    assert("ch"@ =~= seq!['c', 'h'] && ".tsz"@ =~= seq!['.', 't', 's', 'z']);
}

} // verus!
