//! The binary index of a chunked waveform.
//!
//! ```text
//! [8 bytes]  magic "OSCVIDX\0"
//! [4 bytes]  version
//! [4 bytes]  number of columns
//! [4 bytes]  number of chunks
//! [8 bytes]  rows per chunk
//! [8 bytes]  total rows
//! [8 bytes]  first instant
//! [8 bytes]  last instant
//! for each chunk:
//!   [8 bytes]  first instant
//!   [8 bytes]  last instant
//!   [8 bytes]  rows
//!   [8 bytes]  reserved, zero
//!   [8 bytes]  size of the stored channels
//!   for each data channel:
//!     [40 bytes]  min, max, sum, sum of squares, count
//! ```
//!
//! All integers and samples are little-endian.

use crate::le::{
    lemma_u32_in, lemma_u64_in, read_u32, read_u64, u32_at, u32_bytes, u64_at, u64_bytes, write_u32,
    write_u64,
};
use crate::sample::Sample;
use crate::stats::ChannelStats;
use crate::text::{append_decimal, decimal, texts};
use vstd::arithmetic::div_mod::lemma_fundamental_div_mod_converse;
use vstd::arithmetic::mul::{lemma_mul_inequality, lemma_mul_is_distributive_add_other_way};
use vstd::prelude::*;

verus! {

/// The version of the index format.
pub const INDEX_VERSION: u32 = 3;

/// The length of the index before its first chunk.
pub const HEADER_LEN: usize = 52;

/// The length of a chunk's record before its channels' aggregates.
pub const RECORD_LEN: usize = 40;

/// The length of one channel's aggregates.
pub const STATS_LEN: usize = 40;

/// One chunk of the waveform.
#[derive(Clone, Debug)]
pub struct ChunkEntry {
    pub index: u32,
    pub t_min: Sample,
    pub t_max: Sample,
    pub row_count: u64,
    pub file_size: u64,
    /// Aggregates of the data channels, in order.
    pub stats: Vec<ChannelStats>,
}

/// What a chunk entry says.
#[verifier::ext_equal]
pub struct EntryView {
    pub index: u32,
    pub t_min: Sample,
    pub t_max: Sample,
    pub row_count: u64,
    pub file_size: u64,
    pub stats: Seq<ChannelStats>,
}

impl View for ChunkEntry {
    type V = EntryView;

    open spec fn view(&self) -> EntryView {
        EntryView {
            index: self.index,
            t_min: self.t_min,
            t_max: self.t_max,
            row_count: self.row_count,
            file_size: self.file_size,
            stats: self.stats@,
        }
    }
}

/// What a sequence of chunk entries says.
pub open spec fn entry_views(entries: Seq<ChunkEntry>) -> Seq<EntryView> {
    Seq::new(entries.len(), |i: int| entries[i]@)
}

/// The contents of an index.
#[derive(Debug)]
pub struct ChunkIndex {
    pub entries: Vec<ChunkEntry>,
    pub columns: Vec<String>,
    pub total_rows: usize,
    pub x_min: Sample,
    pub x_max: Sample,
    pub rows_per_chunk: u64,
}

/// What an index says.
#[verifier::ext_equal]
pub struct IndexView {
    pub entries: Seq<EntryView>,
    pub columns: Seq<Seq<char>>,
    pub total_rows: usize,
    pub x_min: Sample,
    pub x_max: Sample,
    pub rows_per_chunk: u64,
}

impl View for ChunkIndex {
    type V = IndexView;

    open spec fn view(&self) -> IndexView {
        IndexView {
            entries: entry_views(self.entries@),
            columns: texts(self.columns@),
            total_rows: self.total_rows,
            x_min: self.x_min,
            x_max: self.x_max,
            rows_per_chunk: self.rows_per_chunk,
        }
    }
}

/// Why some data are not an index.
#[derive(Clone, Copy, Debug, PartialEq, Eq, Structural)]
pub enum IndexError {
    /// The data end inside the header or inside a chunk's record.
    Truncated,
    /// The data do not begin with the magic bytes.
    BadMagic,
    /// The format version is another one.
    UnsupportedVersion(u32),
    /// The data end inside a chunk's aggregates.
    StatsTruncated,
}

impl IndexError {
    /// What is said of an error.
    pub open spec fn text(self) -> Seq<char> {
        match self {
            IndexError::Truncated => "Index read error: failed to fill whole buffer"@,
            IndexError::BadMagic => "Invalid index magic bytes"@,
            IndexError::UnsupportedVersion(v) => "Unsupported index version: "@ + decimal(v as nat),
            IndexError::StatsTruncated => "Index stats read error: failed to fill whole buffer"@,
        }
    }

    /// Says what is wrong with the data.
    pub fn message(&self) -> (text: String)
        ensures
            text@ == self.text(),
    {
        match self {
            IndexError::Truncated => String::from_str(
                "Index read error: failed to fill whole buffer",
            ),
            IndexError::BadMagic => String::from_str("Invalid index magic bytes"),
            IndexError::UnsupportedVersion(v) => {
                let mut text: String = String::from_str("Unsupported index version: ");
                append_decimal(&mut text, *v as u64);
                text
            },
            IndexError::StatsTruncated => String::from_str(
                "Index stats read error: failed to fill whole buffer",
            ),
        }
    }
}

// ---------------------------------------------------------------------------
// The format
// ---------------------------------------------------------------------------

/// The magic bytes.
pub open spec fn magic() -> Seq<u8> {
    seq![0x4fu8, 0x53u8, 0x43u8, 0x56u8, 0x49u8, 0x44u8, 0x58u8, 0u8]
}

/// How many data channels a number of columns holds: all but the first column.
pub open spec fn channels_in(n_cols: nat) -> nat {
    if n_cols > 1 {
        (n_cols - 1) as nat
    } else {
        0
    }
}

/// One channel's aggregates.
pub open spec fn stat_bytes(s: ChannelStats) -> Seq<u8> {
    u64_bytes(s.min) + u64_bytes(s.max) + u64_bytes(s.sum) + u64_bytes(s.sum_sq) + u64_bytes(s.count)
}

/// A sequence of aggregates.
pub open spec fn stats_bytes(stats: Seq<ChannelStats>) -> Seq<u8>
    decreases stats.len(),
{
    if stats.len() == 0 {
        Seq::empty()
    } else {
        stats_bytes(stats.drop_last()) + stat_bytes(stats.last())
    }
}

/// One chunk.
pub open spec fn entry_bytes(e: EntryView) -> Seq<u8> {
    u64_bytes(e.t_min) + u64_bytes(e.t_max) + u64_bytes(e.row_count) + u64_bytes(0) + u64_bytes(
        e.file_size,
    ) + stats_bytes(e.stats)
}

/// A sequence of chunks.
pub open spec fn entries_bytes(entries: Seq<EntryView>) -> Seq<u8>
    decreases entries.len(),
{
    if entries.len() == 0 {
        Seq::empty()
    } else {
        entries_bytes(entries.drop_last()) + entry_bytes(entries.last())
    }
}

/// The part of the index before its first chunk.
pub open spec fn header_bytes(
    n_cols: u32,
    n_chunks: u32,
    total_rows: u64,
    x_min: Sample,
    x_max: Sample,
    rows_per_chunk: u64,
) -> Seq<u8> {
    magic() + u32_bytes(INDEX_VERSION) + u32_bytes(n_cols) + u32_bytes(n_chunks) + u64_bytes(
        rows_per_chunk,
    ) + u64_bytes(total_rows) + u64_bytes(x_min) + u64_bytes(x_max)
}

/// The whole index.
pub open spec fn index_bytes(
    entries: Seq<EntryView>,
    n_cols: u32,
    total_rows: u64,
    x_min: Sample,
    x_max: Sample,
    rows_per_chunk: u64,
) -> Seq<u8> {
    header_bytes(n_cols, entries.len() as u32, total_rows, x_min, x_max, rows_per_chunk)
        + entries_bytes(entries)
}

/// The length of one chunk's record with its aggregates.
pub open spec fn entry_len(n_channels: nat) -> nat {
    (RECORD_LEN + STATS_LEN * n_channels) as nat
}

/// The aggregates at a position.
pub open spec fn stat_at(data: Seq<u8>, p: int) -> ChannelStats {
    ChannelStats {
        min: u64_at(data, p),
        max: u64_at(data, p + 8),
        sum: u64_at(data, p + 16),
        sum_sq: u64_at(data, p + 24),
        count: u64_at(data, p + 32),
    }
}

/// The chunk at a position.
pub open spec fn entry_at(data: Seq<u8>, p: int, index: u32, n_channels: nat) -> EntryView {
    EntryView {
        index,
        t_min: u64_at(data, p),
        t_max: u64_at(data, p + 8),
        row_count: u64_at(data, p + 16),
        file_size: u64_at(data, p + 32),
        stats: Seq::new(n_channels, |c: int| stat_at(data, p + RECORD_LEN + STATS_LEN * c)),
    }
}

/// The name of column `i`, counted from 0.
pub open spec fn column_name(i: int) -> Seq<char> {
    "column_"@ + decimal((i + 1) as nat)
}

/// The names of a number of columns.
pub open spec fn column_names(n: nat) -> Seq<Seq<char>> {
    Seq::new(n, |i: int| column_name(i))
}

/// What some data say as an index, or why they are none.  Bytes after the last
/// chunk are ignored.
pub open spec fn parsed_index(data: Seq<u8>) -> Result<IndexView, IndexError> {
    let n_cols = u32_at(data, 12) as nat;
    let n_chunks = u32_at(data, 16) as nat;
    let n_channels = channels_in(n_cols);
    let size = entry_len(n_channels);
    if data.len() < 8 {
        Err(IndexError::Truncated)
    } else if data.take(8) != magic() {
        Err(IndexError::BadMagic)
    } else if data.len() < 12 {
        Err(IndexError::Truncated)
    } else if u32_at(data, 8) != INDEX_VERSION {
        Err(IndexError::UnsupportedVersion(u32_at(data, 8)))
    } else if data.len() < HEADER_LEN {
        Err(IndexError::Truncated)
    } else if data.len() < HEADER_LEN + n_chunks * size {
        if (data.len() - HEADER_LEN) % (size as int) < RECORD_LEN {
            Err(IndexError::Truncated)
        } else {
            Err(IndexError::StatsTruncated)
        }
    } else {
        Ok(
            IndexView {
                entries: Seq::new(
                    n_chunks,
                    |k: int| entry_at(data, HEADER_LEN + k * size, k as u32, n_channels),
                ),
                columns: column_names(n_cols),
                total_rows: u64_at(data, 28) as usize,
                x_min: u64_at(data, 36),
                x_max: u64_at(data, 44),
                rows_per_chunk: u64_at(data, 20),
            },
        )
    }
}

// ---------------------------------------------------------------------------
// Writing
// ---------------------------------------------------------------------------

fn write_stats(out: &mut Vec<u8>, stats: &[ChannelStats])
    ensures
        final(out)@ == old(out)@ + stats_bytes(stats@),
{
    let ghost before = out@;
    let mut i: usize = 0;
    assert(before + stats_bytes(stats@.take(0)) =~= before);
    while i < stats.len()
        invariant
            i <= stats@.len(),
            out@ == before + stats_bytes(stats@.take(i as int)),
        decreases stats@.len() - i,
    {
        let ghost so_far = out@;
        write_u64(out, stats[i].min);
        write_u64(out, stats[i].max);
        write_u64(out, stats[i].sum);
        write_u64(out, stats[i].sum_sq);
        write_u64(out, stats[i].count);
        assert(out@ =~= so_far + stat_bytes(stats@[i as int]));
        i += 1;
        assert(stats@.take(i as int).drop_last() =~= stats@.take(i - 1));
        assert(out@ =~= before + stats_bytes(stats@.take(i as int)));
    }
    assert(stats@.take(i as int) =~= stats@);
}

/// Writes the index of a chunked waveform.
pub fn write_index(
    entries: &[ChunkEntry],
    columns: &[String],
    total_rows: usize,
    x_min: Sample,
    x_max: Sample,
    rows_per_chunk: u64,
) -> (out: Vec<u8>)
    ensures
        out@ == index_bytes(
            entry_views(entries@),
            columns@.len() as u32,
            total_rows as u64,
            x_min,
            x_max,
            rows_per_chunk,
        ),
{
    let mut out: Vec<u8> = Vec::new();
    out.push(0x4f);
    out.push(0x53);
    out.push(0x43);
    out.push(0x56);
    out.push(0x49);
    out.push(0x44);
    out.push(0x58);
    out.push(0);
    assert(out@ =~= magic());
    write_u32(&mut out, INDEX_VERSION);
    write_u32(&mut out, columns.len() as u32);
    write_u32(&mut out, entries.len() as u32);
    write_u64(&mut out, rows_per_chunk);
    write_u64(&mut out, total_rows as u64);
    write_u64(&mut out, x_min);
    write_u64(&mut out, x_max);
    let ghost header = out@;
    let ghost views = entry_views(entries@);
    assert(header + entries_bytes(views.take(0)) =~= header);
    let mut i: usize = 0;
    while i < entries.len()
        invariant
            i <= entries@.len(),
            views == entry_views(entries@),
            out@ == header + entries_bytes(views.take(i as int)),
        decreases entries@.len() - i,
    {
        let ghost so_far = out@;
        write_u64(&mut out, entries[i].t_min);
        write_u64(&mut out, entries[i].t_max);
        write_u64(&mut out, entries[i].row_count);
        write_u64(&mut out, 0);
        write_u64(&mut out, entries[i].file_size);
        write_stats(&mut out, &entries[i].stats);
        assert(out@ =~= so_far + entry_bytes(views[i as int]));
        i += 1;
        assert(views.take(i as int).drop_last() =~= views.take(i - 1));
        assert(out@ =~= header + entries_bytes(views.take(i as int)));
    }
    assert(views.take(i as int) =~= views);
    out
}

// ---------------------------------------------------------------------------
// Reading
// ---------------------------------------------------------------------------

/// The names of a number of columns: `column_1`, `column_2` and so on.
pub fn make_column_names(n: usize) -> (names: Vec<String>)
    ensures
        texts(names@) == column_names(n as nat),
{
    let mut names: Vec<String> = Vec::new();
    let mut i: usize = 0;
    while i < n
        invariant
            i <= n,
            texts(names@) == column_names(i as nat),
            names@.len() == i,
        decreases n - i,
    {
        let mut name: String = String::from_str("column_");
        append_decimal(&mut name, i as u64 + 1);
        let ghost before = names@;
        names.push(name);
        assert(texts(names@) =~= column_names((i + 1) as nat)) by {
            assert forall|j: int| 0 <= j < i + 1 implies texts(names@)[j] == column_names(
                (i + 1) as nat,
            )[j] by {
                if j < i {
                    assert(texts(before)[j] == column_names(i as nat)[j]);
                }
            }
        }
        i += 1;
    }
    names
}

pub(crate) fn read_word(data: &[u8], pos: usize) -> (w: u64)
    requires
        pos + 8 <= data@.len(),
    ensures
        w == u64_at(data@, pos as int),
{
    match read_u64(data, pos) {
        Some(w) => w,
        None => 0,
    }
}

pub(crate) fn read_half(data: &[u8], pos: usize) -> (w: u32)
    requires
        pos + 4 <= data@.len(),
    ensures
        w == u32_at(data@, pos as int),
{
    match read_u32(data, pos) {
        Some(w) => w,
        None => 0,
    }
}

pub(crate) fn has_magic(data: &[u8]) -> (b: bool)
    requires
        data@.len() >= 8,
    ensures
        b == (data@.take(8) == magic()),
{
    let b: bool = data[0] == 0x4f && data[1] == 0x53 && data[2] == 0x43 && data[3] == 0x56
        && data[4] == 0x49 && data[5] == 0x44 && data[6] == 0x58 && data[7] == 0;
    proof {
        if b {
            assert(data@.take(8) =~= magic());
        } else {
            let t = data@.take(8);
            let m = magic();
            assert(t[0] == data@[0] && t[1] == data@[1] && t[2] == data@[2] && t[3] == data@[3]);
            assert(t[4] == data@[4] && t[5] == data@[5] && t[6] == data@[6] && t[7] == data@[7]);
            assert(m[0] == 0x4f && m[1] == 0x53 && m[2] == 0x43 && m[3] == 0x56);
            assert(m[4] == 0x49 && m[5] == 0x44 && m[6] == 0x58 && m[7] == 0);
        }
    }
    b
}

fn read_stats(data: &[u8], pos: usize, n: usize) -> (stats: Vec<ChannelStats>)
    requires
        pos + STATS_LEN * n <= data@.len(),
    ensures
        stats@ == Seq::new(n as nat, |c: int| stat_at(data@, pos + STATS_LEN * c)),
{
    assert(data@.len() == data.len());
    let mut stats: Vec<ChannelStats> = Vec::new();
    let mut c: usize = 0;
    let mut at: usize = pos;
    while c < n
        invariant
            c <= n,
            at == pos + STATS_LEN * c,
            pos + STATS_LEN * n <= data@.len(),
            data@.len() <= usize::MAX,
            stats@ == Seq::new(c as nat, |k: int| stat_at(data@, pos + STATS_LEN * k)),
        decreases n - c,
    {
        stats.push(
            ChannelStats {
                min: read_word(data, at),
                max: read_word(data, at + 8),
                sum: read_word(data, at + 16),
                sum_sq: read_word(data, at + 24),
                count: read_word(data, at + 32),
            },
        );
        assert(stats@[c as int] == stat_at(data@, pos + STATS_LEN * c));
        at += STATS_LEN;
        c += 1;
        assert(stats@ =~= Seq::new(c as nat, |k: int| stat_at(data@, pos + STATS_LEN * k)));
    }
    stats
}

/// A record that does not fit after `k` whole ones is the one that the
/// remainder belongs to.
proof fn lemma_short(len: int, n: int, k: int, size: int)
    requires
        size >= RECORD_LEN,
        0 <= k < n,
        k * size <= len < (k + 1) * size,
    ensures
        len < n * size,
        len % size == len - k * size,
{
    lemma_mul_is_distributive_add_other_way(size, k, 1);
    lemma_mul_inequality(k + 1, n, size);
    lemma_fundamental_div_mod_converse(len, size, k, len - k * size);
}

/// Reads the index of a chunked waveform.
pub fn load_index(data: &[u8]) -> (r: Result<ChunkIndex, IndexError>)
    ensures
        match r {
            Ok(index) => parsed_index(data@) == Ok::<IndexView, IndexError>(index@),
            Err(e) => parsed_index(data@) == Err::<IndexView, IndexError>(e),
        },
{
    assert(data@.len() == data.len());
    if data.len() < 8 {
        return Err(IndexError::Truncated);
    }
    if !has_magic(data) {
        return Err(IndexError::BadMagic);
    }
    if data.len() < 12 {
        return Err(IndexError::Truncated);
    }
    let version: u32 = read_half(data, 8);
    if version != INDEX_VERSION {
        return Err(IndexError::UnsupportedVersion(version));
    }
    if data.len() < HEADER_LEN {
        return Err(IndexError::Truncated);
    }
    let n_cols: usize = read_half(data, 12) as usize;
    let n_chunks: u32 = read_half(data, 16);
    let rows_per_chunk: u64 = read_word(data, 20);
    let total_rows: usize = read_word(data, 28) as usize;
    let x_min: Sample = read_word(data, 36);
    let x_max: Sample = read_word(data, 44);
    let n_channels: usize = if n_cols > 1 {
        n_cols - 1
    } else {
        0
    };
    let ghost size: int = entry_len(n_channels as nat) as int;
    let ghost wanted = |k: int|
        entry_at(data@, HEADER_LEN + k * size, k as u32, n_channels as nat);
    let mut entries: Vec<ChunkEntry> = Vec::new();
    let mut pos: usize = HEADER_LEN;
    let mut k: u32 = 0;
    while k < n_chunks
        invariant
            k <= n_chunks,
            HEADER_LEN <= pos <= data@.len(),
            data@.len() == data.len(),
            pos == HEADER_LEN + k * size,
            size == entry_len(n_channels as nat),
            n_channels == channels_in(n_cols as nat),
            n_cols == u32_at(data@, 12),
            n_chunks == u32_at(data@, 16),
            data@.len() >= HEADER_LEN,
            data@.take(8) == magic(),
            u32_at(data@, 8) == INDEX_VERSION,
            wanted == (|k: int|
                entry_at(data@, HEADER_LEN + k * size, k as u32, n_channels as nat)),
            entry_views(entries@) == Seq::new(k as nat, wanted),
            entries@.len() == k,
        decreases n_chunks - k,
    {
        let left: usize = data.len() - pos;
        assert((k + 1) * size == k * size + size) by {
            lemma_mul_is_distributive_add_other_way(size, k as int, 1);
        }
        if left < RECORD_LEN {
            proof {
                lemma_short(data@.len() - HEADER_LEN, n_chunks as int, k as int, size);
            }
            return Err(IndexError::Truncated);
        }
        if (left - RECORD_LEN) / STATS_LEN < n_channels {
            proof {
                lemma_short(data@.len() - HEADER_LEN, n_chunks as int, k as int, size);
            }
            return Err(IndexError::StatsTruncated);
        }
        let stats: Vec<ChannelStats> = read_stats(data, pos + RECORD_LEN, n_channels);
        let entry: ChunkEntry = ChunkEntry {
            index: k,
            t_min: read_word(data, pos),
            t_max: read_word(data, pos + 8),
            row_count: read_word(data, pos + 16),
            file_size: read_word(data, pos + 32),
            stats,
        };
        assert(entry@ =~= wanted(k as int));
        let ghost before = entries@;
        entries.push(entry);
        assert(entry_views(entries@) =~= Seq::new((k + 1) as nat, wanted)) by {
            assert forall|j: int| 0 <= j < k + 1 implies entry_views(entries@)[j] == wanted(j) by {
                if j < k {
                    assert(entry_views(before)[j] == wanted(j));
                }
            }
        }
        pos += RECORD_LEN + STATS_LEN * n_channels;
        k += 1;
    }
    let columns: Vec<String> = make_column_names(n_cols);
    let index: ChunkIndex = ChunkIndex {
        entries,
        columns,
        total_rows,
        x_min,
        x_max,
        rows_per_chunk,
    };
    assert(index@.entries =~= Seq::new(n_chunks as nat, wanted));
    Ok(index)
}

// ---------------------------------------------------------------------------
// What is written is read back
// ---------------------------------------------------------------------------

proof fn lemma_stats_in(stats: Seq<ChannelStats>, b: Seq<u8>, p: int)
    requires
        0 <= p,
        p + STATS_LEN * stats.len() <= b.len(),
        b.subrange(p, p + STATS_LEN * stats.len()) == stats_bytes(stats),
    ensures
        forall|c: int|
            0 <= c < stats.len() ==> stat_at(b, p + STATS_LEN * c) == #[trigger] stats[c],
    decreases stats.len(),
{
    if stats.len() > 0 {
        let n = stats.len() as int;
        let s = stats.last();
        let head = stats.drop_last();
        lemma_stats_len(head);
        lemma_stats_len(stats);
        let q = p + STATS_LEN * (n - 1);
        let whole = b.subrange(p, p + STATS_LEN * n);
        assert(b.subrange(p, q) =~= whole.subrange(0, q - p));
        assert(whole.subrange(0, q - p) =~= stats_bytes(head));
        lemma_stats_in(head, b, p);
        assert(b.subrange(q, q + 8) =~= whole.subrange(q - p, q - p + 8));
        assert(whole.subrange(q - p, q - p + 8) =~= u64_bytes(s.min));
        lemma_u64_in(s.min, b, q);
        assert(b.subrange(q + 8, q + 16) =~= whole.subrange(q - p + 8, q - p + 16));
        assert(whole.subrange(q - p + 8, q - p + 16) =~= u64_bytes(s.max));
        lemma_u64_in(s.max, b, q + 8);
        assert(b.subrange(q + 16, q + 24) =~= whole.subrange(q - p + 16, q - p + 24));
        assert(whole.subrange(q - p + 16, q - p + 24) =~= u64_bytes(s.sum));
        lemma_u64_in(s.sum, b, q + 16);
        assert(b.subrange(q + 24, q + 32) =~= whole.subrange(q - p + 24, q - p + 32));
        assert(whole.subrange(q - p + 24, q - p + 32) =~= u64_bytes(s.sum_sq));
        lemma_u64_in(s.sum_sq, b, q + 24);
        assert(b.subrange(q + 32, q + 40) =~= whole.subrange(q - p + 32, q - p + 40));
        assert(whole.subrange(q - p + 32, q - p + 40) =~= u64_bytes(s.count));
        lemma_u64_in(s.count, b, q + 32);
        assert(stat_at(b, q) == s);
        assert forall|c: int| 0 <= c < stats.len() implies stat_at(b, p + STATS_LEN * c)
            == #[trigger] stats[c] by {
            if c < n - 1 {
                assert(head[c] == stats[c]);
            }
        }
    }
}

proof fn lemma_stats_len(stats: Seq<ChannelStats>)
    ensures
        stats_bytes(stats).len() == STATS_LEN * stats.len(),
    decreases stats.len(),
{
    if stats.len() > 0 {
        lemma_stats_len(stats.drop_last());
    }
}

proof fn lemma_entries_len(entries: Seq<EntryView>, n_channels: nat)
    requires
        forall|k: int| 0 <= k < entries.len() ==> (#[trigger] entries[k]).stats.len() == n_channels,
    ensures
        entries_bytes(entries).len() == entries.len() * entry_len(n_channels),
    decreases entries.len(),
{
    if entries.len() > 0 {
        let n = entries.len() as int;
        let size = entry_len(n_channels) as int;
        let head = entries.drop_last();
        assert forall|k: int| 0 <= k < head.len() implies (#[trigger] head[k]).stats.len()
            == n_channels by {
            assert(head[k] == entries[k]);
        }
        lemma_entries_len(head, n_channels);
        assert(entries[n - 1] == entries.last());
        lemma_stats_len(entries.last().stats);
        assert(entry_bytes(entries.last()).len() == size);
        lemma_mul_is_distributive_add_other_way(size, n - 1, 1);
    } else {
        assert(0 * entry_len(n_channels) == 0);
    }
}

proof fn lemma_entry_in(e: EntryView, index: u32, n_channels: nat, b: Seq<u8>, p: int)
    requires
        0 <= p,
        e.index == index,
        e.stats.len() == n_channels,
        p + entry_len(n_channels) <= b.len(),
        b.subrange(p, p + entry_len(n_channels)) == entry_bytes(e),
    ensures
        entry_at(b, p, index, n_channels) == e,
{
    let size = entry_len(n_channels) as int;
    let whole = b.subrange(p, p + size);
    lemma_stats_len(e.stats);
    assert(b.subrange(p, p + 8) =~= whole.subrange(0, 8));
    assert(whole.subrange(0, 8) =~= u64_bytes(e.t_min));
    lemma_u64_in(e.t_min, b, p);
    assert(b.subrange(p + 8, p + 16) =~= whole.subrange(8, 16));
    assert(whole.subrange(8, 16) =~= u64_bytes(e.t_max));
    lemma_u64_in(e.t_max, b, p + 8);
    assert(b.subrange(p + 16, p + 24) =~= whole.subrange(16, 24));
    assert(whole.subrange(16, 24) =~= u64_bytes(e.row_count));
    lemma_u64_in(e.row_count, b, p + 16);
    assert(b.subrange(p + 32, p + 40) =~= whole.subrange(32, 40));
    assert(whole.subrange(32, 40) =~= u64_bytes(e.file_size));
    lemma_u64_in(e.file_size, b, p + 32);
    assert(b.subrange(p + 40, p + size) =~= whole.subrange(40, size));
    assert(whole.subrange(40, size) =~= stats_bytes(e.stats));
    lemma_stats_in(e.stats, b, p + RECORD_LEN);
    assert(entry_at(b, p, index, n_channels) =~= e);
}

proof fn lemma_entries_in(entries: Seq<EntryView>, n_channels: nat, b: Seq<u8>, p: int)
    requires
        0 <= p,
        entries.len() <= u32::MAX,
        forall|k: int|
            0 <= k < entries.len() ==> (#[trigger] entries[k]).stats.len() == n_channels
                && entries[k].index == k,
        p + entries.len() * entry_len(n_channels) <= b.len(),
        b.subrange(p, p + entries.len() * entry_len(n_channels)) == entries_bytes(entries),
    ensures
        forall|k: int|
            0 <= k < entries.len() ==> entry_at(
                b,
                p + k * entry_len(n_channels),
                k as u32,
                n_channels,
            ) == #[trigger] entries[k],
    decreases entries.len(),
{
    if entries.len() > 0 {
        let n = entries.len() as int;
        let size = entry_len(n_channels) as int;
        let e = entries.last();
        let head = entries.drop_last();
        assert(e == entries[n - 1]);
        assert forall|k: int| 0 <= k < head.len() implies (#[trigger] head[k]).stats.len()
            == n_channels && head[k].index == k by {
            assert(head[k] == entries[k]);
        }
        lemma_mul_is_distributive_add_other_way(size, n - 1, 1);
        lemma_entries_len(head, n_channels);
        lemma_stats_len(e.stats);
        let q = p + (n - 1) * size;
        let whole = b.subrange(p, p + n * size);
        assert(b.subrange(p, q) =~= whole.subrange(0, q - p));
        assert(whole.subrange(0, q - p) =~= entries_bytes(head));
        lemma_entries_in(head, n_channels, b, p);
        assert(b.subrange(q, q + size) =~= whole.subrange(q - p, n * size));
        assert(whole.subrange(q - p, n * size) =~= entry_bytes(e));
        lemma_entry_in(e, (n - 1) as u32, n_channels, b, q);
        assert forall|k: int| 0 <= k < entries.len() implies entry_at(
            b,
            p + k * entry_len(n_channels),
            k as u32,
            n_channels,
        ) == #[trigger] entries[k] by {
            if k < n - 1 {
                assert(head[k] == entries[k]);
            }
        }
    }
}

/// Chunks with their numbers replaced by their positions.
pub open spec fn numbered(entries: Seq<EntryView>) -> Seq<EntryView> {
    Seq::new(entries.len(), |k: int| EntryView { index: k as u32, ..entries[k] })
}

/// The numbers of the chunks are not stored.
proof fn lemma_numbered_bytes(entries: Seq<EntryView>)
    ensures
        entries_bytes(numbered(entries)) == entries_bytes(entries),
    decreases entries.len(),
{
    if entries.len() > 0 {
        lemma_numbered_bytes(entries.drop_last());
        assert(numbered(entries).drop_last() =~= numbered(entries.drop_last()));
    }
}

/// An index is read back as it was written: every chunk with its aggregates,
/// the number of columns, the rows and the range of instants.  The chunks are
/// numbered by their positions.
///
/// Each chunk carries aggregates for every data channel.
pub proof fn law_index_read_back(
    entries: Seq<EntryView>,
    n_cols: u32,
    total_rows: usize,
    x_min: Sample,
    x_max: Sample,
    rows_per_chunk: u64,
)
    requires
        entries.len() <= u32::MAX,
        forall|k: int|
            0 <= k < entries.len() ==> (#[trigger] entries[k]).stats.len() == channels_in(
                n_cols as nat,
            ),
    ensures
        parsed_index(
            index_bytes(entries, n_cols, total_rows as u64, x_min, x_max, rows_per_chunk),
        ) == Ok::<IndexView, IndexError>(
            IndexView {
                entries: numbered(entries),
                columns: column_names(n_cols as nat),
                total_rows,
                x_min,
                x_max,
                rows_per_chunk,
            },
        ),
{
    let n_channels = channels_in(n_cols as nat);
    let size = entry_len(n_channels);
    let n_chunks = entries.len() as u32;
    let rows = total_rows as u64;
    let b = index_bytes(entries, n_cols, rows, x_min, x_max, rows_per_chunk);
    let read = numbered(entries);
    lemma_numbered_bytes(entries);
    assert forall|k: int| 0 <= k < read.len() implies (#[trigger] read[k]).stats.len() == n_channels
        && read[k].index == k by {
        assert(entries[k].stats.len() == n_channels);
    }
    lemma_entries_len(read, n_channels);
    assert(b.len() == HEADER_LEN + entries.len() * size);
    assert(b.take(8) =~= magic());
    assert(b.subrange(8, 12) =~= u32_bytes(INDEX_VERSION));
    lemma_u32_in(INDEX_VERSION, b, 8);
    assert(b.subrange(12, 16) =~= u32_bytes(n_cols));
    lemma_u32_in(n_cols, b, 12);
    assert(b.subrange(16, 20) =~= u32_bytes(n_chunks));
    lemma_u32_in(n_chunks, b, 16);
    assert(b.subrange(20, 28) =~= u64_bytes(rows_per_chunk));
    lemma_u64_in(rows_per_chunk, b, 20);
    assert(b.subrange(28, 36) =~= u64_bytes(rows));
    lemma_u64_in(rows, b, 28);
    assert(b.subrange(36, 44) =~= u64_bytes(x_min));
    lemma_u64_in(x_min, b, 36);
    assert(b.subrange(44, 52) =~= u64_bytes(x_max));
    lemma_u64_in(x_max, b, 44);
    assert(b.subrange(52, b.len() as int) =~= entries_bytes(read));
    lemma_entries_in(read, n_channels, b, 52);
    assert(Seq::new(
        n_chunks as nat,
        |k: int| entry_at(b, HEADER_LEN + k * size, k as u32, n_channels),
    ) =~= read);
}

/// The bytes `OSCVIDX` and a zero, with which an index begins.
pub open spec fn begins_as_index(data: Seq<u8>) -> bool {
    data.len() >= 8 && data[0] == 0x4f && data[1] == 0x53 && data[2] == 0x43 && data[3] == 0x56
        && data[4] == 0x49 && data[5] == 0x44 && data[6] == 0x58 && data[7] == 0
}

/// Which data are an index, and why others are none.  An index begins with the
/// magic bytes and version 3, and has room for all the chunks that it announces:
/// 40 bytes for each, and 40 more for each data channel, that is for every column
/// but the first one.
pub proof fn law_index_accepted(data: Seq<u8>)
    ensures
        ({
            let n_cols = u32_at(data, 12) as int;
            let channels = if n_cols > 1 {
                n_cols - 1
            } else {
                0
            };
            let size = 40 + 40 * channels;
            let whole = 52 + u32_at(data, 16) * size;
            match parsed_index(data) {
                Ok(_) => begins_as_index(data) && data.len() >= 52 && u32_at(data, 8) == 3
                    && data.len() >= whole,
                Err(IndexError::BadMagic) => data.len() >= 8 && !begins_as_index(data),
                Err(IndexError::UnsupportedVersion(v)) => begins_as_index(data) && data.len() >= 12
                    && u32_at(data, 8) == v && v != 3,
                Err(IndexError::Truncated) => data.len() < 8 || begins_as_index(data) && (data.len()
                    < 12 || u32_at(data, 8) == 3 && (data.len() < 52 || data.len() < whole && (
                data.len() - 52) % size < 40)),
                Err(IndexError::StatsTruncated) => begins_as_index(data) && u32_at(data, 8) == 3
                    && 52 <= data.len() < whole && (data.len() - 52) % size >= 40,
            }
        }),
{
    if data.len() >= 8 {
        assert(data.take(8) == magic() <==> begins_as_index(data)) by {
            let t = data.take(8);
            if begins_as_index(data) {
                assert(t =~= magic());
            }
            if t == magic() {
                assert(t[0] == data[0] && t[1] == data[1] && t[2] == data[2] && t[3] == data[3]);
                assert(t[4] == data[4] && t[5] == data[5] && t[6] == data[6] && t[7] == data[7]);
            }
        }
    }
}

/// Where the parts of an index stand: after 52 bytes for the whole, each chunk has
/// its range of instants, its rows, a reserved word, its size, and for each data
/// channel its extremes, its two sums and its count.
pub proof fn law_index_layout(data: Seq<u8>, k: int, c: int)
    requires
        parsed_index(data) is Ok,
    ensures
        ({
            let v = parsed_index(data).unwrap();
            let n_cols = u32_at(data, 12) as int;
            let channels = if n_cols > 1 {
                n_cols - 1
            } else {
                0
            };
            let p = 52 + k * (40 + 40 * channels);
            let q = p + 40 + 40 * c;
            &&& v.columns.len() == n_cols
            &&& v.entries.len() == u32_at(data, 16)
            &&& v.rows_per_chunk == u64_at(data, 20)
            &&& v.total_rows == u64_at(data, 28) as usize
            &&& v.x_min == u64_at(data, 36) && v.x_max == u64_at(data, 44)
            &&& 0 <= k < v.entries.len() ==> {
                let e = v.entries[k];
                &&& e.index == k
                &&& e.t_min == u64_at(data, p) && e.t_max == u64_at(data, p + 8)
                &&& e.row_count == u64_at(data, p + 16)
                &&& e.file_size == u64_at(data, p + 32)
                &&& e.stats.len() == channels
                &&& 0 <= c < channels ==> {
                    let s = e.stats[c];
                    &&& s.min == u64_at(data, q) && s.max == u64_at(data, q + 8)
                    &&& s.sum == u64_at(data, q + 16) && s.sum_sq == u64_at(data, q + 24)
                    &&& s.count == u64_at(data, q + 32)
                }
            }
        }),
{
}

/// What a chunk, and the whole, say is read back as it was written, field by
/// field.
pub proof fn law_index_fields_read_back(
    entries: Seq<EntryView>,
    n_cols: u32,
    total_rows: usize,
    x_min: Sample,
    x_max: Sample,
    rows_per_chunk: u64,
    k: int,
)
    requires
        n_cols >= 1,
        0 <= k < entries.len() <= u32::MAX,
        forall|j: int|
            0 <= j < entries.len() ==> (#[trigger] entries[j]).stats.len() == n_cols - 1,
    ensures
        ({
            let read = parsed_index(
                index_bytes(entries, n_cols, total_rows as u64, x_min, x_max, rows_per_chunk),
            );
            &&& read is Ok
            &&& read.unwrap().entries.len() == entries.len()
            &&& read.unwrap().columns.len() == n_cols
            &&& read.unwrap().total_rows == total_rows
            &&& read.unwrap().x_min == x_min && read.unwrap().x_max == x_max
            &&& read.unwrap().rows_per_chunk == rows_per_chunk
            &&& read.unwrap().entries[k].index == k
            &&& read.unwrap().entries[k].t_min == entries[k].t_min
            &&& read.unwrap().entries[k].t_max == entries[k].t_max
            &&& read.unwrap().entries[k].row_count == entries[k].row_count
            &&& read.unwrap().entries[k].file_size == entries[k].file_size
            &&& read.unwrap().entries[k].stats == entries[k].stats
        }),
{
    law_index_read_back(entries, n_cols, total_rows, x_min, x_max, rows_per_chunk);
}

/// Columns are named by their position, counted from one.
pub proof fn law_column_names(n: nat, i: int)
    requires
        0 <= i < n,
    ensures
        column_names(n).len() == n,
        column_names(n)[i] == seq!['c', 'o', 'l', 'u', 'm', 'n', '_'] + decimal((i + 1) as nat),
{
    reveal_strlit("column_");
    assert("column_"@ =~= seq!['c', 'o', 'l', 'u', 'm', 'n', '_']);
}

/// All columns but the first one, which holds the instants, are data channels.
pub proof fn law_channels_in(n_cols: nat)
    ensures
        n_cols >= 1 ==> channels_in(n_cols) + 1 == n_cols,
        n_cols == 0 ==> channels_in(n_cols) == 0,
{
}

/// What entries and an index say is all that they hold.
pub proof fn law_index_views(index: ChunkIndex, k: int)
    ensures
        ({
            let v = index@;
            &&& v.entries.len() == index.entries@.len()
            &&& v.columns.len() == index.columns@.len()
            &&& v.total_rows == index.total_rows && v.rows_per_chunk == index.rows_per_chunk
            &&& v.x_min == index.x_min && v.x_max == index.x_max
            &&& 0 <= k < index.columns@.len() ==> v.columns[k] == index.columns@[k]@
            &&& 0 <= k < index.entries@.len() ==> {
                let (e, w) = (index.entries@[k], v.entries[k]);
                &&& w.index == e.index
                &&& w.t_min == e.t_min && w.t_max == e.t_max
                &&& w.row_count == e.row_count && w.file_size == e.file_size
                &&& w.stats == e.stats@
            }
        }),
{
}

} // verus!
