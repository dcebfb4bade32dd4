//! An index into a text file that is too large to be converted: where every
//! so-many-th row begins, and its instant.
//!
//! ```text
//! [8 bytes]  magic "OSCVIDX\0"
//! [4 bytes]  version
//! [4 bytes]  number of columns
//! [8 bytes]  total rows
//! [8 bytes]  rows between entries
//! [8 bytes]  first instant
//! [8 bytes]  last instant
//! for each entry:
//!   [8 bytes]  byte offset
//!   [8 bytes]  instant
//! ```
//!
//! All integers and samples are little-endian.

use crate::chunk_index::{has_magic, magic, read_half, read_word};
use crate::chunk_store::{cut, lemma_cut};
use crate::envelope::{lemma_rounded_up, lemma_rounded_up_by_one, rounded_up};
use crate::le::{lemma_u32_in, lemma_u64_in, u32_at, u32_bytes, u64_at, u64_bytes};
use crate::le::{write_u32, write_u64};
use crate::sample::{at_most, below, le, lt, nan, Sample, LARGEST, SMALLEST};
use crate::stats_query::{greatest_from, least_from};
use vstd::arithmetic::div_mod::lemma_fundamental_div_mod;
use vstd::prelude::*;

verus! {

/// The version of the index format.
pub const CSV_INDEX_VERSION: u32 = 1;

/// Rows between two entries of the index.
pub const INDEX_STEP: u64 = 10_000;

/// The most rows that one query reads.
pub const MAX_ROWS_PER_QUERY: usize = 2_000_000;

/// The length of the index before its first entry.
pub const CSV_HEADER_LEN: usize = 48;

/// An index into a text file.
#[derive(Debug)]
pub struct CsvIndex {
    pub n_cols: u32,
    pub total_rows: u64,
    pub step: u64,
    pub x_min: Sample,
    pub x_max: Sample,
    /// Byte offset and instant of every `step`-th row.
    pub entries: Vec<(u64, Sample)>,
}

/// What an index says.
#[verifier::ext_equal]
pub struct CsvIndexView {
    pub n_cols: u32,
    pub total_rows: u64,
    pub step: u64,
    pub x_min: Sample,
    pub x_max: Sample,
    pub entries: Seq<(u64, Sample)>,
}

impl View for CsvIndex {
    type V = CsvIndexView;

    open spec fn view(&self) -> CsvIndexView {
        CsvIndexView {
            n_cols: self.n_cols,
            total_rows: self.total_rows,
            step: self.step,
            x_min: self.x_min,
            x_max: self.x_max,
            entries: self.entries@,
        }
    }
}

// ---------------------------------------------------------------------------
// The format
// ---------------------------------------------------------------------------

/// The part of the index before its first entry.
pub open spec fn csv_header(v: CsvIndexView) -> Seq<u8> {
    magic() + u32_bytes(CSV_INDEX_VERSION) + u32_bytes(v.n_cols) + u64_bytes(v.total_rows)
        + u64_bytes(v.step) + u64_bytes(v.x_min) + u64_bytes(v.x_max)
}

/// The entries of the index.
pub open spec fn csv_entries(entries: Seq<(u64, Sample)>) -> Seq<u8>
    decreases entries.len(),
{
    if entries.len() == 0 {
        Seq::empty()
    } else {
        csv_entries(entries.drop_last()) + u64_bytes(entries.last().0) + u64_bytes(entries.last().1)
    }
}

/// The whole index.
pub open spec fn csv_index_bytes(v: CsvIndexView) -> Seq<u8> {
    csv_header(v) + csv_entries(v.entries)
}

/// The entry at a position.
pub open spec fn csv_entry_at(data: Seq<u8>, i: int) -> (u64, Sample) {
    (u64_at(data, CSV_HEADER_LEN + 16 * i), u64_at(data, CSV_HEADER_LEN + 16 * i + 8))
}

/// How many entries an index of a number of rows has: one for every step begun.
pub open spec fn entries_for(total_rows: u64, step: u64) -> int {
    rounded_up(total_rows as int, step as int)
}

/// What some data say as an index; `None` where they are no index of this
/// version, where its step is zero, or where entries are missing.
pub open spec fn parsed_csv_index(data: Seq<u8>) -> Option<CsvIndexView> {
    let (rows, step) = (u64_at(data, 16), u64_at(data, 24));
    if data.len() >= CSV_HEADER_LEN && data.take(8) == magic() && u32_at(data, 8)
        == CSV_INDEX_VERSION && step > 0 && CSV_HEADER_LEN + 16 * entries_for(rows, step)
        <= data.len() {
        Some(
            CsvIndexView {
                n_cols: u32_at(data, 12),
                total_rows: rows,
                step,
                x_min: u64_at(data, 32),
                x_max: u64_at(data, 40),
                entries: Seq::new(
                    entries_for(rows, step) as nat,
                    |i: int| csv_entry_at(data, i),
                ),
            },
        )
    } else {
        None
    }
}

impl CsvIndex {
    /// Writes the index.
    pub fn to_bytes(&self) -> (out: Vec<u8>)
        ensures
            out@ == csv_index_bytes(self@),
    {
        let mut out: Vec<u8> = vec![0x4f, 0x53, 0x43, 0x56, 0x49, 0x44, 0x58, 0];
        assert(out@ =~= magic());
        write_u32(&mut out, CSV_INDEX_VERSION);
        write_u32(&mut out, self.n_cols);
        write_u64(&mut out, self.total_rows);
        write_u64(&mut out, self.step);
        write_u64(&mut out, self.x_min);
        write_u64(&mut out, self.x_max);
        let ghost header = out@;
        assert(header =~= csv_header(self@));
        let mut i: usize = 0;
        assert(self.entries@.take(0) =~= Seq::<(u64, Sample)>::empty());
        assert(out@ =~= header + csv_entries(self.entries@.take(0)));
        while i < self.entries.len()
            invariant
                i <= self.entries@.len(),
                out@ == header + csv_entries(self.entries@.take(i as int)),
            decreases self.entries@.len() - i,
        {
            assert(self.entries@.take(i + 1).drop_last() =~= self.entries@.take(i as int));
            let (offset, time) = self.entries[i];
            write_u64(&mut out, offset);
            write_u64(&mut out, time);
            i += 1;
            assert(out@ =~= header + csv_entries(self.entries@.take(i as int)));
        }
        assert(self.entries@.take(i as int) =~= self.entries@);
        out
    }

    /// Reads an index.
    pub fn from_bytes(data: &[u8]) -> (r: Option<CsvIndex>)
        ensures
            match r {
                Some(idx) => parsed_csv_index(data@) == Some(idx@),
                None => parsed_csv_index(data@) is None,
            },
    {
        assert(data@.len() == data.len());
        if data.len() < CSV_HEADER_LEN || !has_magic(data) || read_half(data, 8)
            != CSV_INDEX_VERSION {
            return None;
        }
        let n_cols: u32 = read_half(data, 12);
        let total_rows: u64 = read_word(data, 16);
        let step: u64 = read_word(data, 24);
        if step == 0 {
            return None;
        }
        proof {
            lemma_rounded_up(total_rows as int, step as int);
            if total_rows > 0 {
                lemma_rounded_up_by_one(total_rows as int, step as int);
            }
        }
        let begun: u64 = if total_rows > 0 {
            (total_rows - 1) / step + 1
        } else {
            0
        };
        let room: u64 = ((data.len() - CSV_HEADER_LEN) / 16) as u64;
        if begun > room {
            return None;
        }
        let n: usize = begun as usize;
        let mut entries: Vec<(u64, Sample)> = Vec::new();
        let mut i: usize = 0;
        while i < n
            invariant
                i <= n,
                CSV_HEADER_LEN + 16 * n <= data@.len(),
                data@.len() <= usize::MAX,
                entries@ == Seq::new(i as nat, |k: int| csv_entry_at(data@, k)),
            decreases n - i,
        {
            let at: usize = CSV_HEADER_LEN + 16 * i;
            entries.push((read_word(data, at), read_word(data, at + 8)));
            i += 1;
            assert(entries@ =~= Seq::new(i as nat, |k: int| csv_entry_at(data@, k)));
        }
        Some(
            CsvIndex {
                n_cols,
                total_rows,
                step,
                x_min: read_word(data, 32),
                x_max: read_word(data, 40),
                entries,
            },
        )
    }

    /// How many data channels there are; at least one.
    pub fn n_channels(&self) -> (n: usize)
        ensures
            n == (if self.n_cols > 1 {
                self.n_cols - 1
            } else {
                1
            }),
    {
        if self.n_cols > 1 {
            (self.n_cols - 1) as usize
        } else {
            1
        }
    }

    /// Which entries are not later than an instant.
    pub open spec fn not_later(&self, t: Sample) -> Seq<bool> {
        Seq::new(self.entries@.len(), |i: int| at_most(self.entries@[i].1, t))
    }

    /// How many entries are not later than an instant, by halving.
    pub open spec fn passed(&self, t: Sample) -> int {
        cut(self.not_later(t), 0, self.entries@.len() as int)
    }

    /// Where to begin reading for an instant: at the last entry that is not
    /// later, or at the beginning of the file.
    pub open spec fn offset_for(&self, t: Sample) -> u64 {
        if self.passed(t) > 0 {
            self.entries@[self.passed(t) - 1].0
        } else {
            0
        }
    }

    /// Finds where to begin reading for an instant.
    pub fn seek_offset_for_time(&self, target_time: Sample) -> (offset: u64)
        ensures
            offset == self.offset_for(target_time),
    {
        let n: usize = self.entries.len();
        let ghost flags = self.not_later(target_time);
        let mut lo: usize = 0;
        let mut hi: usize = n;
        while lo < hi
            invariant
                lo <= hi <= n,
                n == self.entries@.len(),
                flags == self.not_later(target_time),
                cut(flags, lo as int, hi as int) == cut(flags, 0, n as int),
            decreases hi - lo,
        {
            let mid: usize = lo + (hi - lo) / 2;
            if le(self.entries[mid].1, target_time) {
                lo = mid + 1;
            } else {
                hi = mid;
            }
        }
        proof {
            lemma_cut(flags, 0, n as int);
        }
        if lo > 0 {
            self.entries[lo - 1].0
        } else {
            0
        }
    }
}

proof fn lemma_csv_entries_len(entries: Seq<(u64, Sample)>)
    ensures
        csv_entries(entries).len() == 16 * entries.len(),
    decreases entries.len(),
{
    if entries.len() > 0 {
        lemma_csv_entries_len(entries.drop_last());
    }
}

proof fn lemma_csv_entries_in(entries: Seq<(u64, Sample)>, b: Seq<u8>)
    requires
        CSV_HEADER_LEN + 16 * entries.len() <= b.len(),
        b.subrange(CSV_HEADER_LEN as int, CSV_HEADER_LEN + 16 * entries.len()) == csv_entries(
            entries,
        ),
    ensures
        forall|i: int| 0 <= i < entries.len() ==> csv_entry_at(b, i) == #[trigger] entries[i],
    decreases entries.len(),
{
    if entries.len() > 0 {
        let n = entries.len() as int;
        let h = CSV_HEADER_LEN as int;
        let head = entries.drop_last();
        let e = entries.last();
        let whole = b.subrange(h, h + 16 * n);
        lemma_csv_entries_len(head);
        let q = 16 * (n - 1);
        assert(b.subrange(h, h + q) =~= whole.subrange(0, q));
        assert(whole.subrange(0, q) =~= csv_entries(head));
        lemma_csv_entries_in(head, b);
        assert(b.subrange(h + q, h + q + 8) =~= whole.subrange(q, q + 8));
        assert(whole.subrange(q, q + 8) =~= u64_bytes(e.0));
        lemma_u64_in(e.0, b, h + q);
        assert(b.subrange(h + q + 8, h + q + 16) =~= whole.subrange(q + 8, q + 16));
        assert(whole.subrange(q + 8, q + 16) =~= u64_bytes(e.1));
        lemma_u64_in(e.1, b, h + q + 8);
        assert forall|i: int| 0 <= i < entries.len() implies csv_entry_at(b, i)
            == #[trigger] entries[i] by {
            if i < n - 1 {
                assert(head[i] == entries[i]);
            }
        }
    }
}

/// An index is read back as it was written, if it has the entries that its
/// number of rows calls for.
pub proof fn law_csv_index_read_back(v: CsvIndexView)
    requires
        v.step > 0,
        v.entries.len() == entries_for(v.total_rows, v.step),
    ensures
        parsed_csv_index(csv_index_bytes(v)) == Some(v),
{
    let b = csv_index_bytes(v);
    lemma_csv_entries_len(v.entries);
    assert(b.take(8) =~= magic());
    assert(b.subrange(8, 12) =~= u32_bytes(CSV_INDEX_VERSION));
    lemma_u32_in(CSV_INDEX_VERSION, b, 8);
    assert(b.subrange(12, 16) =~= u32_bytes(v.n_cols));
    lemma_u32_in(v.n_cols, b, 12);
    assert(b.subrange(16, 24) =~= u64_bytes(v.total_rows));
    lemma_u64_in(v.total_rows, b, 16);
    assert(b.subrange(24, 32) =~= u64_bytes(v.step));
    lemma_u64_in(v.step, b, 24);
    assert(b.subrange(32, 40) =~= u64_bytes(v.x_min));
    lemma_u64_in(v.x_min, b, 32);
    assert(b.subrange(40, 48) =~= u64_bytes(v.x_max));
    lemma_u64_in(v.x_max, b, 40);
    assert(b.subrange(48, b.len() as int) =~= csv_entries(v.entries));
    lemma_csv_entries_in(v.entries, b);
    assert(Seq::new(
        entries_for(v.total_rows, v.step) as nat,
        |i: int| csv_entry_at(b, i),
    ) =~= v.entries);
}

// ---------------------------------------------------------------------------
// Building an index
// ---------------------------------------------------------------------------

/// The entries for some rows, each given by its offset and its instant, if it
/// has one.
pub open spec fn indexed_rows(rows: Seq<(u64, Option<Sample>)>) -> Seq<(u64, Sample)>
    decreases rows.len(),
{
    if rows.len() == 0 {
        Seq::empty()
    } else {
        let earlier = indexed_rows(rows.drop_last());
        match rows.last().1 {
            Some(t) => if (rows.len() - 1) % INDEX_STEP as int == 0 {
                earlier.push((rows.last().0, t))
            } else {
                earlier
            },
            None => earlier,
        }
    }
}

/// The instants of some rows.
pub open spec fn instants(rows: Seq<(u64, Option<Sample>)>) -> Seq<Sample>
    decreases rows.len(),
{
    if rows.len() == 0 {
        Seq::empty()
    } else {
        match rows.last().1 {
            Some(t) => instants(rows.drop_last()).push(t),
            None => instants(rows.drop_last()),
        }
    }
}

/// Every so-many-th row is an entry of the index, if all rows have an instant.
proof fn lemma_indexed_rows(rows: Seq<(u64, Option<Sample>)>)
    requires
        forall|i: int| 0 <= i < rows.len() ==> (#[trigger] rows[i]).1 is Some,
    ensures
        indexed_rows(rows).len() == rounded_up(rows.len() as int, INDEX_STEP as int),
        forall|k: int|
            0 <= k < indexed_rows(rows).len() ==> k * INDEX_STEP < rows.len()
                && #[trigger] indexed_rows(rows)[k] == (
                rows[k * INDEX_STEP].0,
                rows[k * INDEX_STEP].1.unwrap(),
            ),
    decreases rows.len(),
{
    if rows.len() > 0 {
        let head = rows.drop_last();
        assert forall|i: int| 0 <= i < head.len() implies (#[trigger] head[i]).1 is Some by {
            assert(head[i] == rows[i]);
        }
        lemma_indexed_rows(head);
        assert(rows[rows.len() - 1].1 is Some);
        assert forall|k: int| 0 <= k < indexed_rows(rows).len() implies k * INDEX_STEP < rows.len()
            && #[trigger] indexed_rows(rows)[k] == (
            rows[k * INDEX_STEP].0,
            rows[k * INDEX_STEP].1.unwrap(),
        ) by {
            if k < indexed_rows(head).len() {
                assert(indexed_rows(rows)[k] == indexed_rows(head)[k]);
                assert(head[k * INDEX_STEP] == rows[k * INDEX_STEP]);
            }
        }
    }
}

/// The index of rows that all have an instant is read back as it was written:
/// a file that was indexed once is opened without reading it again.
pub proof fn law_built_index_read_back(rows: Seq<(u64, Option<Sample>)>, v: CsvIndexView)
    requires
        0 < rows.len() <= u64::MAX,
        forall|i: int| 0 <= i < rows.len() ==> (#[trigger] rows[i]).1 is Some,
        v.total_rows == rows.len(),
        v.step == INDEX_STEP,
        v.entries == indexed_rows(rows),
    ensures
        parsed_csv_index(csv_index_bytes(v)) == Some(v),
{
    lemma_indexed_rows(rows);
    law_csv_index_read_back(v);
}

/// Reading from the place that the index gives misses no row at the instant or
/// after it, and begins less than one step of rows before it.  The instants and
/// the places of the rows increase strictly, and every row has an instant.
pub proof fn law_seek_misses_nothing(
    idx: CsvIndex,
    rows: Seq<(u64, Option<Sample>)>,
    t: Sample,
    r: int,
)
    requires
        idx.entries@ == indexed_rows(rows),
        forall|i: int| 0 <= i < rows.len() ==> (#[trigger] rows[i]).1 is Some,
        forall|i: int, j: int|
            0 <= i < j < rows.len() ==> (#[trigger] rows[i]).0 < (#[trigger] rows[j]).0 && below(
                rows[i].1.unwrap(),
                rows[j].1.unwrap(),
            ),
        0 <= r < rows.len(),
        !nan(rows[0].1.unwrap()),
        !nan(t),
    ensures
        at_most(t, rows[r].1.unwrap()) ==> idx.offset_for(t) <= rows[r].0,
        below(rows[r].1.unwrap(), t) ==> r < idx.passed(t) * INDEX_STEP,
        idx.passed(t) > 0 ==> (idx.passed(t) - 1) * INDEX_STEP < rows.len() && idx.offset_for(t)
            == rows[(idx.passed(t) - 1) * INDEX_STEP].0,
{
    let entries = idx.entries@;
    let n = entries.len() as int;
    let flags = idx.not_later(t);
    lemma_indexed_rows(rows);
    lemma_rounded_up(rows.len() as int, INDEX_STEP as int);
    assert forall|i: int, j: int| 0 <= i <= j < flags.len() && flags[j] implies flags[i] by {
        assert(entries[i].1 == rows[i * INDEX_STEP].1.unwrap());
        assert(entries[j].1 == rows[j * INDEX_STEP].1.unwrap());
        if i < j {
            assert(below(rows[i * INDEX_STEP].1.unwrap(), rows[j * INDEX_STEP].1.unwrap()));
        }
    }
    lemma_cut(flags, 0, n);
    let c = idx.passed(t);
    if c > 0 {
        assert(flags[c - 1]);
        let s = (c - 1) * INDEX_STEP;
        assert(entries[c - 1] == (rows[s].0, rows[s].1.unwrap()));
        if at_most(t, rows[r].1.unwrap()) && r < s {
            assert(below(rows[r].1.unwrap(), rows[s].1.unwrap()));
        }
        if s < r {
            assert(rows[s].0 < rows[r].0);
        }
    }
    if below(rows[r].1.unwrap(), t) && c < n {
        assert(!flags[c]);
        let s = c * INDEX_STEP;
        assert(entries[c] == (rows[s].0, rows[s].1.unwrap()));
        if s > 0 {
            assert(below(rows[0].1.unwrap(), rows[s].1.unwrap()));
        }
        if s < r {
            assert(below(rows[s].1.unwrap(), rows[r].1.unwrap()));
        }
    }
}

/// Builds an index row by row.
pub struct CsvIndexBuilder {
    n_cols: u32,
    row_count: u64,
    x_min: Sample,
    x_max: Sample,
    entries: Vec<(u64, Sample)>,
    rows: Ghost<Seq<(u64, Option<Sample>)>>,
}

impl CsvIndexBuilder {
    /// The rows taken so far.
    pub closed spec fn rows(&self) -> Seq<(u64, Option<Sample>)> {
        self.rows@
    }

    /// The number of columns of the first row.
    pub closed spec fn n_cols(&self) -> u32 {
        self.n_cols
    }

    /// What holds between the rows.
    pub closed spec fn wf(&self) -> bool {
        &&& self.row_count == self.rows@.len()
        &&& self.entries@ == indexed_rows(self.rows@)
        &&& self.x_min == least_from(LARGEST, instants(self.rows@))
        &&& self.x_max == greatest_from(SMALLEST, instants(self.rows@))
    }

    /// Starts an index.
    pub fn new() -> (b: CsvIndexBuilder)
        ensures
            b.wf(),
            b.rows() == Seq::<(u64, Option<Sample>)>::empty(),
    {
        CsvIndexBuilder {
            n_cols: 0,
            row_count: 0,
            x_min: LARGEST,
            x_max: SMALLEST,
            entries: Vec::new(),
            rows: Ghost(Seq::empty()),
        }
    }

    /// Takes one row: where it begins, how many columns it has, and its
    /// instant, if it has one.
    pub fn push_row(&mut self, offset: u64, n_cols: u32, time: Option<Sample>)
        requires
            old(self).wf(),
            old(self).rows().len() < u64::MAX,
        ensures
            final(self).wf(),
            final(self).rows() == old(self).rows().push((offset, time)),
            final(self).n_cols() == (if old(self).rows().len() == 0 {
                n_cols
            } else {
                old(self).n_cols()
            }),
    {
        let ghost before = *self;
        if self.row_count == 0 {
            self.n_cols = n_cols;
        }
        self.rows = Ghost(self.rows@.push((offset, time)));
        assert(self.rows@.drop_last() =~= before.rows@);
        if let Some(t) = time {
            assert(instants(before.rows@).push(t).drop_last() =~= instants(before.rows@));
            if lt(t, self.x_min) {
                self.x_min = t;
            }
            if lt(self.x_max, t) {
                self.x_max = t;
            }
            if self.row_count % INDEX_STEP == 0 {
                self.entries.push((offset, t));
            }
        }
        self.row_count = self.row_count + 1;
    }

    /// The index of the rows taken; `None` if there was none.
    pub fn finish(self) -> (r: Option<CsvIndex>)
        requires
            self.wf(),
        ensures
            match r {
                Some(idx) => self.rows().len() > 0 && idx@ == (CsvIndexView {
                    n_cols: self.n_cols(),
                    total_rows: self.rows().len() as u64,
                    step: INDEX_STEP,
                    x_min: least_from(LARGEST, instants(self.rows())),
                    x_max: greatest_from(SMALLEST, instants(self.rows())),
                    entries: indexed_rows(self.rows()),
                }),
                None => self.rows().len() == 0,
            },
    {
        if self.row_count == 0 {
            return None;
        }
        Some(
            CsvIndex {
                n_cols: self.n_cols,
                total_rows: self.row_count,
                step: INDEX_STEP,
                x_min: self.x_min,
                x_max: self.x_max,
                entries: self.entries,
            },
        )
    }
}

/// Where the parts of an index stand, and which data are one: 48 bytes for the
/// whole, and 16 for every step of rows begun.
pub proof fn law_csv_index_layout(data: Seq<u8>, i: int)
    ensures
        ({
            let (rows, step) = (u64_at(data, 16) as int, u64_at(data, 24) as int);
            match parsed_csv_index(data) {
                Some(v) => {
                    &&& crate::chunk_index::begins_as_index(data)
                    &&& u32_at(data, 8) == 1
                    &&& v.n_cols == u32_at(data, 12)
                    &&& v.total_rows == rows
                    &&& v.step == step && step > 0
                    &&& v.x_min == u64_at(data, 32) && v.x_max == u64_at(data, 40)
                    &&& 48 + 16 * v.entries.len() <= data.len()
                    &&& rows > 0 ==> (v.entries.len() - 1) * step < rows <= v.entries.len() * step
                    &&& rows == 0 ==> v.entries.len() == 0
                    &&& 0 <= i < v.entries.len() ==> v.entries[i].0 == u64_at(data, 48 + 16 * i)
                        && v.entries[i].1 == u64_at(data, 56 + 16 * i)
                },
                None => data.len() < 48 || !crate::chunk_index::begins_as_index(data) || u32_at(
                    data,
                    8,
                ) != 1 || step == 0 || data.len() < 48 + 16 * rounded_up(rows, step),
            }
        }),
{
    let (rows, step) = (u64_at(data, 16) as int, u64_at(data, 24) as int);
    if data.len() >= 8 {
        let t = data.take(8);
        if crate::chunk_index::begins_as_index(data) {
            assert(t =~= magic());
        }
        if t == magic() {
            assert(t[0] == data[0] && t[1] == data[1] && t[2] == data[2] && t[3] == data[3]);
            assert(t[4] == data[4] && t[5] == data[5] && t[6] == data[6] && t[7] == data[7]);
        }
    }
    if step > 0 {
        lemma_rounded_up(rows, step);
        if rows > 0 {
            let l = rounded_up(rows, step);
            lemma_rounded_up_by_one(rows, step);
            lemma_fundamental_div_mod(rows - 1, step);
            assert((l - 1) * step < rows <= l * step) by (nonlinear_arith)
                requires
                    rows - 1 == step * ((rows - 1) / step) + (rows - 1) % step,
                    0 <= (rows - 1) % step < step,
                    l == (rows - 1) / step + 1,
            ;
        }
    }
}

/// Reading begins at the last entry that is not later than the instant, and at
/// the beginning of the file where there is none.
pub proof fn law_offset(idx: CsvIndex, t: Sample)
    requires
        forall|i: int, j: int|
            0 <= i <= j < idx.entries@.len() ==> at_most(
                (#[trigger] idx.entries@[i]).1,
                (#[trigger] idx.entries@[j]).1,
            ),
    ensures
        (forall|i: int| 0 <= i < idx.entries@.len() ==> !at_most((#[trigger] idx.entries@[i]).1, t))
            ==> idx.offset_for(t) == 0,
        forall|i: int|
            0 <= i < idx.entries@.len() && at_most((#[trigger] idx.entries@[i]).1, t) && (i + 1
                < idx.entries@.len() ==> !at_most(idx.entries@[i + 1].1, t)) ==> idx.offset_for(t)
                == idx.entries@[i].0,
{
    let flags = idx.not_later(t);
    let n = idx.entries@.len() as int;
    lemma_cut(flags, 0, n);
    assert forall|i: int, j: int| 0 <= i <= j < flags.len() && flags[j] implies flags[i] by {
        assert(at_most(idx.entries@[i].1, idx.entries@[j].1));
    }
    let c = idx.passed(t);
    if c > 0 {
        assert(flags[c - 1]);
    }
    if c < n {
        assert(!flags[c]);
    }
    assert forall|i: int|
        0 <= i < n && at_most((#[trigger] idx.entries@[i]).1, t) && (i + 1 < n ==> !at_most(
            idx.entries@[i + 1].1,
            t,
        )) implies idx.offset_for(t) == idx.entries@[i].0 by {
        assert(flags[i]);
        if i + 1 < n {
            assert(!flags[i + 1]);
        }
        assert(i < c);
        if i + 1 < c {
            assert(flags[i + 1]);
        }
    }
}

/// The rows noted are the first one and every ten thousandth after it, as far as
/// they have an instant, each with its place and its instant.
pub proof fn law_rows_noted(rows: Seq<(u64, Option<Sample>)>, row: (u64, Option<Sample>))
    ensures
        indexed_rows(Seq::empty()).len() == 0,
        indexed_rows(rows.push(row)) == if rows.len() % 10_000 == 0 && row.1 is Some {
            indexed_rows(rows).push((row.0, row.1.unwrap()))
        } else {
            indexed_rows(rows)
        },
        instants(Seq::empty()).len() == 0,
        instants(rows.push(row)) == if row.1 is Some {
            instants(rows).push(row.1.unwrap())
        } else {
            instants(rows)
        },
{
    assert(rows.push(row).drop_last() =~= rows);
}

/// An index notes one row for every ten thousand begun, where all rows have an
/// instant.
pub proof fn law_every_step_noted(rows: Seq<(u64, Option<Sample>)>, k: int)
    requires
        forall|i: int| 0 <= i < rows.len() ==> (#[trigger] rows[i]).1 is Some,
        0 <= k * 10_000 < rows.len(),
    ensures
        k < indexed_rows(rows).len(),
        indexed_rows(rows)[k].0 == rows[k * 10_000].0,
        Some(indexed_rows(rows)[k].1) == rows[k * 10_000].1,
        10_000 * (indexed_rows(rows).len() - 1) < rows.len() <= 10_000 * indexed_rows(rows).len(),
{
    lemma_indexed_rows(rows);
    lemma_rounded_up_by_one(rows.len() as int, 10_000);
    let e = indexed_rows(rows)[k];
    assert(e == (rows[k * INDEX_STEP].0, rows[k * INDEX_STEP].1.unwrap()));
}

/// What an index says is all that it holds.
pub proof fn law_csv_index_view(idx: CsvIndex)
    ensures
        idx@.n_cols == idx.n_cols && idx@.total_rows == idx.total_rows && idx@.step == idx.step,
        idx@.x_min == idx.x_min && idx@.x_max == idx.x_max && idx@.entries == idx.entries@,
{
}

} // verus!
