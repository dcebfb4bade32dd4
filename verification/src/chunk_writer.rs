//! Rows gathered into chunks.
//!
//! Rows are kept column by column until there are enough for a chunk.  A full
//! chunk is encoded channel by channel and entered in the index, with the range
//! of its finite instants and the aggregates of its channels.

use crate::chunk_cache::column_views;
use crate::chunk_index::{
    column_names, entry_views, index_bytes, law_index_read_back, numbered, parsed_index, ChunkEntry,
    EntryView, IndexError, IndexView,
};
use crate::chunk_store::{all_decodable, chunk_columns, file_views, rows_between};
use crate::sample::{at_most, finite, is_finite, lt, nan, Sample, INFINITY, NEG_INFINITY};
use crate::segments::{
    capped, chunks_before, chunks_for, joined_entries, joined_rows, lemma_chunks_before, Conversion,
    ROWS_PER_GROUP,
};
use crate::stats::{
    finite_samples, greatest, law_aggregates, least, lemma_extremes, lemma_finite_samples_finite,
    lemma_finite_samples_join, stats_of, ChannelStats,
};
use crate::stats_query::faithful;
use crate::tsz_codec::{decodable, decoded_channel, encode_channel, encoded_channel, storable};
use vstd::prelude::*;

verus! {

/// A chunk that is to be written: one file for each data channel.
#[derive(Debug)]
pub struct PendingChunk {
    pub entry: ChunkEntry,
    pub files: Vec<Vec<u8>>,
}

/// The length of several files together, as far as it can be told.
pub open spec fn total_len(files: Seq<Seq<u8>>) -> int
    decreases files.len(),
{
    if files.len() == 0 {
        0
    } else {
        total_len(files.drop_last()) + files.last().len()
    }
}

/// The stored form of every data channel.
pub open spec fn encoded_files(columns: Seq<Seq<Sample>>) -> Seq<Seq<u8>> {
    Seq::new((columns.len() - 1) as nat, |c: int| encoded_channel(columns[0], columns[c + 1]))
}

/// Every data channel can be stored without loss.
pub open spec fn all_storable(columns: Seq<Seq<Sample>>) -> bool {
    forall|c: int| 0 < c < columns.len() ==> #[trigger] storable(columns[0], columns[c])
}

/// The entry of a chunk in the index, given the sums of its channels.
pub open spec fn entry_of(
    columns: Seq<Seq<Sample>>,
    index: u32,
    sums: Seq<(Sample, Sample)>,
) -> EntryView {
    let size = total_len(encoded_files(columns));
    EntryView {
        index,
        t_min: least(finite_samples(columns[0])),
        t_max: greatest(finite_samples(columns[0])),
        row_count: columns[0].len() as u64,
        file_size: if size > u64::MAX {
            u64::MAX
        } else {
            size as u64
        },
        stats: Seq::new(
            (columns.len() - 1) as nat,
            |c: int| stats_of(columns[c + 1], sums[c].0, sums[c].1),
        ),
    }
}

/// A column of several chunks, chunk after chunk.
pub open spec fn joined(chunks: Seq<Seq<Seq<Sample>>>, c: int) -> Seq<Sample>
    decreases chunks.len(),
{
    if chunks.len() == 0 {
        Seq::empty()
    } else {
        joined(chunks.drop_last(), c) + chunks.last()[c]
    }
}

/// Some columns, each with one more sample.
pub open spec fn extended(columns: Seq<Seq<Sample>>, row: Seq<Sample>) -> Seq<Seq<Sample>> {
    Seq::new(columns.len(), |c: int| columns[c].push(row[c]))
}

/// Encodes the data channels of a chunk; gives their files, their aggregates and
/// the length of the files together.
fn encode_columns(columns: &Vec<Vec<Sample>>, sums: &[(Sample, Sample)]) -> (r: (
    Vec<Vec<u8>>,
    Vec<ChannelStats>,
    u64,
))
    requires
        columns@.len() >= 1,
        forall|c: int|
            0 <= c < columns@.len() ==> (#[trigger] columns@[c])@.len() == columns@[0]@.len(),
        sums@.len() == columns@.len() - 1,
    ensures
        ({
            let views = column_views(columns@);
            let size = total_len(encoded_files(views));
            &&& file_views(r.0@) == encoded_files(views)
            &&& r.1@ == Seq::new(
                (views.len() - 1) as nat,
                |c: int| stats_of(views[c + 1], sums@[c].0, sums@[c].1),
            )
            &&& r.2 == (if size > u64::MAX {
                u64::MAX as int
            } else {
                size
            })
            &&& views.len() > 1 && all_storable(views) ==> all_decodable(
                file_views(r.0@),
            ) && chunk_columns(file_views(r.0@)) == views
        }),
{
    let ghost views = column_views(columns@);
    let ghost files_of = encoded_files(views);
    let n_cols: usize = columns.len();
    assert(views[0] == columns@[0]@);
    let mut files: Vec<Vec<u8>> = Vec::new();
    let mut stats: Vec<ChannelStats> = Vec::new();
    let mut file_size: u64 = 0;
    let mut ch: usize = 1;
    while ch < n_cols
        invariant
            1 <= ch <= n_cols,
            views == column_views(columns@),
            n_cols == columns@.len(),
            forall|c: int|
                0 <= c < columns@.len() ==> (#[trigger] columns@[c])@.len() == columns@[0]@.len(),
            views[0] == columns@[0]@,
            sums@.len() == n_cols - 1,
            files_of == encoded_files(views),
            files@.len() == ch - 1,
            file_views(files@) == files_of.take(ch - 1),
            stats@ == Seq::new(
                (ch - 1) as nat,
                |c: int| stats_of(views[c + 1], sums@[c].0, sums@[c].1),
            ),
            file_size == (if total_len(files_of.take(ch - 1)) > u64::MAX {
                u64::MAX as int
            } else {
                total_len(files_of.take(ch - 1))
            }),
            total_len(files_of.take(ch - 1)) >= 0,
            forall|c: int|
                0 <= c < files@.len() && storable(views[0], views[c + 1]) ==> decodable(
                    (#[trigger] files@[c])@,
                ) && decoded_channel(files@[c]@) == (views[0], views[c + 1]),
        decreases n_cols - ch,
    {
        assert(views[ch as int] == columns@[ch as int]@);
        let encoded: Vec<u8> = encode_channel(&columns[0], &columns[ch]);
        assert(files_of[ch - 1] == encoded@);
        assert(files_of.take(ch as int).drop_last() =~= files_of.take(ch - 1));
        file_size = file_size.saturating_add(encoded.len() as u64);
        files.push(encoded);
        assert(file_views(files@) =~= files_of.take(ch as int));
        let (sum, sum_sq) = sums[ch - 1];
        stats.push(ChannelStats::from_values(&columns[ch], sum, sum_sq));
        ch += 1;
        assert(stats@ =~= Seq::new(
            (ch - 1) as nat,
            |c: int| stats_of(views[c + 1], sums@[c].0, sums@[c].1),
        ));
    }
    assert(files_of.take(n_cols - 1) =~= files_of);
    proof {
        if views.len() > 1 && all_storable(views) {
            assert forall|c: int| 0 <= c < files@.len() implies decodable(
                #[trigger] file_views(files@)[c],
            ) && decoded_channel(file_views(files@)[c]) == (views[0], views[c + 1]) by {
                assert(storable(views[0], views[c + 1]));
                assert(file_views(files@)[c] == files@[c]@);
            }
            lemma_columns_back(views, file_views(files@));
        }
    }
    (files, stats, file_size)
}

/// Files that decode to the instants and the channels hold the columns.
proof fn lemma_columns_back(columns: Seq<Seq<Sample>>, files: Seq<Seq<u8>>)
    requires
        columns.len() > 1,
        files.len() == columns.len() - 1,
        forall|c: int|
            0 <= c < files.len() ==> decodable(#[trigger] files[c]) && decoded_channel(files[c])
                == (columns[0], columns[c + 1]),
    ensures
        all_decodable(files),
        chunk_columns(files) == columns,
{
    assert forall|c: int| 0 <= c < columns.len() implies chunk_columns(files)[c]
        == #[trigger] columns[c] by {
        if c > 0 {
            assert(decoded_channel(files[c - 1]) == (columns[0], columns[c]));
        } else {
            assert(decoded_channel(files[0]) == (columns[0], columns[1]));
        }
    }
    assert(chunk_columns(files) =~= columns);
}

/// The aggregates of no sample, for a number of channels.
fn empty_stats(n: usize) -> (stats: Vec<ChannelStats>)
    ensures
        stats@ == Seq::new(n as nat, |c: int| ChannelStats::none()),
{
    let mut stats: Vec<ChannelStats> = Vec::new();
    let mut c: usize = 0;
    while c < n
        invariant
            c <= n,
            stats@ == Seq::new(c as nat, |k: int| ChannelStats::none()),
        decreases n - c,
    {
        stats.push(ChannelStats::empty());
        c += 1;
        assert(stats@ =~= Seq::new(c as nat, |k: int| ChannelStats::none()));
    }
    stats
}

/// Empties columns.
fn clear_columns(columns: &mut Vec<Vec<Sample>>)
    ensures
        final(columns)@.len() == old(columns)@.len(),
        column_views(final(columns)@) == Seq::new(
            old(columns)@.len(),
            |c: int| Seq::<Sample>::empty(),
        ),
{
    let n: usize = columns.len();
    let mut c: usize = 0;
    while c < n
        invariant
            c <= n,
            columns@.len() == n,
            forall|k: int| 0 <= k < c ==> (#[trigger] columns@[k])@ == Seq::<Sample>::empty(),
        decreases n - c,
    {
        columns[c].clear();
        c += 1;
    }
    assert(column_views(columns@) =~= Seq::new(n as nat, |c: int| Seq::<Sample>::empty()));
}

/// Columns of a chunk: as many samples in each, at least one, and no more than a
/// chunk holds.
pub open spec fn chunk_shaped(columns: Seq<Seq<Sample>>, n_cols: nat) -> bool {
    &&& columns.len() == n_cols
    &&& 0 < columns[0].len() <= ROWS_PER_GROUP
    &&& forall|c: int| 0 <= c < n_cols ==> (#[trigger] columns[c]).len() == columns[0].len()
}

/// An entry has the number, the rows and the range of instants of a chunk, and
/// aggregates for each of its channels.
pub open spec fn labels(e: EntryView, columns: Seq<Seq<Sample>>, index: int) -> bool {
    &&& e.index == index
    &&& e.row_count == columns[0].len()
    &&& e.t_min == least(finite_samples(columns[0]))
    &&& e.t_max == greatest(finite_samples(columns[0]))
    &&& e.stats.len() == columns.len() - 1
}

/// Gathers rows into chunks.
pub struct ChunkWriter {
    columns: Vec<Vec<Sample>>,
    n_rows: usize,
    x_min: Sample,
    x_max: Sample,
    t_min: Sample,
    t_max: Sample,
    next_index: u32,
    skipped: usize,
    entries: Vec<ChunkEntry>,
    first_index: Ghost<u32>,
    taken: Ghost<Seq<Seq<Seq<Sample>>>>,
    times: Ghost<Seq<Sample>>,
}

impl ChunkWriter {
    /// The columns of the rows gathered since the last chunk.
    pub closed spec fn pending(&self) -> Seq<Seq<Sample>> {
        column_views(self.columns@)
    }

    /// The columns of the chunks taken so far.
    pub closed spec fn taken(&self) -> Seq<Seq<Seq<Sample>>> {
        self.taken@
    }

    /// The columns of all rows so far: those of the chunks taken, and those
    /// gathered since.
    pub open spec fn gathered(&self) -> Seq<Seq<Sample>> {
        Seq::new(
            self.pending().len(),
            |c: int| joined(self.taken(), c) + self.pending()[c],
        )
    }

    /// The instants of all rows so far.
    pub closed spec fn times(&self) -> Seq<Sample> {
        self.times@
    }

    /// The number of the next chunk.
    pub closed spec fn next_index(&self) -> u32 {
        self.next_index
    }

    /// The number of the first chunk.
    pub closed spec fn first_index(&self) -> u32 {
        self.first_index@
    }

    /// How many malformed rows were passed over.
    pub closed spec fn skipped(&self) -> usize {
        self.skipped
    }

    /// The chunks entered so far.
    pub closed spec fn entries(&self) -> Seq<ChunkEntry> {
        self.entries@
    }

    /// Every chunk but the last one is full, no row is left over, and every
    /// chunk is entered in the index.
    pub open spec fn complete(&self) -> bool {
        &&& self.pending()[0].len() == 0
        &&& self.entries().len() == self.taken().len()
        &&& forall|k: int|
            0 <= k < self.taken().len() - 1 ==> (#[trigger] self.taken()[k])[0].len()
                == ROWS_PER_GROUP
    }

    /// What holds between the operations: the columns have one sample for each
    /// row gathered, the extremes are those of the finite instants, and the
    /// chunks are numbered and entered as they were taken.
    pub closed spec fn wf(&self) -> bool {
        &&& self.columns@.len() >= 1
        &&& forall|c: int|
            0 <= c < self.columns@.len() ==> (#[trigger] self.columns@[c])@.len()
                == self.columns@[0]@.len()
        &&& self.columns@[0]@.len() <= ROWS_PER_GROUP
        &&& forall|k: int|
            0 <= k < self.taken@.len() ==> chunk_shaped(
                #[trigger] self.taken@[k],
                self.columns@.len(),
            )
        &&& self.next_index == self.first_index@ + self.taken@.len()
        &&& self.entries@.len() <= self.taken@.len()
        &&& forall|k: int|
            0 <= k < self.entries@.len() ==> labels(
                (#[trigger] self.entries@[k])@,
                self.taken@[k],
                self.first_index@ + k,
            )
        &&& self.times@ == joined(self.taken@, 0) + self.columns@[0]@
        &&& self.n_rows == self.times@.len()
        &&& self.t_min == least(finite_samples(self.columns@[0]@))
        &&& self.t_max == greatest(finite_samples(self.columns@[0]@))
        &&& self.x_min == least(finite_samples(self.times@))
        &&& self.x_max == greatest(finite_samples(self.times@))
    }

    /// Starts to gather rows of `n_cols` columns; the first chunk gets the
    /// number `first_index`.
    pub fn new(n_cols: usize, first_index: u32) -> (w: ChunkWriter)
        requires
            n_cols >= 1,
        ensures
            w.wf(),
            w.pending() == Seq::new(n_cols as nat, |c: int| Seq::<Sample>::empty()),
            w.taken() == Seq::<Seq<Seq<Sample>>>::empty(),
            w.times() == Seq::<Sample>::empty(),
            w.next_index() == first_index,
            w.first_index() == first_index,
            w.skipped() == 0,
            w.entries() == Seq::<ChunkEntry>::empty(),
    {
        let mut columns: Vec<Vec<Sample>> = Vec::new();
        let mut c: usize = 0;
        while c < n_cols
            invariant
                c <= n_cols,
                columns@.len() == c,
                forall|k: int| 0 <= k < c ==> (#[trigger] columns@[k])@ == Seq::<Sample>::empty(),
            decreases n_cols - c,
        {
            columns.push(Vec::new());
            c += 1;
        }
        let w: ChunkWriter = ChunkWriter {
            columns,
            n_rows: 0,
            x_min: INFINITY,
            x_max: NEG_INFINITY,
            t_min: INFINITY,
            t_max: NEG_INFINITY,
            next_index: first_index,
            skipped: 0,
            entries: Vec::new(),
            first_index: Ghost(first_index),
            taken: Ghost(Seq::empty()),
            times: Ghost(Seq::empty()),
        };
        assert(w.pending() =~= Seq::new(n_cols as nat, |c: int| Seq::<Sample>::empty()));
        w
    }

    /// The columns of the rows gathered since the last chunk.
    pub fn pending_columns(&self) -> (columns: &Vec<Vec<Sample>>)
        ensures
            column_views(columns@) == self.pending(),
    {
        &self.columns
    }

    /// How many rows there were so far.
    pub fn n_rows(&self) -> (n: usize)
        requires
            self.wf(),
        ensures
            n == self.times().len(),
    {
        self.n_rows
    }

    /// Whether there are rows enough for a chunk.
    pub fn is_full(&self) -> (b: bool)
        requires
            self.wf(),
        ensures
            b == (self.pending()[0].len() >= ROWS_PER_GROUP),
    {
        assert(self.pending()[0] == self.columns@[0]@);
        self.columns[0].len() >= ROWS_PER_GROUP
    }

    /// Whether there are rows left that no chunk holds.
    pub fn has_rows(&self) -> (b: bool)
        requires
            self.wf(),
        ensures
            b == (self.pending()[0].len() > 0),
    {
        assert(self.pending()[0] == self.columns@[0]@);
        self.columns[0].len() > 0
    }

    /// Passes over a malformed row.
    pub fn skip_row(&mut self)
        requires
            old(self).wf(),
            old(self).skipped() < usize::MAX,
        ensures
            final(self).wf(),
            final(self).pending() == old(self).pending(),
            final(self).taken() == old(self).taken(),
            final(self).times() == old(self).times(),
            final(self).next_index() == old(self).next_index(),
            final(self).first_index() == old(self).first_index(),
            final(self).skipped() == old(self).skipped() + 1,
            final(self).entries() == old(self).entries(),
    {
        self.skipped = self.skipped + 1;
    }

    /// Gathers one row.
    pub fn push_row(&mut self, row: &[Sample])
        requires
            old(self).wf(),
            row@.len() == old(self).pending().len(),
            old(self).pending()[0].len() < ROWS_PER_GROUP,
            old(self).times().len() < usize::MAX,
        ensures
            final(self).wf(),
            final(self).pending() == extended(old(self).pending(), row@),
            final(self).taken() == old(self).taken(),
            final(self).gathered() == extended(old(self).gathered(), row@),
            final(self).times() == old(self).times().push(row@[0]),
            final(self).next_index() == old(self).next_index(),
            final(self).first_index() == old(self).first_index(),
            final(self).skipped() == old(self).skipped(),
            final(self).entries() == old(self).entries(),
    {
        let ghost before = *self;
        let ghost n = self.columns@.len();
        assert(self.pending()[0] == self.columns@[0]@);
        let mut c: usize = 0;
        while c < row.len()
            invariant
                c <= row@.len(),
                row@.len() == n,
                n == before.columns@.len(),
                *self == (ChunkWriter { columns: self.columns, ..before }),
                self.columns@.len() == n,
                forall|k: int|
                    0 <= k < c ==> (#[trigger] self.columns@[k])@ == before.columns@[k]@.push(
                        row@[k],
                    ),
                forall|k: int| c <= k < n ==> (#[trigger] self.columns@[k]) == before.columns@[k],
            decreases row@.len() - c,
        {
            self.columns[c].push(row[c]);
            c += 1;
        }
        let t: Sample = row[0];
        if is_finite(t) {
            if lt(t, self.t_min) {
                self.t_min = t;
            }
            if lt(self.t_max, t) {
                self.t_max = t;
            }
            if lt(t, self.x_min) {
                self.x_min = t;
            }
            if lt(self.x_max, t) {
                self.x_max = t;
            }
        }
        self.n_rows = self.n_rows + 1;
        self.times = Ghost(before.times@.push(t));
        proof {
            lemma_pushed(before.times@, t);
            lemma_pushed(before.columns@[0]@, t);
            assert forall|k: int| 0 <= k < n implies (#[trigger] self.columns@[k])@.len()
                == self.columns@[0]@.len() by {
                assert(before.columns@[k]@.len() == before.columns@[0]@.len());
            }
            assert(self.pending() =~= extended(before.pending(), row@));
            assert(self.gathered() =~~= extended(before.gathered(), row@));
            assert(self.times@ =~= joined(self.taken@, 0) + self.columns@[0]@);
        }
    }

    /// Encodes the rows gathered as a chunk and starts anew.  `sums` are the
    /// sum and the sum of squares of the finite samples of each data channel.
    pub fn take_chunk(&mut self, sums: &[(Sample, Sample)]) -> (chunk: PendingChunk)
        requires
            old(self).wf(),
            old(self).pending()[0].len() > 0,
            sums@.len() == old(self).pending().len() - 1,
            old(self).next_index() < u32::MAX,
        ensures
            final(self).wf(),
            final(self).pending() == Seq::new(
                old(self).pending().len(),
                |c: int| Seq::<Sample>::empty(),
            ),
            final(self).taken() == old(self).taken().push(old(self).pending()),
            final(self).gathered() == old(self).gathered(),
            final(self).times() == old(self).times(),
            final(self).next_index() == old(self).next_index() + 1,
            final(self).first_index() == old(self).first_index(),
            final(self).skipped() == old(self).skipped(),
            final(self).entries() == old(self).entries(),
            chunk.entry@ == entry_of(old(self).pending(), old(self).next_index(), sums@),
            labels(
                chunk.entry@,
                old(self).pending(),
                old(self).first_index() + old(self).taken().len(),
            ),
            file_views(chunk.files@) == encoded_files(old(self).pending()),
            old(self).pending().len() > 1 && all_storable(old(self).pending()) ==> all_decodable(
                file_views(chunk.files@),
            ) && chunk_columns(file_views(chunk.files@)) == old(self).pending(),
    {
        let ghost before = *self;
        let ghost columns = self.pending();
        let n_cols: usize = self.columns.len();
        assert(columns[0] == self.columns@[0]@);
        let (files, stats, file_size) = encode_columns(&self.columns, sums);
        let entry: ChunkEntry = ChunkEntry {
            index: self.next_index,
            t_min: self.t_min,
            t_max: self.t_max,
            row_count: self.columns[0].len() as u64,
            file_size,
            stats,
        };
        assert(entry@ =~= entry_of(columns, before.next_index, sums@));
        clear_columns(&mut self.columns);
        self.t_min = INFINITY;
        self.t_max = NEG_INFINITY;
        self.next_index = self.next_index + 1;
        self.taken = Ghost(before.taken@.push(columns));
        proof {
            assert forall|c: int| 0 <= c < n_cols implies (#[trigger] self.columns@[c])@
                == Seq::<Sample>::empty() by {
                assert(column_views(self.columns@)[c] == self.columns@[c]@);
            }
            assert(self.taken@.drop_last() =~= before.taken@);
            assert(self.pending() =~= Seq::new(n_cols as nat, |c: int| Seq::<Sample>::empty()));
            assert(chunk_shaped(columns, n_cols as nat)) by {
                assert forall|c: int| 0 <= c < n_cols implies (#[trigger] columns[c]).len()
                    == columns[0].len() by {
                    assert(columns[c] == before.columns@[c]@);
                }
            }
            assert(self.gathered() =~~= before.gathered());
            assert(self.times@ =~= joined(self.taken@, 0) + self.columns@[0]@);
        }
        PendingChunk { entry, files }
    }

    /// Enters the first chunk taken that is not entered yet in the index.  A
    /// chunk whose files could not be written is entered without a size, and with
    /// the aggregates of no sample.
    pub fn enter_chunk(&mut self, entry: ChunkEntry, written: bool)
        requires
            old(self).wf(),
            old(self).entries().len() < old(self).taken().len(),
            ({
                let k = old(self).entries().len() as int;
                labels(entry@, old(self).taken()[k], old(self).first_index() + k)
            }),
        ensures
            final(self).wf(),
            final(self).pending() == old(self).pending(),
            final(self).taken() == old(self).taken(),
            final(self).times() == old(self).times(),
            final(self).next_index() == old(self).next_index(),
            final(self).first_index() == old(self).first_index(),
            final(self).skipped() == old(self).skipped(),
            final(self).entries().len() == old(self).entries().len() + 1,
            final(self).entries().drop_last() == old(self).entries(),
            final(self).entries().last()@ == (if written {
                entry@
            } else {
                EntryView {
                    file_size: 0,
                    stats: Seq::new(
                        (old(self).pending().len() - 1) as nat,
                        |c: int| ChannelStats::none(),
                    ),
                    ..entry@
                }
            }),
    {
        let mut entry: ChunkEntry = entry;
        let ghost given = entry@;
        let ghost before = self.entries@;
        if !written {
            entry.file_size = 0;
            entry.stats = empty_stats(self.columns.len() - 1);
            assert(entry@ =~= (EntryView { file_size: 0, stats: entry.stats@, ..given }));
        }
        self.entries.push(entry);
        assert(self.entries@.drop_last() =~= before);
        assert forall|k: int| 0 <= k < self.entries@.len() implies labels(
            (#[trigger] self.entries@[k])@,
            self.taken@[k],
            self.first_index@ + k,
        ) by {
            if k < before.len() {
                assert(self.entries@[k] == before[k]);
            }
        }
    }

    /// What became of all rows.
    pub fn finish(self) -> (c: Conversion)
        requires
            self.wf(),
        ensures
            c.entries@ == self.entries(),
            c.n_rows == self.times().len(),
            c.x_min == least(finite_samples(self.times())),
            c.x_max == greatest(finite_samples(self.times())),
            c.skipped == self.skipped(),
    {
        Conversion {
            entries: self.entries,
            n_rows: self.n_rows,
            x_min: self.x_min,
            x_max: self.x_max,
            skipped: self.skipped,
        }
    }
}

/// No row is lost or doubled on its way into chunks: the chunks taken and the
/// rows gathered since hold one sample of each column for every row, and no
/// chunk is empty or too long.
pub proof fn law_rows_kept(w: ChunkWriter)
    requires
        w.wf(),
    ensures
        w.times() == w.gathered()[0],
        forall|c: int|
            0 <= c < w.pending().len() ==> (#[trigger] w.gathered()[c]).len() == w.times().len(),
        forall|c: int|
            0 <= c < w.pending().len() ==> (#[trigger] w.pending()[c]).len()
                == w.pending()[0].len(),
        forall|k: int|
            0 <= k < w.taken().len() ==> chunk_shaped(#[trigger] w.taken()[k], w.pending().len()),
        w.pending().len() >= 1,
{
    assert forall|c: int| 0 <= c < w.pending().len() implies (#[trigger] w.pending()[c]).len()
        == w.pending()[0].len() by {
        assert(w.pending()[c] == w.columns@[c]@);
        assert(w.pending()[0] == w.columns@[0]@);
    }
    assert forall|c: int| 0 <= c < w.pending().len() implies (#[trigger] w.gathered()[c]).len()
        == w.times().len() by {
        lemma_joined_len(w.taken(), w.pending().len(), c);
        assert(w.pending()[c] == w.columns@[c]@);
        assert(w.pending()[0] == w.columns@[0]@);
    }
}

proof fn lemma_joined_len(chunks: Seq<Seq<Seq<Sample>>>, n_cols: nat, c: int)
    requires
        0 <= c < n_cols,
        forall|k: int| 0 <= k < chunks.len() ==> chunk_shaped(#[trigger] chunks[k], n_cols),
    ensures
        joined(chunks, c).len() == joined(chunks, 0).len(),
    decreases chunks.len(),
{
    if chunks.len() > 0 {
        assert(chunk_shaped(chunks[chunks.len() - 1], n_cols));
        assert forall|k: int| 0 <= k < chunks.len() - 1 implies chunk_shaped(
            #[trigger] chunks.drop_last()[k],
            n_cols,
        ) by {
            assert(chunk_shaped(chunks[k], n_cols));
        }
        lemma_joined_len(chunks.drop_last(), n_cols, c);
    }
}

proof fn lemma_pushed(times: Seq<Sample>, t: Sample)
    ensures
        finite_samples(times.push(t)) == if finite(t) {
            finite_samples(times).push(t)
        } else {
            finite_samples(times)
        },
        finite_samples(times).push(t).drop_last() == finite_samples(times),
{
    assert(times.push(t).drop_last() =~= times);
    assert(finite_samples(times).push(t).drop_last() =~= finite_samples(times));
}

/// The entry of a chunk tells the truth about the chunk's files, if they hold
/// the columns that were gathered, as `ChunkWriter::take_chunk` promises, and no
/// instant is infinite.
pub proof fn law_entry_is_faithful(
    columns: Seq<Seq<Sample>>,
    index: u32,
    sums: Seq<(Sample, Sample)>,
    ch: int,
)
    requires
        0 <= ch < columns.len() - 1,
        columns[ch + 1].len() == columns[0].len(),
        columns[0].len() <= u64::MAX,
        forall|i: int|
            0 <= i < columns[0].len() ==> finite(#[trigger] columns[0][i]) || nan(columns[0][i]),
        all_decodable(encoded_files(columns)),
        chunk_columns(encoded_files(columns)) == columns,
    ensures
        faithful(entry_of(columns, index, sums), Some(encoded_files(columns)), ch),
        entry_of(columns, index, sums).row_count == columns[0].len(),
{
}

// ---------------------------------------------------------------------------
// Chunk numbers
// ---------------------------------------------------------------------------

/// Full chunks hold as many rows as there are chunks, times the rows of each.
proof fn lemma_joined_full(chunks: Seq<Seq<Seq<Sample>>>, m: int)
    requires
        0 <= m <= chunks.len(),
        forall|k: int| 0 <= k < m ==> (#[trigger] chunks[k])[0].len() == ROWS_PER_GROUP,
    ensures
        joined(chunks.take(m), 0).len() == m * ROWS_PER_GROUP,
    decreases m,
{
    if m > 0 {
        lemma_joined_full(chunks, m - 1);
        assert(chunks.take(m).drop_last() =~= chunks.take(m - 1));
        assert(chunks[m - 1][0].len() == ROWS_PER_GROUP);
    }
}

/// The entries of chunks count the rows that the chunks have together.
proof fn lemma_rows_counted(w: ChunkWriter, m: int)
    requires
        w.wf(),
        0 <= m <= w.entries().len(),
    ensures
        rows_between(entry_views(w.entries()), 0, m) == joined(w.taken().take(m), 0).len(),
    decreases m,
{
    if m > 0 {
        lemma_rows_counted(w, m - 1);
        assert(w.taken().take(m).drop_last() =~= w.taken().take(m - 1));
        assert(labels(w.entries@[m - 1]@, w.taken@[m - 1], w.first_index@ + m - 1));
    }
}

/// The finite instants of a chunk are among those of all chunks.
proof fn lemma_joined_keeps(chunks: Seq<Seq<Seq<Sample>>>, k: int, x: Sample)
    requires
        0 <= k < chunks.len(),
        finite_samples(chunks[k][0]).contains(x),
    ensures
        finite_samples(joined(chunks, 0)).contains(x),
    decreases chunks.len(),
{
    let head = chunks.drop_last();
    let (a, b) = (joined(head, 0), chunks.last()[0]);
    let (fa, fb) = (finite_samples(a), finite_samples(b));
    lemma_finite_samples_join(a, b);
    if k == chunks.len() - 1 {
        let i = choose|i: int| 0 <= i < fb.len() && fb[i] == x;
        assert((fa + fb)[fa.len() + i] == x);
    } else {
        assert(head[k] == chunks[k]);
        lemma_joined_keeps(head, k, x);
        let i = choose|i: int| 0 <= i < fa.len() && fa[i] == x;
        assert((fa + fb)[i] == x);
    }
}

/// An entry counts its rows, and its instants lie in a range.
pub open spec fn accounts(e: EntryView, x_min: Sample, x_max: Sample) -> bool {
    &&& 1 <= e.row_count <= ROWS_PER_GROUP
    &&& at_most(x_min, e.t_min)
    &&& at_most(e.t_max, x_max)
}

/// The index accounts for every row: there are as many chunks as the rows fill,
/// they are numbered one after the other, their rows add up to all rows, and
/// their instants lie in the range of all instants.
pub proof fn law_chunks_numbered(w: ChunkWriter)
    requires
        w.wf(),
        w.complete(),
    ensures
        w.entries().len() == chunks_for(w.times().len() as int),
        forall|k: int|
            0 <= k < w.entries().len() ==> (#[trigger] w.entries()[k])@.index == w.first_index()
                + k && labels(w.entries()[k]@, w.taken()[k], w.first_index() + k) && w.entries()[k]@.stats.len()
                == w.pending().len() - 1 && accounts(
                w.entries()[k]@,
                least(finite_samples(w.times())),
                greatest(finite_samples(w.times())),
            ),
        rows_between(entry_views(w.entries()), 0, w.entries().len() as int) == w.times().len(),
{
    let n = w.taken().len() as int;
    let times = w.times();
    assert(w.pending()[0] == w.columns@[0]@);
    assert(times =~= joined(w.taken(), 0));
    if n > 0 {
        lemma_joined_full(w.taken(), n - 1);
        assert(w.taken().drop_last() =~= w.taken().take(n - 1));
        assert(chunk_shaped(w.taken@[n - 1], w.columns@.len()));
    }
    lemma_rows_counted(w, n);
    assert(w.taken().take(n) =~= w.taken());
    lemma_finite_samples_finite(times);
    lemma_extremes(finite_samples(times));
    assert forall|k: int| 0 <= k < w.entries().len() implies (#[trigger] w.entries()[k])@.index
        == w.first_index() + k && labels(w.entries()[k]@, w.taken()[k], w.first_index() + k)
        && w.entries()[k]@.stats.len() == w.pending().len() - 1 && accounts(
        w.entries()[k]@,
        least(finite_samples(times)),
        greatest(finite_samples(times)),
    ) by {
        let e = w.entries()[k]@;
        let part = finite_samples(w.taken@[k][0]);
        let all = finite_samples(times);
        assert(labels(w.entries@[k]@, w.taken@[k], w.first_index@ + k));
        assert(chunk_shaped(w.taken@[k], w.columns@.len()));
        lemma_finite_samples_finite(w.taken@[k][0]);
        lemma_extremes(part);
        if part.len() > 0 {
            lemma_joined_keeps(w.taken@, k, e.t_min);
            lemma_joined_keeps(w.taken@, k, e.t_max);
            let a = choose|a: int| 0 <= a < all.len() && all[a] == e.t_min;
            let b = choose|b: int| 0 <= b < all.len() && all[b] == e.t_max;
            assert(at_most(least(all), all[a]) && at_most(all[b], greatest(all)));
        }
    }
}

/// A segment was converted from its first row to its last one, with the chunk
/// numbers that were set aside for it.
pub open spec fn segment_done(
    part: Conversion,
    w: ChunkWriter,
    n_cols: nat,
    row_counts: Seq<usize>,
    p: int,
) -> bool {
    &&& w.wf()
    &&& w.complete()
    &&& w.pending().len() == n_cols
    &&& w.times().len() == row_counts[p]
    &&& w.first_index() == capped(chunks_before(row_counts, p))
    &&& part.entries@ == w.entries()
    &&& part.n_rows == w.times().len()
    &&& part.x_min == least(finite_samples(w.times()))
    &&& part.x_max == greatest(finite_samples(w.times()))
}

/// Finds the segment, and the chunk in it, of a chunk of the whole.
proof fn lemma_located(
    parts: Seq<Conversion>,
    ws: Seq<ChunkWriter>,
    n_cols: nat,
    row_counts: Seq<usize>,
    m: int,
    i: int,
) -> (r: (int, int))
    requires
        0 <= m <= parts.len(),
        ws.len() == parts.len(),
        row_counts.len() == parts.len(),
        forall|p: int|
            0 <= p < parts.len() ==> segment_done(#[trigger] parts[p], ws[p], n_cols, row_counts, p),
        0 <= i < joined_entries(parts.take(m)).len(),
    ensures
        0 <= r.0 < m,
        0 <= r.1 < parts[r.0].entries@.len(),
        joined_entries(parts.take(m))[i] == parts[r.0].entries@[r.1],
        i == chunks_before(row_counts, r.0) + r.1,
        joined_entries(parts.take(m)).len() == chunks_before(row_counts, m),
    decreases m,
{
    if m == 0 {
        assert(parts.take(0) =~= Seq::<Conversion>::empty());
        (0, 0)
    } else {
        let head = parts.take(m - 1);
        assert(parts.take(m).drop_last() =~= head);
        assert(segment_done(parts[m - 1], ws[m - 1], n_cols, row_counts, m - 1));
        law_chunks_numbered(ws[m - 1]);
        lemma_joined_count(parts, ws, n_cols, row_counts, m - 1);
        if i < joined_entries(head).len() {
            lemma_located(parts, ws, n_cols, row_counts, m - 1, i)
        } else {
            (m - 1, i - joined_entries(head).len())
        }
    }
}

proof fn lemma_joined_count(
    parts: Seq<Conversion>,
    ws: Seq<ChunkWriter>,
    n_cols: nat,
    row_counts: Seq<usize>,
    m: int,
)
    requires
        0 <= m <= parts.len(),
        ws.len() == parts.len(),
        row_counts.len() == parts.len(),
        forall|p: int|
            0 <= p < parts.len() ==> segment_done(#[trigger] parts[p], ws[p], n_cols, row_counts, p),
    ensures
        joined_entries(parts.take(m)).len() == chunks_before(row_counts, m),
        rows_between(
            entry_views(joined_entries(parts.take(m))),
            0,
            joined_entries(parts.take(m)).len() as int,
        ) == joined_rows(parts.take(m)),
    decreases m,
{
    if m == 0 {
        assert(parts.take(0) =~= Seq::<Conversion>::empty());
    } else {
        lemma_joined_count(parts, ws, n_cols, row_counts, m - 1);
        assert(parts.take(m).drop_last() =~= parts.take(m - 1));
        assert(segment_done(parts[m - 1], ws[m - 1], n_cols, row_counts, m - 1));
        law_chunks_numbered(ws[m - 1]);
        let (a, b) = (joined_entries(parts.take(m - 1)), parts[m - 1].entries@);
        lemma_rows_between_join(entry_views(a), entry_views(b), b.len() as int);
        assert(entry_views(a) + entry_views(b) =~= entry_views(a + b));
    }
}

proof fn lemma_rows_between_join(a: Seq<EntryView>, b: Seq<EntryView>, m: int)
    requires
        0 <= m <= b.len(),
    ensures
        rows_between(a + b, 0, a.len() + m) == rows_between(a, 0, a.len() as int) + rows_between(
            b,
            0,
            m,
        ),
    decreases m,
{
    if m > 0 {
        lemma_rows_between_join(a, b, m - 1);
    } else {
        lemma_rows_between_prefix(a, b, a.len() as int);
    }
}

proof fn lemma_rows_between_prefix(a: Seq<EntryView>, b: Seq<EntryView>, m: int)
    requires
        0 <= m <= a.len(),
    ensures
        rows_between(a + b, 0, m) == rows_between(a, 0, m),
    decreases m,
{
    if m > 0 {
        lemma_rows_between_prefix(a, b, m - 1);
    }
}

proof fn lemma_bounds(mins: Seq<Sample>, maxs: Seq<Sample>)
    requires
        mins.len() == maxs.len(),
        forall|i: int| 0 <= i < mins.len() ==> !nan(#[trigger] mins[i]),
        forall|i: int| 0 <= i < maxs.len() ==> !nan(#[trigger] maxs[i]),
    ensures
        !nan(least(mins)) && !nan(greatest(maxs)),
        forall|i: int| 0 <= i < mins.len() ==> at_most(least(mins), #[trigger] mins[i]),
        forall|i: int| 0 <= i < maxs.len() ==> at_most(#[trigger] maxs[i], greatest(maxs)),
    decreases mins.len(),
{
    if mins.len() > 0 {
        let n = mins.len() - 1;
        let (a, b) = (mins.drop_last(), maxs.drop_last());
        assert forall|i: int| 0 <= i < n implies !nan(#[trigger] a[i]) by {
            assert(a[i] == mins[i]);
        }
        assert forall|i: int| 0 <= i < n implies !nan(#[trigger] b[i]) by {
            assert(b[i] == maxs[i]);
        }
        lemma_bounds(a, b);
        assert(!nan(mins[n]) && !nan(maxs[n]));
        assert forall|i: int| 0 <= i < mins.len() implies at_most(
            least(mins),
            #[trigger] mins[i],
        ) by {
            if i < n {
                assert(at_most(least(a), a[i]));
            }
        }
        assert forall|i: int| 0 <= i < maxs.len() implies at_most(
            #[trigger] maxs[i],
            greatest(maxs),
        ) by {
            if i < n {
                assert(at_most(b[i], greatest(b)));
            }
        }
    }
}

/// Chunks of segments that were converted side by side are numbered without a
/// gap: chunk `i` of the whole has the number `i`, under which its files are
/// kept and looked for.  The chunks count every row, and their instants lie in
/// the range of the whole.
pub proof fn law_merged_chunks_numbered(
    parts: Seq<Conversion>,
    ws: Seq<ChunkWriter>,
    n_cols: nat,
    row_counts: Seq<usize>,
    i: int,
)
    requires
        ws.len() == parts.len(),
        row_counts.len() == parts.len(),
        forall|p: int|
            0 <= p < parts.len() ==> segment_done(#[trigger] parts[p], ws[p], n_cols, row_counts, p),
        chunks_before(row_counts, row_counts.len() as int) < u32::MAX,
        0 <= i < joined_entries(parts).len(),
    ensures
        joined_entries(parts)[i]@.index == i,
        joined_entries(parts)[i]@.stats.len() == n_cols - 1,
        accounts(
            joined_entries(parts)[i]@,
            least(Seq::new(parts.len(), |p: int| parts[p].x_min)),
            greatest(Seq::new(parts.len(), |p: int| parts[p].x_max)),
        ),
        rows_between(
            entry_views(joined_entries(parts)),
            0,
            joined_entries(parts).len() as int,
        ) == joined_rows(parts),
{
    let n = parts.len() as int;
    assert(parts.take(n) =~= parts);
    lemma_joined_count(parts, ws, n_cols, row_counts, n);
    let (p, k) = lemma_located(parts, ws, n_cols, row_counts, n, i);
    assert(segment_done(parts[p], ws[p], n_cols, row_counts, p));
    law_chunks_numbered(ws[p]);
    lemma_chunks_before(row_counts, p, n);
    let mins = Seq::new(parts.len(), |p: int| parts[p].x_min);
    let maxs = Seq::new(parts.len(), |p: int| parts[p].x_max);
    assert forall|q: int| 0 <= q < n implies !nan(#[trigger] mins[q]) && !nan(maxs[q]) by {
        assert(segment_done(parts[q], ws[q], n_cols, row_counts, q));
        lemma_finite_samples_finite(ws[q].times());
        lemma_extremes(finite_samples(ws[q].times()));
    }
    assert forall|q: int| 0 <= q < n implies !nan(#[trigger] maxs[q]) by {
        assert(!nan(mins[q]));
    }
    lemma_bounds(mins, maxs);
    assert(at_most(least(mins), mins[p]) && at_most(maxs[p], greatest(maxs)));
    let e = ws[p].entries()[k]@;
    assert(accounts(e, parts[p].x_min, parts[p].x_max));
}

/// The index of a conversion is read back as it was written, whether or not all
/// chunks could be written.
pub proof fn law_conversion_index_read_back(
    parts: Seq<Conversion>,
    ws: Seq<ChunkWriter>,
    n_cols: nat,
    row_counts: Seq<usize>,
    total_rows: usize,
    x_min: Sample,
    x_max: Sample,
)
    requires
        ws.len() == parts.len(),
        row_counts.len() == parts.len(),
        1 <= n_cols <= u32::MAX,
        forall|p: int|
            0 <= p < parts.len() ==> segment_done(#[trigger] parts[p], ws[p], n_cols, row_counts, p),
        chunks_before(row_counts, row_counts.len() as int) < u32::MAX,
    ensures
        parsed_index(
            index_bytes(
                entry_views(joined_entries(parts)),
                n_cols as u32,
                total_rows as u64,
                x_min,
                x_max,
                ROWS_PER_GROUP as u64,
            ),
        ) == Ok::<IndexView, IndexError>(
            IndexView {
                entries: entry_views(joined_entries(parts)),
                columns: column_names(n_cols),
                total_rows,
                x_min,
                x_max,
                rows_per_chunk: ROWS_PER_GROUP as u64,
            },
        ),
{
    let entries = entry_views(joined_entries(parts));
    assert(parts.take(parts.len() as int) =~= parts);
    lemma_joined_count(parts, ws, n_cols, row_counts, parts.len() as int);
    assert forall|k: int| 0 <= k < entries.len() implies (#[trigger] entries[k]).stats.len()
        == n_cols - 1 && entries[k].index == k by {
        law_merged_chunks_numbered(parts, ws, n_cols, row_counts, k);
    }
    law_index_read_back(
        entries,
        n_cols as u32,
        total_rows,
        x_min,
        x_max,
        ROWS_PER_GROUP as u64,
    );
    assert(numbered(entries) =~= entries);
}

// ---------------------------------------------------------------------------
// Records of a small file
// ---------------------------------------------------------------------------

/// The records that the `csv` crate finds in a text without a header, each
/// with its fields; `None` for a record that it rejects.
pub uninterp spec fn csv_records(data: Seq<u8>) -> Seq<Option<Seq<Seq<u8>>>>;

/// The fields of records that may be rejected.
pub open spec fn record_views(records: Seq<Option<Vec<Vec<u8>>>>) -> Seq<Option<Seq<Seq<u8>>>> {
    Seq::new(
        records.len(),
        |i: int|
            match records[i] {
                Some(fields) => Some(file_views(fields@)),
                None => None,
            },
    )
}

/// Reads all records of a text with `csv::Reader::byte_records`, without a
/// header and without trimming.  The records are a function of the text.
#[verifier::external_body]
fn read_records(data: &[u8]) -> (records: Vec<Option<Vec<Vec<u8>>>>)
    ensures
        record_views(records@) == csv_records(data@),
{
    csv::ReaderBuilder::new()
        .has_headers(false)
        .trim(csv::Trim::None)
        .from_reader(data)
        .byte_records()
        .map(|r| r.ok().map(|record| record.iter().map(|field| field.to_vec()).collect()))
        .collect()
}

/// Records with the expected number of fields; the others are malformed.
pub open spec fn good_records(records: Seq<Option<Seq<Seq<u8>>>>, n_cols: nat) -> Seq<
    Option<Seq<Seq<u8>>>,
> {
    Seq::new(
        records.len(),
        |i: int|
            match records[i] {
                Some(fields) => if fields.len() == n_cols {
                    Some(fields)
                } else {
                    None
                },
                None => None,
            },
    )
}

/// Rejects the records with another number of fields than expected.
pub fn check_records(records: Vec<Option<Vec<Vec<u8>>>>, n_cols: usize) -> (rows: Vec<
    Option<Vec<Vec<u8>>>,
>)
    ensures
        record_views(rows@) == good_records(record_views(records@), n_cols as nat),
{
    let ghost all = records@;
    let mut rows: Vec<Option<Vec<Vec<u8>>>> = records;
    let mut i: usize = 0;
    while i < rows.len()
        invariant
            i <= rows@.len(),
            rows@.len() == all.len(),
            forall|k: int| i <= k < all.len() ==> (#[trigger] rows@[k]) == all[k],
            forall|k: int|
                0 <= k < i ==> (#[trigger] record_views(rows@)[k]) == good_records(
                    record_views(all),
                    n_cols as nat,
                )[k],
        decreases rows@.len() - i,
    {
        let ghost before = rows@;
        let bad: bool = match &rows[i] {
            Some(fields) => fields.len() != n_cols,
            None => false,
        };
        if bad {
            rows.set(i, None);
        }
        assert(before[i as int] == all[i as int]);
        assert forall|k: int| 0 <= k < i + 1 implies (#[trigger] record_views(rows@)[k])
            == good_records(record_views(all), n_cols as nat)[k] by {
            if k < i {
                assert(record_views(before)[k] == record_views(rows@)[k]);
            } else {
                assert(record_views(all)[k] == match all[k] {
                    Some(fields) => Some(file_views(fields@)),
                    None => None,
                });
            }
        }
        i += 1;
    }
    assert(record_views(rows@) =~= good_records(record_views(all), n_cols as nat));
    rows
}

/// The records of a small file, `None` for each one that is malformed.
pub fn file_records(data: &[u8], n_cols: usize) -> (rows: Vec<Option<Vec<Vec<u8>>>>)
    ensures
        record_views(rows@) == good_records(csv_records(data@), n_cols as nat),
{
    check_records(read_records(data), n_cols)
}

/// Files are together as long as all of them.
pub proof fn law_total_len(files: Seq<Seq<u8>>, f: Seq<u8>)
    ensures
        total_len(Seq::empty()) == 0,
        total_len(files.push(f)) == total_len(files) + f.len(),
{
    assert(files.push(f).drop_last() =~= files);
}

/// The columns of several chunks follow each other.
pub proof fn law_joined(chunks: Seq<Seq<Seq<Sample>>>, chunk: Seq<Seq<Sample>>, c: int)
    ensures
        joined(Seq::empty(), c).len() == 0,
        joined(chunks.push(chunk), c) == joined(chunks, c) + chunk[c],
{
    assert(chunks.push(chunk).drop_last() =~= chunks);
}

/// The columns that some rows fill, taken one after the other.
pub open spec fn filled(n_cols: nat, rows: Seq<Seq<Sample>>) -> Seq<Seq<Sample>>
    decreases rows.len(),
{
    if rows.len() == 0 {
        Seq::new(n_cols, |c: int| Seq::empty())
    } else {
        extended(filled(n_cols, rows.drop_last()), rows.last())
    }
}

/// Every field of a row goes into its own column: column `c` holds, in the order
/// of the rows, the samples that stood at place `c`.
pub proof fn law_rows_fill_columns(n_cols: nat, rows: Seq<Seq<Sample>>, c: int)
    requires
        0 <= c < n_cols,
    ensures
        filled(n_cols, rows).len() == n_cols,
        filled(n_cols, rows)[c] == Seq::new(rows.len(), |i: int| rows[i][c]),
    decreases rows.len(),
{
    if rows.len() > 0 {
        law_rows_fill_columns(n_cols, rows.drop_last(), c);
    }
    assert(filled(n_cols, rows)[c] =~= Seq::new(rows.len(), |i: int| rows[i][c]));
}

/// What the entry of a chunk says: its number, how many rows it has, how long its
/// files are, a first and a last instant, which are finite instants of its rows
/// with no other one outside, and the aggregates of each of its channels.
pub proof fn law_entry(
    columns: Seq<Seq<Sample>>,
    index: u32,
    sums: Seq<(Sample, Sample)>,
    c: int,
)
    requires
        columns.len() > 0,
        columns[0].len() <= u64::MAX,
        total_len(encoded_files(columns)) <= u64::MAX,
        0 <= c < columns.len() - 1,
    ensures
        ({
            let (e, times) = (entry_of(columns, index, sums), columns[0]);
            let f = times.filter(|t: Sample| finite(t));
            &&& e.index == index
            &&& e.row_count == times.len()
            &&& e.file_size == total_len(encoded_files(columns))
            &&& f.len() > 0 ==> f.contains(e.t_min) && f.contains(e.t_max)
            &&& forall|i: int|
                0 <= i < times.len() && finite(#[trigger] times[i]) ==> at_most(e.t_min, times[i])
                    && at_most(times[i], e.t_max)
            &&& e.stats.len() == columns.len() - 1
            &&& e.stats[c] == stats_of(columns[c + 1], sums[c].0, sums[c].1)
        }),
{
    law_aggregates(columns[0], 0, 0);
    lemma_total_len(encoded_files(columns));
}

proof fn lemma_total_len(files: Seq<Seq<u8>>)
    ensures
        total_len(files) >= 0,
    decreases files.len(),
{
    if files.len() > 0 {
        lemma_total_len(files.drop_last());
    }
}

/// A record is a row if and only if it has the expected number of fields, and is
/// then left as it is; every record gives a row or a malformed one, in order.
pub proof fn law_good_records(records: Seq<Option<Seq<Seq<u8>>>>, n_cols: nat, i: int)
    requires
        0 <= i < records.len(),
    ensures
        good_records(records, n_cols).len() == records.len(),
        good_records(records, n_cols)[i] is Some <==> records[i] is Some
            && records[i].unwrap().len() == n_cols,
        good_records(records, n_cols)[i] is Some ==> good_records(records, n_cols)[i] == records[i],
{
}

/// Records are seen one by one, each with its fields.
pub proof fn law_record_views(records: Seq<Option<Vec<Vec<u8>>>>, i: int, j: int)
    requires
        0 <= i < records.len(),
    ensures
        record_views(records).len() == records.len(),
        records[i] is None <==> record_views(records)[i] is None,
        records[i] matches Some(fields) ==> record_views(records)[i].unwrap().len() == fields@.len()
            && (0 <= j < fields@.len() ==> record_views(records)[i].unwrap()[j] == fields@[j]@),
{
}

/// A chunk has one file for each data channel, which holds the instants of the
/// chunk and the samples of the channel; all channels can be stored where each of
/// them can.
pub proof fn law_files_of_chunk(columns: Seq<Seq<Sample>>, c: int)
    requires
        columns.len() > 0,
    ensures
        encoded_files(columns).len() == columns.len() - 1,
        0 <= c < columns.len() - 1 ==> encoded_files(columns)[c] == encoded_channel(
            columns[0],
            columns[c + 1],
        ),
        all_storable(columns) <==> forall|k: int|
            1 <= k < columns.len() ==> #[trigger] storable(columns[0], columns[k]),
{
}

/// A chunk has from one row up to a hundred thousand, with a sample of each column
/// for every one of them.
pub proof fn law_chunk_shape(columns: Seq<Seq<Sample>>, n_cols: nat, c: int)
    requires
        chunk_shaped(columns, n_cols),
    ensures
        columns.len() == n_cols,
        1 <= columns[0].len() <= 100_000,
        0 <= c < n_cols ==> columns[c].len() == columns[0].len(),
{
}

/// An entry that labels a chunk has its number, counts its rows, has aggregates
/// for each of its channels, and no finite instant lies outside its range.
pub proof fn law_labels(e: EntryView, columns: Seq<Seq<Sample>>, index: int, i: int)
    requires
        labels(e, columns, index),
        columns[0].len() <= u64::MAX,
    ensures
        e.index == index,
        e.row_count == columns[0].len(),
        e.stats.len() == columns.len() - 1,
        0 <= i < columns[0].len() && finite(columns[0][i]) ==> at_most(e.t_min, columns[0][i])
            && at_most(columns[0][i], e.t_max),
{
    law_aggregates(columns[0], 0, 0);
}

} // verus!
