//! Raw points of several channels over a range of instants.
//!
//! A query visits the overlapping chunks in order.  For each one its owner
//! reads the chunk's files unless the store holds the chunk already, and then
//! lets the query advance.  Only the envelope under construction is kept.

use crate::chunk_cache::column_views;
use crate::chunk_index::{entry_views, ChunkEntry, EntryView};
use crate::chunk_store::{
    all_decodable, begun, chunk_columns, chunk_range, count_rows, ended, file_views, found,
    law_chunks_found, lemma_cut, loadable, range_of, rows_between, stored_chunks, ChunkStore, Disk,
};
use crate::envelope::{
    bars, bracketed, choose_stride, fitted, law_envelope_of_singles, law_fitted_bounded,
    law_fitted_keeps_peaks, law_fitted_shows_peaks_nearby, law_stride, lemma_bars, stride_for,
    visible, Envelope,
};
use crate::sample::{at_most, below, le, nan, Point, Sample};
use crate::tsz_codec::{decodable, decoded_channel, try_decode_channel};
use vstd::prelude::*;

verus! {

// ---------------------------------------------------------------------------
// The answer to a query
// ---------------------------------------------------------------------------

/// The instants and the samples of one channel in one chunk.
pub type Part = (Seq<Sample>, Seq<Sample>);

/// The samples in view of a channel, chunk after chunk.
pub open spec fn collected(parts: Seq<Part>, x_min: Sample, x_max: Sample) -> Seq<Point>
    decreases parts.len(),
{
    if parts.len() == 0 {
        Seq::empty()
    } else {
        collected(parts.drop_last(), x_min, x_max) + visible(
            parts.last().0,
            parts.last().1,
            x_min,
            x_max,
        )
    }
}

/// The points given for a channel.
pub open spec fn answer(
    parts: Seq<Part>,
    x_min: Sample,
    x_max: Sample,
    stride: nat,
    max_points: nat,
) -> Seq<Point> {
    fitted(bars(collected(parts, x_min, x_max), stride), max_points)
}

/// Whether there is anything to visit: the range is not empty and some chunk
/// overlaps it.
pub open spec fn overlapping(entries: Seq<EntryView>, x_min: Sample, x_max: Sample) -> bool {
    let (start, end) = range_of(entries, x_min, x_max);
    !at_most(x_max, x_min) && start < end
}

/// The samples per bin of a query.
pub open spec fn query_stride(
    entries: Seq<EntryView>,
    x_min: Sample,
    x_max: Sample,
    max_points: nat,
) -> int {
    let (start, end) = range_of(entries, x_min, x_max);
    stride_for(rows_between(entries, start, end), max_points)
}

/// Where the samples of a channel are in a chunk's columns.
pub open spec fn column_part(columns: Seq<Seq<Sample>>, ch: int) -> Part {
    (columns[0], columns[ch + 1])
}

/// What a channel has in each of several chunks.
pub open spec fn channel_parts(chunks: Seq<Seq<Seq<Sample>>>, ch: int) -> Seq<Part> {
    Seq::new(chunks.len(), |i: int| column_part(chunks[i], ch))
}

/// The points that the waveform on disk gives for a channel.
pub open spec fn stored_points(
    entries: Seq<EntryView>,
    disk: Disk,
    ch: int,
    x_min: Sample,
    x_max: Sample,
    max_points: nat,
) -> Seq<Point> {
    let (start, end) = range_of(entries, x_min, x_max);
    if overlapping(entries, x_min, x_max) {
        answer(
            channel_parts(stored_chunks(disk, start, end), ch),
            x_min,
            x_max,
            query_stride(entries, x_min, x_max, max_points) as nat,
            max_points,
        )
    } else {
        Seq::empty()
    }
}

// ---------------------------------------------------------------------------
// Queries over a store
// ---------------------------------------------------------------------------

/// A query for the raw points of several channels.
pub struct RawQuery {
    picks: Vec<usize>,
    next: usize,
    end: usize,
    max_points: usize,
    envelope: Envelope,
    visited: Ghost<Seq<Seq<Seq<Sample>>>>,
}

impl RawQuery {
    /// The channels asked for.
    pub closed spec fn channels(&self) -> Seq<int> {
        Seq::new(self.picks@.len(), |j: int| self.picks@[j] - 1)
    }

    /// The chunk to visit next.
    pub closed spec fn next(&self) -> int {
        self.next as int
    }

    /// The chunk after the last one to visit.
    pub closed spec fn end(&self) -> int {
        self.end as int
    }

    /// The points wanted for each channel.
    pub closed spec fn max_points(&self) -> nat {
        self.max_points as nat
    }

    /// The samples per bin.
    pub closed spec fn stride(&self) -> nat {
        self.envelope.stride() as nat
    }

    /// The range of instants.
    pub closed spec fn range(&self) -> (Sample, Sample) {
        (self.envelope.x_min(), self.envelope.x_max())
    }

    /// The columns of the chunks visited so far.
    pub closed spec fn visited(&self) -> Seq<Seq<Seq<Sample>>> {
        self.visited@
    }

    /// What holds between the steps: the envelopes are those of the chunks
    /// visited.
    pub closed spec fn wf(&self) -> bool {
        &&& self.envelope.wf()
        &&& self.envelope.seen().len() == self.picks@.len()
        &&& forall|j: int|
            0 <= j < self.picks@.len() ==> #[trigger] self.envelope.seen()[j] == collected(
                channel_parts(self.visited@, self.picks@[j] - 1),
                self.envelope.x_min(),
                self.envelope.x_max(),
            )
    }

    /// The chunks and the channels that remain are among a store's.
    pub closed spec fn fits(&self, n_chunks: nat, n_channels: nat) -> bool {
        self.next < self.end ==> {
            &&& self.end <= n_chunks
            &&& forall|j: int| 0 <= j < self.picks@.len() ==> 1 <= #[trigger] self.picks@[j] <= n_channels
        }
    }

    /// The query is on its way through the chunks of its range: the chunks that
    /// it visited are those on disk.
    pub open spec fn tracks(&self, entries: Seq<EntryView>, disk: Disk) -> bool {
        let (x_min, x_max) = self.range();
        let (start, end) = range_of(entries, x_min, x_max);
        if overlapping(entries, x_min, x_max) {
            &&& start <= self.next() <= self.end()
            &&& self.end() == end
            &&& self.stride() == query_stride(entries, x_min, x_max, self.max_points())
            &&& self.visited() == stored_chunks(disk, start, self.next())
        } else {
            &&& self.next() >= self.end()
            &&& self.visited() == Seq::<Seq<Seq<Sample>>>::empty()
        }
    }

    /// The chunk to visit next; `None` once all are visited.
    pub fn next_chunk(&self) -> (k: Option<usize>)
        ensures
            match k {
                Some(k) => k == self.next() && self.next() < self.end(),
                None => self.next() >= self.end(),
            },
    {
        if self.next < self.end {
            Some(self.next)
        } else {
            None
        }
    }

    /// Visits the next chunk.  `files` are the chunk's files, if the store does
    /// not hold the chunk and they could be read.  A chunk that cannot be had is
    /// left out.
    pub fn advance(&mut self, store: &mut ChunkStore, files: &Option<Vec<Vec<u8>>>)
        requires
            old(store).wf(),
            old(self).wf(),
            old(self).fits(old(store).index().len(), old(store).channels()),
            old(self).next() < old(self).end(),
            !old(store).cache.held().contains_key(old(self).next() as u32) ==> (files matches Some(
                f,
            ) ==> f@.len() == old(store).channels()),
        ensures
            final(store).wf(),
            final(store).same_index(old(store)),
            final(self).wf(),
            final(self).fits(final(store).index().len(), final(store).channels()),
            final(self).channels() == old(self).channels(),
            final(self).next() == old(self).next() + 1,
            final(self).end() == old(self).end(),
            final(self).max_points() == old(self).max_points(),
            final(self).stride() == old(self).stride(),
            final(self).range() == old(self).range(),
            ({
                let k = old(self).next() as u32;
                if old(store).cache.held().contains_key(k) {
                    final(self).visited() == old(self).visited().push(
                        old(store).cache.held()[k].columns,
                    )
                } else if loadable(found(*files)) {
                    final(self).visited() == old(self).visited().push(
                        chunk_columns(found(*files).unwrap()),
                    )
                } else {
                    final(self).visited() == old(self).visited()
                }
            }),
            final(store).used(old(store), old(self).next() as u32, *files),
            forall|disk: Disk| #[trigger]
                old(store).coherent(disk) && old(store).supplied(old(self).next(), *files, disk)
                    ==> final(store).coherent(disk) && (old(self).tracks(old(store).index(), disk)
                    ==> final(self).tracks(final(store).index(), disk)),
    {
        let k: u32 = self.next as u32;
        let ghost before = *self;
        let ghost was = *store;
        self.next = self.next + 1;
        if store.ensure_loaded(k, files) {
            match store.cache.get(k) {
                Some(chunk) => {
                    assert(store.cache.held().contains_key(k));
                    self.envelope.scan(&chunk.columns[0], &chunk.columns, &self.picks);
                    let ghost columns = chunk@.columns;
                    self.visited = Ghost(before.visited@.push(columns));
                    assert forall|j: int| 0 <= j < self.picks@.len() implies #[trigger] self.envelope.seen()[j]
                        == collected(
                        channel_parts(self.visited@, self.picks@[j] - 1),
                        self.envelope.x_min(),
                        self.envelope.x_max(),
                    ) by {
                        let ch = self.picks@[j] - 1;
                        let parts = channel_parts(self.visited@, ch);
                        assert(before.envelope.seen()[j] == collected(
                            channel_parts(before.visited@, ch),
                            self.envelope.x_min(),
                            self.envelope.x_max(),
                        ));
                        assert(parts.drop_last() =~= channel_parts(before.visited@, ch));
                        assert(parts.last() == column_part(columns, ch));
                        assert(columns[ch + 1] == chunk.columns@[ch + 1]@);
                        assert(columns[0] == chunk.columns@[0]@);
                    }
                },
                None => {},
            }
        }
        assert forall|disk: Disk| #[trigger]
            was.coherent(disk) && was.supplied(before.next(), *files, disk) && before.tracks(
                was.index(),
                disk,
            ) implies self.tracks(store.index(), disk) by {
            if was.cache.held().contains_key(k) {
                assert(was.cache.held()[k].columns == chunk_columns(disk[k as int].unwrap()));
            }
        }
    }

    /// The points of each channel asked for, in order.
    pub fn finish(self) -> (results: Vec<Vec<Point>>)
        requires
            self.wf(),
            self.max_points() > 0 || self.visited().len() == 0,
        ensures
            results@.len() == self.channels().len(),
            forall|j: int|
                0 <= j < results@.len() ==> (#[trigger] results@[j])@ == answer(
                    channel_parts(self.visited(), self.channels()[j]),
                    self.range().0,
                    self.range().1,
                    self.stride(),
                    self.max_points(),
                ) && results@[j]@.len() <= self.max_points(),
    {
        assert forall|j: int|
            0 <= j < self.envelope.seen().len() && self.visited().len() == 0 implies (
        #[trigger] self.envelope.seen()[j]).len() == 0 by {
            assert(channel_parts(self.visited@, self.picks@[j] - 1).len() == self.visited@.len());
        }
        self.envelope.finish(self.max_points)
    }
}

/// A query that has nothing to visit.
fn idle_query(n: usize, x_min: Sample, x_max: Sample, max_points: usize) -> (q: RawQuery)
    ensures
        q.wf(),
        forall|n_chunks: nat, n_channels: nat| q.fits(n_chunks, n_channels),
        q.channels().len() == n,
        q.next() >= q.end(),
        q.max_points() == max_points,
        q.range() == (x_min, x_max),
        q.visited() == Seq::<Seq<Seq<Sample>>>::empty(),
{
    let mut picks: Vec<usize> = Vec::new();
    let mut j: usize = 0;
    while j < n
        invariant
            j <= n,
            picks@.len() == j,
        decreases n - j,
    {
        picks.push(0);
        j += 1;
    }
    RawQuery {
        picks,
        next: 0,
        end: 0,
        max_points,
        envelope: Envelope::new(n, x_min, x_max, 1),
        visited: Ghost(Seq::empty()),
    }
}

impl ChunkStore {
    /// Whether a query for some channels has anything to visit: there are
    /// channels, all of them exist, and some chunk overlaps the range.
    pub open spec fn answerable(&self, channels: Seq<usize>, x_min: Sample, x_max: Sample) -> bool {
        &&& channels.len() > 0
        &&& forall|j: int| 0 <= j < channels.len() ==> (#[trigger] channels[j]) < self.channels()
        &&& overlapping(self.index(), x_min, x_max)
    }

    /// Starts a query for the raw points of several channels.  The result has
    /// one run of points for every channel asked for; all are empty where some
    /// channel does not exist or nothing overlaps the range.
    pub fn get_raw_points_multi(
        &self,
        channels: &[usize],
        x_min: Sample,
        x_max: Sample,
        max_points: usize,
    ) -> (q: RawQuery)
        requires
            self.wf(),
        ensures
            q.wf(),
            q.fits(self.index().len(), self.channels()),
            q.channels().len() == channels@.len(),
            q.max_points() == max_points,
            q.range() == (x_min, x_max),
            q.visited() == Seq::<Seq<Seq<Sample>>>::empty(),
            if self.answerable(channels@, x_min, x_max) {
                &&& q.channels() == Seq::new(channels@.len(), |j: int| channels@[j] as int)
                &&& (q.next(), q.end()) == range_of(self.index(), x_min, x_max)
                &&& q.stride() == query_stride(self.index(), x_min, x_max, max_points as nat)
            } else {
                q.next() >= q.end()
            },
    {
        if le(x_max, x_min) || channels.len() == 0 {
            return idle_query(channels.len(), x_min, x_max, max_points);
        }
        let n_channels: usize = self.n_channels();
        let mut picks: Vec<usize> = Vec::new();
        let mut j: usize = 0;
        while j < channels.len()
            invariant
                j <= channels@.len(),
                n_channels == self.channels(),
                channels@.len() > 0,
                picks@ == Seq::new(j as nat, |k: int| (channels@[k] + 1) as usize),
                forall|k: int| 0 <= k < j ==> (#[trigger] channels@[k]) < n_channels,
            decreases channels@.len() - j,
        {
            if channels[j] >= n_channels {
                assert(!self.answerable(channels@, x_min, x_max));
                return idle_query(channels.len(), x_min, x_max, max_points);
            }
            picks.push(channels[j] + 1);
            assert(picks@ =~= Seq::new((j + 1) as nat, |k: int| (channels@[k] + 1) as usize));
            j += 1;
        }
        let (start, end) = chunk_range(self.entries.as_slice(), x_min, x_max);
        if start >= end {
            return idle_query(channels.len(), x_min, x_max, max_points);
        }
        let rows: u128 = count_rows(self.entries.as_slice(), start, end);
        let q: RawQuery = RawQuery {
            picks,
            next: start,
            end,
            max_points,
            envelope: Envelope::new(channels.len(), x_min, x_max, choose_stride(rows, max_points)),
            visited: Ghost(Seq::empty()),
        };
        assert(q.channels() =~= Seq::new(channels@.len(), |j: int| channels@[j] as int));
        q
    }

    /// Starts a query for the raw points of one channel.
    pub fn get_raw_points(&self, ch_idx: usize, x_min: Sample, x_max: Sample, max_points: usize) -> (q:
        RawQuery)
        requires
            self.wf(),
        ensures
            q.wf(),
            q.fits(self.index().len(), self.channels()),
            q.channels().len() == 1,
            q.max_points() == max_points,
            q.range() == (x_min, x_max),
            q.visited() == Seq::<Seq<Seq<Sample>>>::empty(),
            if ch_idx < self.channels() && overlapping(self.index(), x_min, x_max) {
                &&& q.channels()[0] == ch_idx
                &&& (q.next(), q.end()) == range_of(self.index(), x_min, x_max)
                &&& q.stride() == query_stride(self.index(), x_min, x_max, max_points as nat)
            } else {
                q.next() >= q.end()
            },
    {
        let mut channels: Vec<usize> = Vec::new();
        channels.push(ch_idx);
        assert(channels@[0] == ch_idx);
        self.get_raw_points_multi(channels.as_slice(), x_min, x_max, max_points)
    }
}

// ---------------------------------------------------------------------------
// Queries without a store
// ---------------------------------------------------------------------------

/// The channels asked for in one chunk.
#[derive(Debug)]
pub struct DecodedChunk {
    pub times: Vec<Sample>,
    pub columns: Vec<Vec<Sample>>,
}

/// Decodes the channels asked for in one chunk.  `first` is the file of the
/// first channel, which gives the instants; `wanted` are the files of the
/// channels asked for.  A chunk without instants gives nothing.
pub fn decode_chunk(first: &[u8], wanted: &[Vec<u8>]) -> (r: Option<DecodedChunk>)
    ensures
        r is Some == (decodable(first@) && all_decodable(file_views(wanted@)) && decoded_channel(
            first@,
        ).0.len() > 0),
        r matches Some(chunk) ==> {
            &&& chunk.times@ == decoded_channel(first@).0
            &&& column_views(chunk.columns@) == Seq::new(
                wanted@.len(),
                |j: int| decoded_channel(wanted@[j]@).1,
            )
        },
{
    let times: Vec<Sample> = match try_decode_channel(first) {
        Some((times, values)) => times,
        None => {
            return None;
        },
    };
    if times.len() == 0 {
        return None;
    }
    let ghost views = file_views(wanted@);
    let mut columns: Vec<Vec<Sample>> = Vec::new();
    let mut j: usize = 0;
    while j < wanted.len()
        invariant
            j <= wanted@.len(),
            views == file_views(wanted@),
            columns@.len() == j,
            forall|i: int| 0 <= i < j ==> decodable(#[trigger] views[i]),
            forall|i: int| 0 <= i < j ==> (#[trigger] columns@[i])@ == decoded_channel(views[i]).1,
        decreases wanted@.len() - j,
    {
        assert(views[j as int] == wanted@[j as int]@);
        match try_decode_channel(wanted[j].as_slice()) {
            Some((ts, vs)) => {
                columns.push(vs);
            },
            None => {
                assert(!decodable(views[j as int]));
                return None;
            },
        }
        j += 1;
    }
    assert(column_views(columns@) =~= Seq::new(
        wanted@.len(),
        |j: int| decoded_channel(wanted@[j]@).1,
    ));
    Some(DecodedChunk { times, columns })
}

/// What channel `j` of those asked for has in the chunks that could be read.
pub open spec fn read_parts(chunks: Seq<Option<DecodedChunk>>, j: int) -> Seq<Part>
    decreases chunks.len(),
{
    if chunks.len() == 0 {
        Seq::empty()
    } else {
        let earlier = read_parts(chunks.drop_last(), j);
        match chunks.last() {
            Some(c) => earlier.push((c.times@, c.columns@[j]@)),
            None => earlier,
        }
    }
}

/// The raw points of several channels, from chunks that were read beforehand:
/// `chunks` are those of the range, in order, `None` where one could not be
/// read.
pub fn read_raw_points_multi_readonly(
    entries: &[ChunkEntry],
    channels: &[usize],
    x_min: Sample,
    x_max: Sample,
    max_points: usize,
    chunks: &[Option<DecodedChunk>],
) -> (results: Vec<Vec<Point>>)
    requires
        max_points > 0 || chunks@.len() == 0,
        forall|i: int|
            0 <= i < chunks@.len() ==> ((#[trigger] chunks@[i]) matches Some(c) ==> c.columns@.len()
                == channels@.len()),
    ensures
        results@.len() == channels@.len(),
        forall|j: int|
            0 <= j < results@.len() ==> (#[trigger] results@[j])@ == if overlapping(
                entry_views(entries@),
                x_min,
                x_max,
            ) {
                answer(
                    read_parts(chunks@, j),
                    x_min,
                    x_max,
                    query_stride(entry_views(entries@), x_min, x_max, max_points as nat) as nat,
                    max_points as nat,
                )
            } else {
                Seq::empty()
            },
        forall|j: int| 0 <= j < results@.len() ==> (#[trigger] results@[j])@.len() <= max_points,
{
    let n: usize = channels.len();
    let (start, end) = chunk_range(entries, x_min, x_max);
    if le(x_max, x_min) || start >= end {
        let results: Vec<Vec<Point>> = Envelope::new(n, x_min, x_max, 1).finish(max_points);
        return results;
    }
    let rows: u128 = count_rows(entries, start, end);
    let mut picks: Vec<usize> = Vec::new();
    let mut j: usize = 0;
    while j < n
        invariant
            j <= n,
            picks@ == Seq::new(j as nat, |k: int| k as usize),
        decreases n - j,
    {
        picks.push(j);
        j += 1;
        assert(picks@ =~= Seq::new(j as nat, |k: int| k as usize));
    }
    let mut e: Envelope = Envelope::new(n, x_min, x_max, choose_stride(rows, max_points));
    let mut i: usize = 0;
    while i < chunks.len()
        invariant
            i <= chunks@.len(),
            e.wf(),
            e.x_min() == x_min,
            e.x_max() == x_max,
            e.stride() == query_stride(entry_views(entries@), x_min, x_max, max_points as nat),
            n == channels@.len(),
            picks@ == Seq::new(n as nat, |k: int| k as usize),
            e.seen().len() == n,
            forall|j: int|
                0 <= j < n ==> #[trigger] e.seen()[j] == collected(
                    read_parts(chunks@.take(i as int), j),
                    x_min,
                    x_max,
                ),
            forall|i: int|
                0 <= i < chunks@.len() ==> ((#[trigger] chunks@[i]) matches Some(
                    c,
                ) ==> c.columns@.len() == channels@.len()),
        decreases chunks@.len() - i,
    {
        let ghost earlier = chunks@.take(i as int);
        let ghost before = e.seen();
        assert(chunks@.take(i + 1).drop_last() =~= earlier);
        assert(chunks@.take(i + 1).last() == chunks@[i as int]);
        match &chunks[i] {
            Some(chunk) => {
                e.scan(&chunk.times, &chunk.columns, &picks);
                assert forall|j: int| 0 <= j < n implies #[trigger] e.seen()[j] == collected(
                    read_parts(chunks@.take(i + 1), j),
                    x_min,
                    x_max,
                ) by {
                    assert(before[j] == collected(read_parts(earlier, j), x_min, x_max));
                    let parts = read_parts(chunks@.take(i + 1), j);
                    assert(parts.drop_last() =~= read_parts(earlier, j));
                }
            },
            None => {},
        }
        i += 1;
    }
    assert(chunks@.take(i as int) =~= chunks@);
    e.finish(max_points)
}

// ---------------------------------------------------------------------------
// What the queries give
// ---------------------------------------------------------------------------

/// A query that has visited its chunks gives, for each channel asked for, the
/// points of the waveform on disk, whatever chunks were in memory when it
/// began.
pub proof fn law_query_gives_stored_points(
    q: RawQuery,
    entries: Seq<EntryView>,
    disk: Disk,
    j: int,
)
    requires
        q.tracks(entries, disk),
        q.next() >= q.end(),
        0 <= j < q.channels().len(),
    ensures
        answer(
            channel_parts(q.visited(), q.channels()[j]),
            q.range().0,
            q.range().1,
            q.stride(),
            q.max_points(),
        ) == stored_points(
            entries,
            disk,
            q.channels()[j],
            q.range().0,
            q.range().1,
            q.max_points(),
        ),
{
    if !overlapping(entries, q.range().0, q.range().1) {
        assert(channel_parts(q.visited(), q.channels()[j]) =~= Seq::empty());
    }
}

/// The points of a channel do not depend on the other channels asked for: a
/// query for several channels gives for each what a query for it alone gives,
/// even if other chunks were in memory when the one or the other began.
pub proof fn law_multi_matches_single(
    several: RawQuery,
    single: RawQuery,
    entries: Seq<EntryView>,
    disk: Disk,
    j: int,
)
    requires
        several.tracks(entries, disk),
        several.next() >= several.end(),
        single.tracks(entries, disk),
        single.next() >= single.end(),
        0 <= j < several.channels().len(),
        single.channels() == seq![several.channels()[j]],
        several.range() == single.range(),
        several.max_points() == single.max_points(),
    ensures
        answer(
            channel_parts(several.visited(), several.channels()[j]),
            several.range().0,
            several.range().1,
            several.stride(),
            several.max_points(),
        ) == answer(
            channel_parts(single.visited(), single.channels()[0]),
            single.range().0,
            single.range().1,
            single.stride(),
            single.max_points(),
        ),
{
    law_query_gives_stored_points(several, entries, disk, j);
    law_query_gives_stored_points(single, entries, disk, 0);
}

/// A chunk was read from its files on disk as `decode_chunk` reads it: where the
/// files can be read, all of them can be decoded.
pub open spec fn chunk_read(
    chunk: Option<DecodedChunk>,
    files: Option<Seq<Seq<u8>>>,
    channels: Seq<usize>,
) -> bool {
    match files {
        Some(f) => {
            &&& all_decodable(f)
            &&& match chunk {
                Some(c) => {
                    &&& c.times@ == decoded_channel(f[0]).0
                    &&& column_views(c.columns@) == Seq::new(
                        channels.len(),
                        |j: int| decoded_channel(f[channels[j] as int]).1,
                    )
                },
                None => decoded_channel(f[0]).0.len() == 0,
            }
        },
        None => chunk is None,
    }
}

/// A query over a store and one without a store give the same points: those of
/// the waveform on disk.
///
/// `chunks` are the chunks of the range as they were read.  The chunks that
/// this way leaves out, those without instants, add nothing to the points.
pub proof fn law_readonly_agrees(
    entries: Seq<EntryView>,
    disk: Disk,
    chunks: Seq<Option<DecodedChunk>>,
    channels: Seq<usize>,
    j: int,
    x_min: Sample,
    x_max: Sample,
    max_points: nat,
)
    requires
        overlapping(entries, x_min, x_max),
        ({
            let (start, end) = range_of(entries, x_min, x_max);
            &&& chunks.len() == end - start
            &&& forall|k: int|
                start <= k < end ==> chunk_read(chunks[k - start], #[trigger] disk[k], channels)
            &&& forall|k: int|
                start <= k < end ==> ((#[trigger] disk[k]) matches Some(f) ==> channels[j]
                    < f.len())
        }),
        0 <= j < channels.len(),
    ensures
        answer(
            read_parts(chunks, j),
            x_min,
            x_max,
            query_stride(entries, x_min, x_max, max_points) as nat,
            max_points,
        ) == stored_points(entries, disk, channels[j] as int, x_min, x_max, max_points),
{
    let (start, end) = range_of(entries, x_min, x_max);
    lemma_readonly_collects(disk, chunks, channels, j, start, end, x_min, x_max);
}

proof fn lemma_readonly_collects(
    disk: Disk,
    chunks: Seq<Option<DecodedChunk>>,
    channels: Seq<usize>,
    j: int,
    start: int,
    end: int,
    x_min: Sample,
    x_max: Sample,
)
    requires
        start <= end,
        chunks.len() == end - start,
        0 <= j < channels.len(),
        forall|k: int|
            start <= k < end ==> chunk_read(chunks[k - start], #[trigger] disk[k], channels),
        forall|k: int|
            start <= k < end ==> ((#[trigger] disk[k]) matches Some(f) ==> channels[j] < f.len()),
    ensures
        collected(
            channel_parts(stored_chunks(disk, start, end), channels[j] as int),
            x_min,
            x_max,
        ) == collected(read_parts(chunks, j), x_min, x_max),
    decreases end - start,
{
    let ch = channels[j] as int;
    let all = stored_chunks(disk, start, end);
    if start < end {
        let n = chunks.len() - 1;
        let read = chunks.drop_last();
        let earlier = stored_chunks(disk, start, end - 1);
        assert forall|k: int| start <= k < end - 1 implies chunk_read(
            read[k - start],
            #[trigger] disk[k],
            channels,
        ) by {
            assert(read[k - start] == chunks[k - start]);
        }
        lemma_readonly_collects(disk, read, channels, j, start, end - 1, x_min, x_max);
        assert(chunk_read(chunks[n], disk[end - 1], channels));
        match disk[end - 1] {
            Some(f) => {
                assert(ch < f.len());
                assert(loadable(disk[end - 1]));
                assert(all == earlier.push(chunk_columns(f)));
                assert(channel_parts(all, ch).drop_last() =~= channel_parts(earlier, ch));
                let p = channel_parts(all, ch).last();
                assert(p == column_part(chunk_columns(f), ch));
                match chunks[n] {
                    Some(c) => {
                        assert(column_views(c.columns@).len() == channels.len());
                        assert(column_views(c.columns@)[j] == c.columns@[j]@);
                        assert(read_parts(chunks, j).drop_last() =~= read_parts(read, j));
                    },
                    None => {
                        assert(visible(p.0, p.1, x_min, x_max) =~= Seq::empty());
                        assert(collected(channel_parts(all, ch), x_min, x_max) =~= collected(
                            channel_parts(earlier, ch),
                            x_min,
                            x_max,
                        ));
                    },
                }
            },
            None => {},
        }
    } else {
        assert(channel_parts(all, ch) =~= Seq::empty());
        assert(read_parts(chunks, j) =~= Seq::empty());
    }
}

/// What was written is shown: where the chunks that overlap the range have fewer
/// rows than points wanted, counted in pairs, the points of a channel are its samples in
/// view, one for each, in order.
///
/// `columns` are the columns of every chunk; the files on disk hold them, as the
/// files that `ChunkWriter::take_chunk` makes do, and the index counts their
/// rows.
pub proof fn law_written_samples_shown(
    entries: Seq<EntryView>,
    disk: Disk,
    columns: Seq<Seq<Seq<Sample>>>,
    ch: int,
    x_min: Sample,
    x_max: Sample,
    max_points: nat,
)
    requires
        overlapping(entries, x_min, x_max),
        disk.len() == entries.len(),
        columns.len() == entries.len(),
        ({
            let (start, end) = range_of(entries, x_min, x_max);
            let rows = rows_between(entries, start, end);
            &&& rows <= 1 || rows < 2 * (max_points as int / 2)
            &&& forall|k: int|
                start <= k < end ==> {
                    &&& loadable(#[trigger] disk[k])
                    &&& chunk_columns(disk[k].unwrap()) == columns[k]
                    &&& columns[k][0].len() == entries[k].row_count
                }
        }),
        max_points > 0,
    ensures
        ({
            let (start, end) = range_of(entries, x_min, x_max);
            stored_points(entries, disk, ch, x_min, x_max, max_points) == collected(
                channel_parts(columns.subrange(start, end), ch),
                x_min,
                x_max,
            )
        }),
{
    let (start, end) = range_of(entries, x_min, x_max);
    let n = entries.len() as int;
    lemma_cut(ended(entries, x_min), 0, n);
    lemma_cut(begun(entries, x_max), 0, n);
    assert forall|k: int| start <= k < end implies (#[trigger] columns[k])[0].len()
        == entries[k].row_count by {
        assert(loadable(disk[k]));
    }
    lemma_stored_columns(disk, columns, start, end);
    lemma_collected_len(entries, columns, ch, start, end, x_min, x_max);
    let samples = collected(channel_parts(columns.subrange(start, end), ch), x_min, x_max);
    lemma_rows_not_negative(entries, start, end);
    law_stride(rows_between(entries, start, end), max_points);
    law_envelope_of_singles(samples);
    lemma_bars(samples, 1);
    law_fitted_bounded(bars(samples, 1), max_points);
}

proof fn lemma_rows_not_negative(entries: Seq<EntryView>, start: int, end: int)
    ensures
        rows_between(entries, start, end) >= 0,
    decreases end - start,
{
    if start < end {
        lemma_rows_not_negative(entries, start, end - 1);
    }
}

/// The points of a channel keep its peaks: every sample in view lies between two
/// values that are shown, if two points or more are wanted and no more samples
/// are in view than the rows that the stride was chosen for.
pub proof fn law_answer_keeps_peaks(
    parts: Seq<Part>,
    x_min: Sample,
    x_max: Sample,
    rows: int,
    max_points: nat,
    i: int,
)
    requires
        max_points >= 2,
        collected(parts, x_min, x_max).len() <= rows,
        forall|k: int|
            0 <= k < collected(parts, x_min, x_max).len() ==> !nan(
                (#[trigger] collected(parts, x_min, x_max)[k]).v,
            ),
        0 <= i < collected(parts, x_min, x_max).len(),
    ensures
        ({
            let stride = stride_for(rows, max_points) as nat;
            bracketed(
                answer(parts, x_min, x_max, stride, max_points),
                collected(parts, x_min, x_max)[i].v,
            )
        }),
{
    let points = collected(parts, x_min, x_max);
    law_fitted_keeps_peaks(points, rows, max_points, i);
}

/// The points of a channel on disk keep its peaks, if the index counts at least
/// the rows that the chunks have.
pub proof fn law_stored_points_keep_peaks(
    entries: Seq<EntryView>,
    disk: Disk,
    ch: int,
    x_min: Sample,
    x_max: Sample,
    max_points: nat,
    i: int,
)
    requires
        overlapping(entries, x_min, x_max),
        max_points >= 2,
        ({
            let (start, end) = range_of(entries, x_min, x_max);
            let samples = collected(
                channel_parts(stored_chunks(disk, start, end), ch),
                x_min,
                x_max,
            );
            &&& forall|k: int|
                start <= k < end && loadable(#[trigger] disk[k]) ==> chunk_columns(
                    disk[k].unwrap(),
                )[0].len() <= entries[k].row_count
            &&& forall|k: int| 0 <= k < samples.len() ==> !nan((#[trigger] samples[k]).v)
            &&& 0 <= i < samples.len()
        }),
    ensures
        ({
            let (start, end) = range_of(entries, x_min, x_max);
            bracketed(
                stored_points(entries, disk, ch, x_min, x_max, max_points),
                collected(channel_parts(stored_chunks(disk, start, end), ch), x_min, x_max)[i].v,
            )
        }),
{
    let (start, end) = range_of(entries, x_min, x_max);
    lemma_stored_len(entries, disk, ch, start, end, x_min, x_max);
    law_answer_keeps_peaks(
        channel_parts(stored_chunks(disk, start, end), ch),
        x_min,
        x_max,
        rows_between(entries, start, end),
        max_points,
        i,
    );
}

proof fn lemma_stored_len(
    entries: Seq<EntryView>,
    disk: Disk,
    ch: int,
    start: int,
    end: int,
    x_min: Sample,
    x_max: Sample,
)
    requires
        forall|k: int|
            start <= k < end && loadable(#[trigger] disk[k]) ==> chunk_columns(
                disk[k].unwrap(),
            )[0].len() <= entries[k].row_count,
    ensures
        collected(channel_parts(stored_chunks(disk, start, end), ch), x_min, x_max).len()
            <= rows_between(entries, start, end),
    decreases end - start,
{
    let chunks = stored_chunks(disk, start, end);
    let parts = channel_parts(chunks, ch);
    if start < end {
        lemma_stored_len(entries, disk, ch, start, end - 1, x_min, x_max);
        if loadable(disk[end - 1]) {
            let earlier = stored_chunks(disk, start, end - 1);
            assert(parts.drop_last() =~= channel_parts(earlier, ch));
            assert(parts.last() == column_part(chunk_columns(disk[end - 1].unwrap()), ch));
            lemma_visible_len(parts.last().0, parts.last().1, x_min, x_max);
        }
    }
}

/// Chunks that can all be read are stored as they are.
pub proof fn lemma_stored_columns(
    disk: Disk,
    columns: Seq<Seq<Seq<Sample>>>,
    start: int,
    end: int,
)
    requires
        0 <= start <= end <= columns.len(),
        forall|k: int|
            start <= k < end ==> {
                &&& loadable(#[trigger] disk[k])
                &&& chunk_columns(disk[k].unwrap()) == columns[k]
            },
    ensures
        stored_chunks(disk, start, end) == columns.subrange(start, end),
    decreases end - start,
{
    if start < end {
        lemma_stored_columns(disk, columns, start, end - 1);
        assert(loadable(disk[end - 1]));
    }
    assert(stored_chunks(disk, start, end) =~= columns.subrange(start, end));
}

proof fn lemma_visible_len(
    times: Seq<Sample>,
    values: Seq<Sample>,
    x_min: Sample,
    x_max: Sample,
)
    ensures
        visible(times, values, x_min, x_max).len() <= times.len(),
    decreases times.len(),
{
    if times.len() > 0 {
        lemma_visible_len(times.drop_last(), values, x_min, x_max);
    }
}

proof fn lemma_collected_len(
    entries: Seq<EntryView>,
    columns: Seq<Seq<Seq<Sample>>>,
    ch: int,
    start: int,
    end: int,
    x_min: Sample,
    x_max: Sample,
)
    requires
        0 <= start <= end <= columns.len(),
        forall|k: int| start <= k < end ==> (#[trigger] columns[k])[0].len() == entries[k].row_count,
    ensures
        collected(channel_parts(columns.subrange(start, end), ch), x_min, x_max).len()
            <= rows_between(entries, start, end),
    decreases end - start,
{
    let parts = channel_parts(columns.subrange(start, end), ch);
    if start < end {
        lemma_collected_len(entries, columns, ch, start, end - 1, x_min, x_max);
        assert(parts.drop_last() =~= channel_parts(columns.subrange(start, end - 1), ch));
        assert(parts.last() == column_part(columns[end - 1], ch));
        lemma_visible_len(parts.last().0, parts.last().1, x_min, x_max);
    }
}

/// The samples of a channel are those of its chunks, one after the other.
pub proof fn law_collected(parts: Seq<Part>, part: Part, x_min: Sample, x_max: Sample)
    ensures
        collected(Seq::empty(), x_min, x_max).len() == 0,
        collected(parts.push(part), x_min, x_max) == collected(parts, x_min, x_max) + visible(
            part.0,
            part.1,
            x_min,
            x_max,
        ),
{
    assert(parts.push(part).drop_last() =~= parts);
}

/// A chunk that was read adds the instants and the samples of the channel; one
/// that was not adds nothing.
pub proof fn law_read_parts(chunks: Seq<Option<DecodedChunk>>, chunk: Option<DecodedChunk>, j: int)
    ensures
        read_parts(Seq::empty(), j).len() == 0,
        read_parts(chunks.push(chunk), j) == match chunk {
            Some(c) => read_parts(chunks, j).push((c.times@, c.columns@[j]@)),
            None => read_parts(chunks, j),
        },
{
    assert(chunks.push(chunk).drop_last() =~= chunks);
}

/// How many samples a query takes for a bin: one where its chunks have fewer rows
/// than points wanted, counted in pairs, and else no more than the rows for each
/// pair of points wanted.
pub proof fn law_query_stride(
    entries: Seq<EntryView>,
    x_min: Sample,
    x_max: Sample,
    max_points: nat,
)
    requires
        max_points >= 2,
    ensures
        ({
            let (start, end) = range_of(entries, x_min, x_max);
            let (rows, pairs) = (rows_between(entries, start, end), max_points as int / 2);
            let stride = query_stride(entries, x_min, x_max, max_points);
            &&& rows < 2 * pairs ==> stride == 1
            &&& rows >= 2 * pairs ==> stride * pairs <= rows < (stride + 1) * pairs
        }),
{
    let (start, end) = range_of(entries, x_min, x_max);
    lemma_rows_not_negative(entries, start, end);
    law_stride(rows_between(entries, start, end), max_points);
}

/// The points given for a channel show its peaks where they are: for every sample
/// in view two points are given, one not above it and one not below it, at the
/// instant of a sample less than two strides before it or at its own.
pub proof fn law_answer_shows_peaks_nearby(
    parts: Seq<Part>,
    x_min: Sample,
    x_max: Sample,
    rows: int,
    max_points: nat,
    i: int,
)
    requires
        max_points >= 2,
        collected(parts, x_min, x_max).len() <= rows,
        forall|k: int|
            0 <= k < collected(parts, x_min, x_max).len() ==> !nan(
                (#[trigger] collected(parts, x_min, x_max)[k]).v,
            ),
        0 <= i < collected(parts, x_min, x_max).len(),
    ensures
        ({
            let samples = collected(parts, x_min, x_max);
            let stride = stride_for(rows, max_points);
            let shown = answer(parts, x_min, x_max, stride as nat, max_points);
            &&& shown.len() <= max_points
            &&& exists|j: int, a: int, b: int|
                #![trigger samples[j], shown[a], shown[b]]
                0 <= j <= i && i < j + 2 * stride && 0 <= a < shown.len() && 0 <= b < shown.len()
                    && shown[a].t == samples[j].t && shown[b].t == samples[j].t && at_most(
                    shown[a].v,
                    samples[i].v,
                ) && at_most(samples[i].v, shown[b].v)
        }),
{
    let samples = collected(parts, x_min, x_max);
    law_fitted_shows_peaks_nearby(samples, rows, max_points, i);
    law_fitted_bounded(bars(samples, stride_for(rows, max_points) as nat), max_points);
    let stride = stride_for(rows, max_points);
    let shown = answer(parts, x_min, x_max, stride as nat, max_points);
    let (j, a, b) = choose|j: int, a: int, b: int|
        #![trigger samples[j], shown[a], shown[b]]
        0 <= j <= i && i < j + 2 * stride && 0 <= a < shown.len() && 0 <= b < shown.len()
            && shown[a].t == samples[j].t && shown[b].t == samples[j].t && at_most(
            shown[a].v,
            samples[i].v,
        ) && at_most(samples[i].v, shown[b].v);
    assert(shown[a].t == samples[j].t && shown[b].t == samples[j].t);
}

/// Whether a range calls for any chunk, chunks being in time order: the range is
/// not empty, and some chunk neither ends before it nor begins after it.
pub proof fn law_overlapping(entries: Seq<EntryView>, x_min: Sample, x_max: Sample)
    requires
        forall|i: int, j: int|
            0 <= i <= j < entries.len() ==> at_most(
                (#[trigger] entries[i]).t_min,
                (#[trigger] entries[j]).t_min,
            ) && at_most(entries[i].t_max, entries[j].t_max),
    ensures
        overlapping(entries, x_min, x_max) <==> !at_most(x_max, x_min) && exists|i: int|
            0 <= i < entries.len() && !below((#[trigger] entries[i]).t_max, x_min) && at_most(
                entries[i].t_min,
                x_max,
            ),
{
    let (start, end) = range_of(entries, x_min, x_max);
    lemma_cut(ended(entries, x_min), 0, entries.len() as int);
    lemma_cut(begun(entries, x_max), 0, entries.len() as int);
    if start < end {
        law_chunks_found(entries, x_min, x_max, start);
        assert(!below(entries[start].t_max, x_min));
    }
    if exists|i: int|
        0 <= i < entries.len() && !below((#[trigger] entries[i]).t_max, x_min) && at_most(
            entries[i].t_min,
            x_max,
        ) {
        let i = choose|i: int|
            0 <= i < entries.len() && !below((#[trigger] entries[i]).t_max, x_min) && at_most(
                entries[i].t_min,
                x_max,
            );
        law_chunks_found(entries, x_min, x_max, i);
    }
}

/// What a channel has in each chunk: the instants, which stand first, and the
/// samples of the channel.
pub proof fn law_channel_parts(chunks: Seq<Seq<Seq<Sample>>>, ch: int, i: int)
    requires
        0 <= i < chunks.len(),
    ensures
        channel_parts(chunks, ch).len() == chunks.len(),
        channel_parts(chunks, ch)[i].0 == chunks[i][0],
        channel_parts(chunks, ch)[i].1 == chunks[i][ch + 1],
{
}

} // verus!
