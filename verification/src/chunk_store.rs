//! The chunk store: the index of a waveform, the chunks held in memory, and
//! the queries over them.
//!
//! Chunks are read from disk on demand.  The store decides which chunk a query
//! needs next; its owner reads that chunk's files, and the store decodes them,
//! keeps the chunk among the recently used ones and hands its rows to the
//! query.

use crate::chunk_cache::{
    column_views, law_without, without, CachedChunk, ChunkCache, ChunkView, MAX_CACHED,
};
use crate::chunk_index::{channels_in, entry_views, ChunkEntry, EntryView};
use crate::sample::{at_most, below, le, lt, Sample};
use crate::tsz_codec::{decodable, decoded_channel, try_decode_channel};
use vstd::prelude::*;

verus! {

// ---------------------------------------------------------------------------
// Which chunks overlap a range of instants
// ---------------------------------------------------------------------------

/// Whether a chunk ends before an instant.
pub open spec fn ends_before(e: EntryView, t: Sample) -> bool {
    below(e.t_max, t)
}

/// Whether a chunk begins at an instant or before it.
pub open spec fn begins_by(e: EntryView, t: Sample) -> bool {
    at_most(e.t_min, t)
}

/// The first flag between `lo` and `hi` that is not set, by halving.
pub open spec fn cut(flags: Seq<bool>, lo: int, hi: int) -> int
    decreases hi - lo,
{
    if lo >= hi {
        lo
    } else {
        let mid = lo + (hi - lo) / 2;
        if flags[mid] {
            cut(flags, mid + 1, hi)
        } else {
            cut(flags, lo, mid)
        }
    }
}

/// Which chunks end before an instant.
pub open spec fn ended(entries: Seq<EntryView>, t: Sample) -> Seq<bool> {
    Seq::new(entries.len(), |i: int| ends_before(entries[i], t))
}

/// Which chunks begin at an instant or before it.
pub open spec fn begun(entries: Seq<EntryView>, t: Sample) -> Seq<bool> {
    Seq::new(entries.len(), |i: int| begins_by(entries[i], t))
}

/// The first chunk that overlaps a range of instants, and the chunk after the
/// last one.
pub open spec fn range_of(entries: Seq<EntryView>, t_min: Sample, t_max: Sample) -> (int, int) {
    let n = entries.len() as int;
    (cut(ended(entries, t_min), 0, n), cut(begun(entries, t_max), 0, n))
}

/// Halving stays inside the range; where the flags set come before those not
/// set, it finds the first one not set.
pub proof fn lemma_cut(flags: Seq<bool>, lo: int, hi: int)
    requires
        0 <= lo <= hi <= flags.len(),
    ensures
        lo <= cut(flags, lo, hi) <= hi,
        (forall|i: int, j: int| 0 <= i <= j < flags.len() && flags[j] ==> flags[i]) ==> {
            let c = cut(flags, lo, hi);
            &&& forall|i: int| lo <= i < c ==> flags[i]
            &&& forall|i: int| c <= i < hi ==> !flags[i]
        },
    decreases hi - lo,
{
    if lo < hi {
        let mid = lo + (hi - lo) / 2;
        if flags[mid] {
            lemma_cut(flags, mid + 1, hi);
        } else {
            lemma_cut(flags, lo, mid);
        }
    }
}

/// Chunks in time order, one beginning after the other and one ending after
/// the other: the chunks of the range are those that overlap it, that is all
/// that do not end before it and begin by its end.
pub proof fn law_range_overlaps(entries: Seq<EntryView>, t_min: Sample, t_max: Sample, i: int)
    requires
        forall|i: int, j: int|
            0 <= i <= j < entries.len() ==> at_most(
                (#[trigger] entries[i]).t_min,
                (#[trigger] entries[j]).t_min,
            ) && at_most(entries[i].t_max, entries[j].t_max),
        0 <= i < entries.len(),
    ensures
        ({
            let (start, end) = range_of(entries, t_min, t_max);
            start <= i < end <==> !ends_before(entries[i], t_min) && begins_by(entries[i], t_max)
        }),
{
    let n = entries.len() as int;
    let (e, b) = (ended(entries, t_min), begun(entries, t_max));
    assert forall|i: int, j: int| 0 <= i <= j < n && e[j] implies e[i] by {
        assert(ends_before(entries[j], t_min));
    }
    assert forall|i: int, j: int| 0 <= i <= j < n && b[j] implies b[i] by {
        assert(begins_by(entries[j], t_max));
    }
    lemma_cut(e, 0, n);
    lemma_cut(b, 0, n);
    assert(e[i] == ends_before(entries[i], t_min));
    assert(b[i] == begins_by(entries[i], t_max));
}

/// The chunks that overlap a range of instants: the first one, and the one
/// after the last one.
pub fn chunk_range(entries: &[ChunkEntry], t_min: Sample, t_max: Sample) -> (r: (usize, usize))
    ensures
        range_of(entry_views(entries@), t_min, t_max) == (r.0 as int, r.1 as int),
        r.0 <= entries@.len(),
        r.1 <= entries@.len(),
{
    let n: usize = entries.len();
    let ghost views = entry_views(entries@);
    let mut lo: usize = 0;
    let mut hi: usize = n;
    while lo < hi
        invariant
            lo <= hi <= n,
            n == entries@.len(),
            views == entry_views(entries@),
            cut(ended(views, t_min), lo as int, hi as int) == cut(ended(views, t_min), 0, n as int),
        decreases hi - lo,
    {
        let mid: usize = lo + (hi - lo) / 2;
        assert(views[mid as int] == entries@[mid as int]@);
        if lt(entries[mid].t_max, t_min) {
            lo = mid + 1;
        } else {
            hi = mid;
        }
    }
    let start: usize = lo;
    lo = 0;
    hi = n;
    while lo < hi
        invariant
            lo <= hi <= n,
            n == entries@.len(),
            views == entry_views(entries@),
            cut(begun(views, t_max), lo as int, hi as int) == cut(begun(views, t_max), 0, n as int),
        decreases hi - lo,
    {
        let mid: usize = lo + (hi - lo) / 2;
        assert(views[mid as int] == entries@[mid as int]@);
        if le(entries[mid].t_min, t_max) {
            lo = mid + 1;
        } else {
            hi = mid;
        }
    }
    (start, lo)
}

// ---------------------------------------------------------------------------
// Rows
// ---------------------------------------------------------------------------

/// The rows of the chunks from `start` up to `end`.
pub open spec fn rows_between(entries: Seq<EntryView>, start: int, end: int) -> int
    decreases end - start,
{
    if start >= end {
        0
    } else {
        rows_between(entries, start, end - 1) + entries[end - 1].row_count
    }
}

/// Counts the rows of the chunks from `start` up to `end`.
pub fn count_rows(entries: &[ChunkEntry], start: usize, end: usize) -> (rows: u128)
    requires
        start <= end <= entries@.len(),
    ensures
        rows == rows_between(entry_views(entries@), start as int, end as int),
{
    assert(entries@.len() == entries.len());
    let ghost views = entry_views(entries@);
    let mut rows: u128 = 0;
    let mut i: usize = start;
    while i < end
        invariant
            start <= i <= end <= entries@.len(),
            entries@.len() <= usize::MAX,
            usize::MAX <= u64::MAX,
            views == entry_views(entries@),
            rows == rows_between(views, start as int, i as int),
            rows <= (i - start) * 0x1_0000_0000_0000_0000,
        decreases end - i,
    {
        assert(views[i as int] == entries@[i as int]@);
        rows += entries[i].row_count as u128;
        i += 1;
    }
    rows
}

// ---------------------------------------------------------------------------
// The files of a chunk
// ---------------------------------------------------------------------------

/// The contents of a sequence of files.
pub open spec fn file_views(files: Seq<Vec<u8>>) -> Seq<Seq<u8>> {
    Seq::new(files.len(), |i: int| files[i]@)
}

/// The contents of the files of a chunk, if they could be read.
pub open spec fn found(files: Option<Vec<Vec<u8>>>) -> Option<Seq<Seq<u8>>> {
    match files {
        Some(f) => Some(file_views(f@)),
        None => None,
    }
}

/// Each of the files can be decoded.
pub open spec fn all_decodable(files: Seq<Seq<u8>>) -> bool {
    forall|i: int| 0 <= i < files.len() ==> decodable(#[trigger] files[i])
}

/// A chunk's files were read, and each of them can be decoded.
pub open spec fn loadable(files: Option<Seq<Seq<u8>>>) -> bool {
    files is Some && all_decodable(files.unwrap())
}

/// The columns that the files of a chunk hold.  The instants are those of the
/// first channel.
pub open spec fn chunk_columns(files: Seq<Seq<u8>>) -> Seq<Seq<Sample>> {
    Seq::new(
        files.len() + 1,
        |c: int|
            if c > 0 {
                decoded_channel(files[c - 1]).1
            } else if files.len() > 0 {
                decoded_channel(files[0]).0
            } else {
                Seq::empty()
            },
    )
}

/// The chunk that some files hold.
pub open spec fn chunk_in(files: Seq<Seq<u8>>, entry: EntryView) -> ChunkView {
    ChunkView { columns: chunk_columns(files), t_min: entry.t_min, t_max: entry.t_max }
}

/// The files of all chunks, in order; `None` for a chunk whose files cannot be
/// read.
pub type Disk = Seq<Option<Seq<Seq<u8>>>>;

/// The columns of the chunks from `start` up to `end` that can be had, in order.
pub open spec fn stored_chunks(disk: Disk, start: int, end: int) -> Seq<Seq<Seq<Sample>>>
    decreases end - start,
{
    if start >= end {
        Seq::empty()
    } else {
        let earlier = stored_chunks(disk, start, end - 1);
        if loadable(disk[end - 1]) {
            earlier.push(chunk_columns(disk[end - 1].unwrap()))
        } else {
            earlier
        }
    }
}

/// Decodes the files of a chunk into its columns.
fn decode_columns(files: &Vec<Vec<u8>>) -> (r: Option<Vec<Vec<Sample>>>)
    ensures
        r is Some == all_decodable(file_views(files@)),
        r matches Some(columns) ==> column_views(columns@) == chunk_columns(file_views(files@)),
{
    let ghost views = file_views(files@);
    let mut columns: Vec<Vec<Sample>> = Vec::new();
    columns.push(Vec::new());
    let mut ch: usize = 0;
    while ch < files.len()
        invariant
            ch <= files@.len(),
            views == file_views(files@),
            columns@.len() == ch + 1,
            forall|i: int| 0 <= i < ch ==> decodable(#[trigger] views[i]),
            forall|c: int|
                0 < c < columns@.len() ==> (#[trigger] columns@[c])@ == decoded_channel(
                    views[c - 1],
                ).1,
            columns@[0]@ == (if ch > 0 {
                decoded_channel(views[0]).0
            } else {
                Seq::<Sample>::empty()
            }),
        decreases files@.len() - ch,
    {
        assert(views[ch as int] == files@[ch as int]@);
        let (ts, vs) = match try_decode_channel(files[ch].as_slice()) {
            Some(channel) => channel,
            None => {
                assert(!decodable(views[ch as int]));
                return None;
            },
        };
        if ch == 0 {
            columns.set(0, ts);
        }
        columns.push(vs);
        ch += 1;
    }
    assert(column_views(columns@) =~= chunk_columns(views));
    Some(columns)
}

// ---------------------------------------------------------------------------
// The store
// ---------------------------------------------------------------------------

/// The index of a waveform and the chunks of it that are held in memory.
pub struct ChunkStore {
    pub chunks_dir: String,
    pub entries: Vec<ChunkEntry>,
    pub columns: Vec<String>,
    pub total_rows: usize,
    pub x_min: Sample,
    pub x_max: Sample,
    pub cache: ChunkCache,
}

/// The order of use once there is room for one chunk more.
pub open spec fn room_order(cache: ChunkCache) -> Seq<u32> {
    if cache.recent().len() >= cache.capacity() {
        cache.recent().skip(1)
    } else {
        cache.recent()
    }
}

/// The chunks held once there is room for one chunk more.
pub open spec fn room_held(cache: ChunkCache) -> Map<u32, ChunkView> {
    if cache.recent().len() >= cache.capacity() {
        cache.held().remove(cache.recent()[0])
    } else {
        cache.held()
    }
}

impl ChunkStore {
    /// What the index says.
    pub open spec fn index(&self) -> Seq<EntryView> {
        entry_views(self.entries@)
    }

    /// How many data channels there are.
    pub open spec fn channels(&self) -> nat {
        channels_in(self.columns@.len())
    }

    /// What holds between the operations: chunks can be numbered, and every
    /// chunk held has all columns.
    pub open spec fn wf(&self) -> bool {
        &&& self.entries@.len() <= u32::MAX
        &&& self.cache.wf()
        &&& forall|k: u32| #[trigger]
            self.cache.held().contains_key(k) ==> self.cache.held()[k].columns.len()
                == self.channels() + 1
    }

    /// The chunks held are those on disk.
    pub open spec fn coherent(&self, disk: Disk) -> bool {
        forall|k: u32| #[trigger]
            self.cache.held().contains_key(k) ==> {
                &&& k < disk.len()
                &&& loadable(disk[k as int])
                &&& self.cache.held()[k].columns == chunk_columns(disk[k as int].unwrap())
            }
    }

    /// A chunk's files, if the store does not hold the chunk, are those on disk.
    pub open spec fn supplied(&self, k: int, files: Option<Vec<Vec<u8>>>, disk: Disk) -> bool {
        k < disk.len() && (self.cache.held().contains_key(k as u32) || found(files) == disk[k])
    }

    /// The parts of the store that no query changes.
    pub open spec fn same_index(&self, other: &ChunkStore) -> bool {
        &&& self.entries == other.entries
        &&& self.columns == other.columns
        &&& self.total_rows == other.total_rows
        &&& self.x_min == other.x_min
        &&& self.x_max == other.x_max
        &&& self.chunks_dir == other.chunks_dir
        &&& self.cache.capacity() == other.cache.capacity()
    }

    /// Makes a store that holds no chunk yet.
    pub fn new(
        chunks_dir: String,
        entries: Vec<ChunkEntry>,
        columns: Vec<String>,
        total_rows: usize,
        x_min: Sample,
        x_max: Sample,
    ) -> (store: ChunkStore)
        requires
            entries@.len() <= u32::MAX,
        ensures
            store.wf(),
            store.chunks_dir == chunks_dir,
            store.entries == entries,
            store.columns == columns,
            store.total_rows == total_rows,
            store.x_min == x_min,
            store.x_max == x_max,
            store.cache.capacity() == MAX_CACHED,
            store.cache.held() == Map::<u32, ChunkView>::empty(),
    {
        ChunkStore {
            chunks_dir,
            entries,
            columns,
            total_rows,
            x_min,
            x_max,
            cache: ChunkCache::new(),
        }
    }

    /// How many data channels there are; the column of instants is none.
    pub fn n_channels(&self) -> (n: usize)
        ensures
            n == self.channels(),
    {
        if self.columns.len() > 1 {
            self.columns.len() - 1
        } else {
            0
        }
    }

    /// The directory that holds the chunks.
    pub fn chunks_dir(&self) -> (dir: &str)
        ensures
            dir@ == self.chunks_dir@,
    {
        self.chunks_dir.as_str()
    }

    /// The entries of the index.
    pub fn entries(&self) -> (entries: &[ChunkEntry])
        ensures
            entries@ == self.entries@,
    {
        self.entries.as_slice()
    }

    /// What is held in memory, and in what order it was used, after a chunk was
    /// asked for: a chunk that was held is the one used last; one that was not
    /// held is too, if its files can be decoded, and the least recently used one
    /// made room for it where there was none.
    pub open spec fn used(&self, before: &ChunkStore, k: u32, files: Option<Vec<Vec<u8>>>) -> bool {
        let (was, now) = (before.cache, self.cache);
        if was.held().contains_key(k) {
            &&& now.held() == was.held()
            &&& now.recent() == without(was.recent(), k).push(k)
        } else if loadable(found(files)) {
            &&& now.held() == room_held(was).insert(
                k,
                chunk_in(found(files).unwrap(), before.index()[k as int]),
            )
            &&& now.recent() == room_order(was).push(k)
        } else {
            &&& now.held() == room_held(was)
            &&& now.recent() == room_order(was)
        }
    }

    /// Makes sure that a chunk is held in memory and marks it as the one used
    /// last.  A chunk that is not held is decoded from its files, if they
    /// could be read; where the cache is full the least recently used chunk
    /// makes room, even if the new one then cannot be decoded.
    pub fn ensure_loaded(&mut self, chunk_idx: u32, files: &Option<Vec<Vec<u8>>>) -> (loaded: bool)
        requires
            old(self).wf(),
            chunk_idx < old(self).index().len(),
            !old(self).cache.held().contains_key(chunk_idx) ==> (files matches Some(f) ==> f@.len()
                == old(self).channels()),
        ensures
            final(self).wf(),
            final(self).same_index(old(self)),
            loaded == (old(self).cache.held().contains_key(chunk_idx) || loadable(found(*files))),
            final(self).used(old(self), chunk_idx, *files),
            loaded ==> final(self).cache.held().contains_key(chunk_idx),
            forall|disk: Disk| #[trigger]
                old(self).coherent(disk) && old(self).supplied(chunk_idx as int, *files, disk)
                    ==> final(self).coherent(disk),
    {
        let ghost start = *self;
        if self.cache.contains(chunk_idx) {
            self.cache.touch(chunk_idx);
            assert forall|disk: Disk| #[trigger] start.coherent(disk) implies self.coherent(
                disk,
            ) by {}
            return true;
        }
        self.cache.make_room();
        let ghost roomy = *self;
        assert forall|x: u32| #[trigger]
            roomy.cache.held().contains_key(x) implies start.cache.held().contains_key(x)
            && roomy.cache.held()[x] == start.cache.held()[x] by {}
        assert forall|disk: Disk| #[trigger] start.coherent(disk) implies roomy.coherent(
            disk,
        ) by {}
        let columns: Vec<Vec<Sample>> = match files {
            Some(f) => match decode_columns(f) {
                Some(columns) => columns,
                None => {
                    return false;
                },
            },
            None => {
                return false;
            },
        };
        let chunk: CachedChunk = CachedChunk {
            columns,
            t_min: self.entries[chunk_idx as usize].t_min,
            t_max: self.entries[chunk_idx as usize].t_max,
        };
        self.cache.insert(chunk_idx, chunk);
        proof {
            assert(start.index()[chunk_idx as int] == start.entries@[chunk_idx as int]@);
            assert(chunk@ =~= chunk_in(found(*files).unwrap(), start.index()[chunk_idx as int]));
            assert forall|x: u32| #[trigger] self.cache.held().contains_key(x) implies self.cache.held()[x].columns.len()
                == self.channels() + 1 by {
                if x != chunk_idx {
                    assert(roomy.cache.held().contains_key(x));
                }
            }
            assert forall|disk: Disk| #[trigger]
                start.coherent(disk) && start.supplied(
                    chunk_idx as int,
                    *files,
                    disk,
                ) implies self.coherent(disk) by {
                assert(roomy.coherent(disk));
                assert forall|k: u32| #[trigger] self.cache.held().contains_key(k) implies {
                    &&& k < disk.len()
                    &&& loadable(disk[k as int])
                    &&& self.cache.held()[k].columns == chunk_columns(disk[k as int].unwrap())
                } by {
                    if k != chunk_idx {
                        assert(roomy.cache.held().contains_key(k));
                    }
                }
            }
        }
        true
    }
}

/// Which chunks a range of instants calls for, chunks being in time order: all
/// that neither end before the range nor begin after it.
pub proof fn law_chunks_found(entries: Seq<EntryView>, t_min: Sample, t_max: Sample, i: int)
    requires
        forall|i: int, j: int|
            0 <= i <= j < entries.len() ==> at_most(
                (#[trigger] entries[i]).t_min,
                (#[trigger] entries[j]).t_min,
            ) && at_most(entries[i].t_max, entries[j].t_max),
        0 <= i < entries.len(),
    ensures
        ({
            let (start, end) = range_of(entries, t_min, t_max);
            start <= i < end <==> !below(entries[i].t_max, t_min) && at_most(entries[i].t_min, t_max)
        }),
{
    law_range_overlaps(entries, t_min, t_max, i);
}

/// The rows of chunks add up.
pub proof fn law_rows_between(entries: Seq<EntryView>, start: int, mid: int, end: int)
    requires
        start <= mid <= end,
    ensures
        rows_between(entries, start, start) == 0,
        rows_between(entries, start, start + 1) == entries[start].row_count,
        rows_between(entries, start, end) == rows_between(entries, start, mid) + rows_between(
            entries,
            mid,
            end,
        ),
    decreases end - mid,
{
    assert(rows_between(entries, start, start) == 0);
    if mid < end {
        law_rows_between(entries, start, mid, end - 1);
    }
}

/// The columns of a chunk are the instants of its first file and the values of
/// each of its files.
pub proof fn law_chunk_columns(files: Seq<Seq<u8>>, c: int)
    requires
        files.len() > 0,
        0 <= c < files.len(),
    ensures
        chunk_columns(files).len() == files.len() + 1,
        chunk_columns(files)[0] == decoded_channel(files[0]).0,
        chunk_columns(files)[c + 1] == decoded_channel(files[c]).1,
{
}

/// The chunks to be had are those whose files were all read and can all be
/// decoded, in order.
pub proof fn law_stored_chunks(disk: Disk, start: int, end: int)
    requires
        start <= end,
    ensures
        stored_chunks(disk, start, start).len() == 0,
        stored_chunks(disk, start, end + 1) == if disk[end] is Some && (forall|i: int|
            0 <= i < disk[end].unwrap().len() ==> decodable(#[trigger] disk[end].unwrap()[i])) {
            stored_chunks(disk, start, end).push(chunk_columns(disk[end].unwrap()))
        } else {
            stored_chunks(disk, start, end)
        },
{
}

/// The least recently used chunk makes room.  A chunk that is asked for becomes
/// the one used last, the others staying in their order of use; where the memory
/// is full and the chunk is not in it, the chunk used longest ago is dropped, and
/// no other one is.
pub proof fn law_least_recently_used_leaves(
    now: ChunkStore,
    before: ChunkStore,
    k: u32,
    files: Option<Vec<Vec<u8>>>,
)
    requires
        before.wf(),
        now.used(&before, k, files),
    ensures
        ({
            let (order, full) = (
                before.cache.recent(),
                before.cache.recent().len() >= before.cache.capacity(),
            );
            let held = before.cache.held().contains_key(k);
            let loads = files is Some && forall|i: int|
                0 <= i < files.unwrap()@.len() ==> decodable((#[trigger] files.unwrap()@[i])@);
            let left = if full {
                order.skip(1)
            } else {
                order
            };
            &&& held ==> now.cache.recent() == order.filter(|x: u32| x != k).push(k)
                && now.cache.held() == before.cache.held()
            &&& !held && loads ==> now.cache.recent() == left.push(k)
                && now.cache.held().contains_key(k)
            &&& !held && !loads ==> now.cache.recent() == left
            &&& forall|x: u32| #[trigger]
                before.cache.held().contains_key(x) && !(!held && full && x == order[0])
                    ==> now.cache.held().contains_key(x) && (x != k ==> now.cache.held()[x]
                    == before.cache.held()[x])
        }),
{
    law_without(before.cache.recent(), k);
    if let Some(f) = files {
        let views = file_views(f@);
        assert(all_decodable(views) <==> forall|i: int|
            0 <= i < f@.len() ==> decodable((#[trigger] f@[i])@)) by {
            if all_decodable(views) {
                assert forall|i: int| 0 <= i < f@.len() implies decodable((#[trigger] f@[i])@) by {
                    assert(decodable(views[i]));
                }
            }
        }
    }
}

/// Files are seen one by one, and as a whole only where they could be read.
pub proof fn law_file_views(files: Option<Vec<Vec<u8>>>, i: int)
    ensures
        files is None <==> found(files) is None,
        files matches Some(f) ==> found(files).unwrap().len() == f@.len() && (0 <= i < f@.len()
            ==> found(files).unwrap()[i] == f@[i]@),
{
}

} // verus!
