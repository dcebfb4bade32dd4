//! A waveform that was converted: the properties of its cache, the names of its
//! columns, and the store of its chunks.

use crate::cache::CacheMeta;
use crate::chunk_cache::ChunkView;
use crate::chunk_index::{ChunkEntry, ChunkIndex};
use crate::chunk_store::{range_of, ChunkStore};
use crate::raw_query::{overlapping, query_stride, RawQuery};
use crate::sample::Sample;
use crate::stats_query::{no_extent, StatsQuery};
use vstd::prelude::*;

verus! {

/// A waveform with chunks.
pub struct TszData {
    pub meta: CacheMeta,
    pub time_col: String,
    pub data_cols: Vec<String>,
    pub store: ChunkStore,
}

/// How many data channels a number of columns holds; at least one.
pub open spec fn channel_count(n_cols: usize) -> usize {
    if n_cols > 1 {
        (n_cols - 1) as usize
    } else {
        1
    }
}

fn copy_names(names: &Vec<String>, from: usize) -> (out: Vec<String>)
    requires
        from <= names@.len(),
    ensures
        out@ == names@.skip(from as int),
{
    let mut out: Vec<String> = Vec::new();
    let mut i: usize = from;
    while i < names.len()
        invariant
            from <= i <= names@.len(),
            out@ == names@.subrange(from as int, i as int),
        decreases names@.len() - i,
    {
        out.push(names[i].clone());
        i += 1;
        assert(out@ =~= names@.subrange(from as int, i as int));
    }
    assert(out@ =~= names@.skip(from as int));
    out
}

impl TszData {
    /// The store of chunks can be queried.
    pub open spec fn wf(&self) -> bool {
        self.store.wf()
    }

    /// Opens a waveform, given the properties of its cache and its index.
    pub fn from_meta(meta: CacheMeta, index: ChunkIndex, chunks_dir: String) -> (d: TszData)
        requires
            meta.columns@.len() > 0,
            index.entries@.len() <= u32::MAX,
        ensures
            d.wf(),
            d.meta == meta,
            d.time_col == meta.columns@[0],
            d.data_cols@ == (if meta.n_cols > 1 {
                meta.columns@.skip(1)
            } else {
                seq![meta.columns@[0]]
            }),
            d.store.chunks_dir == chunks_dir,
            d.store.entries == index.entries,
            d.store.columns@ == meta.columns@,
            d.store.total_rows == index.total_rows,
            d.store.x_min == index.x_min,
            d.store.x_max == index.x_max,
            d.store.cache.held() == Map::<u32, ChunkView>::empty(),
    {
        let time_col: String = meta.columns[0].clone();
        let data_cols: Vec<String> = if meta.n_cols > 1 {
            copy_names(&meta.columns, 1)
        } else {
            let mut one: Vec<String> = Vec::new();
            one.push(meta.columns[0].clone());
            assert(one@ =~= seq![meta.columns@[0]]);
            one
        };
        let columns: Vec<String> = copy_names(&meta.columns, 0);
        assert(columns@ =~= meta.columns@);
        let store: ChunkStore = ChunkStore::new(
            chunks_dir,
            index.entries,
            columns,
            index.total_rows,
            index.x_min,
            index.x_max,
        );
        TszData { meta, time_col, data_cols, store }
    }

    /// How many data channels there are; at least one.
    pub fn n_channels(&self) -> (n: usize)
        ensures
            n == channel_count(self.meta.n_cols),
    {
        self.meta.n_channels()
    }

    /// How many rows there are.
    pub fn n_rows(&self) -> (n: usize)
        ensures
            n == self.meta.n_rows,
    {
        self.meta.n_rows
    }

    /// The first instant.
    pub fn x_min(&self) -> (t: Sample)
        ensures
            t == self.meta.x_min,
    {
        self.meta.x_min
    }

    /// The last instant.
    pub fn x_max(&self) -> (t: Sample)
        ensures
            t == self.meta.x_max,
    {
        self.meta.x_max
    }

    /// The name of the column of instants.
    pub fn time_col(&self) -> (name: &str)
        ensures
            name@ == self.time_col@,
    {
        self.time_col.as_str()
    }

    /// The names of the data channels.
    pub fn data_cols(&self) -> (names: &[String])
        ensures
            names@ == self.data_cols@,
    {
        self.data_cols.as_slice()
    }

    /// The directory that holds the chunks.
    pub fn chunks_dir(&self) -> (dir: &str)
        ensures
            dir@ == self.store.chunks_dir@,
    {
        self.store.chunks_dir()
    }

    /// The entries of the index.
    pub fn entries(&self) -> (entries: &[ChunkEntry])
        ensures
            entries@ == self.store.entries@,
    {
        self.store.entries()
    }

    /// Starts a query for the raw points of one channel.
    pub fn get_raw_points(&self, ch_idx: usize, x_min: Sample, x_max: Sample, max_points: usize) -> (q:
        RawQuery)
        requires
            self.wf(),
        ensures
            q.wf(),
            q.fits(self.store.index().len(), self.store.channels()),
            q.channels().len() == 1,
            q.max_points() == max_points,
            q.range() == (x_min, x_max),
            q.visited() == Seq::<Seq<Seq<Sample>>>::empty(),
            if ch_idx < self.store.channels() && overlapping(
                self.store.index(),
                x_min,
                x_max,
            ) {
                &&& q.channels()[0] == ch_idx
                &&& (q.next(), q.end()) == range_of(self.store.index(), x_min, x_max)
                &&& q.stride() == query_stride(
                    self.store.index(),
                    x_min,
                    x_max,
                    max_points as nat,
                )
            } else {
                q.next() >= q.end()
            },
    {
        self.store.get_raw_points(ch_idx, x_min, x_max, max_points)
    }

    /// Starts a query for the raw points of several channels.
    pub fn get_raw_points_multi(
        &self,
        channels: &[usize],
        x_min: Sample,
        x_max: Sample,
        max_points: usize,
    ) -> (q: RawQuery)
        requires
            self.wf(),
        ensures
            q.wf(),
            q.fits(self.store.index().len(), self.store.channels()),
            q.channels().len() == channels@.len(),
            q.max_points() == max_points,
            q.range() == (x_min, x_max),
            q.visited() == Seq::<Seq<Seq<Sample>>>::empty(),
            if self.store.answerable(channels@, x_min, x_max) {
                &&& q.channels() == Seq::new(channels@.len(), |j: int| channels@[j] as int)
                &&& (q.next(), q.end()) == range_of(self.store.index(), x_min, x_max)
                &&& q.stride() == query_stride(
                    self.store.index(),
                    x_min,
                    x_max,
                    max_points as nat,
                )
            } else {
                q.next() >= q.end()
            },
    {
        self.store.get_raw_points_multi(channels, x_min, x_max, max_points)
    }

    /// Starts a query for the aggregates of a channel.
    pub fn compute_channel_stats(&self, ch_idx: usize, x_min: Sample, x_max: Sample) -> (q: StatsQuery)
        requires
            self.wf(),
        ensures
            q.wf(self.store.index().len(), self.store.channels()),
            q.channel() == ch_idx,
            q.range() == (x_min, x_max),
            q.total() == no_extent(),
            if ch_idx < self.store.channels() && overlapping(
                self.store.index(),
                x_min,
                x_max,
            ) {
                &&& (q.next(), q.end()) == range_of(self.store.index(), x_min, x_max)
                &&& q.have_stats() == (ch_idx < self.store.index()[q.next()].stats.len())
            } else {
                q.next() >= q.end()
            },
    {
        self.store.compute_channel_stats(ch_idx, x_min, x_max)
    }
}

/// A waveform.
pub enum WaveformData {
    Tsz(TszData),
}

impl WaveformData {
    /// What is behind the waveform.
    pub open spec fn tsz(&self) -> TszData {
        match *self {
            WaveformData::Tsz(d) => d,
        }
    }

    /// The waveform can be queried.
    pub open spec fn wf(&self) -> bool {
        self.tsz().wf()
    }

    /// How many data channels there are; at least one.
    pub fn n_channels(&self) -> (n: usize)
        ensures
            n == channel_count(self.tsz().meta.n_cols),
    {
        match self {
            WaveformData::Tsz(d) => d.n_channels(),
        }
    }

    /// How many rows there are.
    pub fn n_rows(&self) -> (n: usize)
        ensures
            n == self.tsz().meta.n_rows,
    {
        match self {
            WaveformData::Tsz(d) => d.n_rows(),
        }
    }

    /// The first instant.
    pub fn x_min(&self) -> (t: Sample)
        ensures
            t == self.tsz().meta.x_min,
    {
        match self {
            WaveformData::Tsz(d) => d.x_min(),
        }
    }

    /// The last instant.
    pub fn x_max(&self) -> (t: Sample)
        ensures
            t == self.tsz().meta.x_max,
    {
        match self {
            WaveformData::Tsz(d) => d.x_max(),
        }
    }

    /// The name of the column of instants.
    pub fn time_col(&self) -> (name: &str)
        ensures
            name@ == self.tsz().time_col@,
    {
        match self {
            WaveformData::Tsz(d) => d.time_col(),
        }
    }

    /// The names of the data channels.
    pub fn data_cols(&self) -> (names: &[String])
        ensures
            names@ == self.tsz().data_cols@,
    {
        match self {
            WaveformData::Tsz(d) => d.data_cols(),
        }
    }

    /// The directory that holds the chunks.
    pub fn chunks_dir(&self) -> (dir: &str)
        ensures
            dir@ == self.tsz().store.chunks_dir@,
    {
        match self {
            WaveformData::Tsz(d) => d.chunks_dir(),
        }
    }

    /// The entries of the index.
    pub fn entries(&self) -> (entries: &[ChunkEntry])
        ensures
            entries@ == self.tsz().store.entries@,
    {
        match self {
            WaveformData::Tsz(d) => d.entries(),
        }
    }

    /// Starts a query for the raw points of one channel.
    pub fn get_raw_points(&self, ch_idx: usize, x_min: Sample, x_max: Sample, max_points: usize) -> (q:
        RawQuery)
        requires
            self.wf(),
        ensures
            q.wf(),
            q.fits(self.tsz().store.index().len(), self.tsz().store.channels()),
            q.channels().len() == 1,
            q.max_points() == max_points,
            q.range() == (x_min, x_max),
            q.visited() == Seq::<Seq<Seq<Sample>>>::empty(),
            if ch_idx < self.tsz().store.channels() && overlapping(
                self.tsz().store.index(),
                x_min,
                x_max,
            ) {
                &&& q.channels()[0] == ch_idx
                &&& (q.next(), q.end()) == range_of(self.tsz().store.index(), x_min, x_max)
                &&& q.stride() == query_stride(
                    self.tsz().store.index(),
                    x_min,
                    x_max,
                    max_points as nat,
                )
            } else {
                q.next() >= q.end()
            },
    {
        match self {
            WaveformData::Tsz(d) => d.get_raw_points(ch_idx, x_min, x_max, max_points),
        }
    }

    /// Starts a query for the raw points of several channels.
    pub fn get_raw_points_multi(
        &self,
        channels: &[usize],
        x_min: Sample,
        x_max: Sample,
        max_points: usize,
    ) -> (q: RawQuery)
        requires
            self.wf(),
        ensures
            q.wf(),
            q.fits(self.tsz().store.index().len(), self.tsz().store.channels()),
            q.channels().len() == channels@.len(),
            q.max_points() == max_points,
            q.range() == (x_min, x_max),
            q.visited() == Seq::<Seq<Seq<Sample>>>::empty(),
            if self.tsz().store.answerable(channels@, x_min, x_max) {
                &&& q.channels() == Seq::new(channels@.len(), |j: int| channels@[j] as int)
                &&& (q.next(), q.end()) == range_of(self.tsz().store.index(), x_min, x_max)
                &&& q.stride() == query_stride(
                    self.tsz().store.index(),
                    x_min,
                    x_max,
                    max_points as nat,
                )
            } else {
                q.next() >= q.end()
            },
    {
        match self {
            WaveformData::Tsz(d) => d.get_raw_points_multi(channels, x_min, x_max, max_points),
        }
    }

    /// Starts a query for the aggregates of a channel.
    pub fn compute_channel_stats(&self, ch_idx: usize, x_min: Sample, x_max: Sample) -> (q: StatsQuery)
        requires
            self.wf(),
        ensures
            q.wf(self.tsz().store.index().len(), self.tsz().store.channels()),
            q.channel() == ch_idx,
            q.range() == (x_min, x_max),
            q.total() == no_extent(),
            if ch_idx < self.tsz().store.channels() && overlapping(
                self.tsz().store.index(),
                x_min,
                x_max,
            ) {
                &&& (q.next(), q.end()) == range_of(self.tsz().store.index(), x_min, x_max)
                &&& q.have_stats() == (ch_idx < self.tsz().store.index()[q.next()].stats.len())
            } else {
                q.next() >= q.end()
            },
    {
        match self {
            WaveformData::Tsz(d) => d.compute_channel_stats(ch_idx, x_min, x_max),
        }
    }
}

/// All columns but the first one are data channels; a single column is one.
pub proof fn law_channel_count(n_cols: usize)
    ensures
        n_cols >= 2 ==> channel_count(n_cols) + 1 == n_cols,
        n_cols < 2 ==> channel_count(n_cols) == 1,
{
}

} // verus!
