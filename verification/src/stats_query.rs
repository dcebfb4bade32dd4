//! Aggregates of a channel over a range of instants.
//!
//! A chunk that lies inside the range adds the aggregates that the index holds
//! for it, without being decoded.  Only chunks that reach across the range's
//! ends are decoded, and their samples counted one by one.

use crate::chunk_index::EntryView;
use crate::chunk_store::{
    begun, chunk_columns, chunk_range, ended, found, law_range_overlaps, lemma_cut, loadable,
    range_of, ChunkStore, Disk,
};
use crate::envelope::value_or_nan;
use crate::raw_query::overlapping;
use crate::sample::{
    at_most, below, finite, is_finite, le, lt, nan, Sample, INFINITY, NAN, NEG_INFINITY,
};
use crate::stats::{
    finite_samples, greatest, least, lemma_extremes, lemma_finite_samples_finite, stats_of,
    ChannelStats,
};
use vstd::prelude::*;

verus! {

// ---------------------------------------------------------------------------
// The model
// ---------------------------------------------------------------------------

/// The extremes and the number of the samples counted so far.
pub struct Extent {
    pub min: Sample,
    pub max: Sample,
    pub count: int,
}

/// What one chunk adds.
pub enum Contribution {
    /// The aggregates that the index holds.
    Aggregate(ChannelStats),
    /// Samples that are counted one by one.
    Samples(Seq<Sample>),
    /// The chunk cannot be had.
    Nothing,
}

/// An instant that is not outside the range.
pub open spec fn reached(t: Sample, x_min: Sample, x_max: Sample) -> bool {
    !below(t, x_min) && !below(x_max, t)
}

/// The finite samples of a column whose instants are not outside the range.
pub open spec fn counted(
    times: Seq<Sample>,
    values: Seq<Sample>,
    x_min: Sample,
    x_max: Sample,
) -> Seq<Sample>
    decreases times.len(),
{
    if times.len() == 0 {
        Seq::empty()
    } else {
        let earlier = counted(times.drop_last(), values, x_min, x_max);
        let v = value_or_nan(values, times.len() - 1);
        if reached(times.last(), x_min, x_max) && finite(v) {
            earlier.push(v)
        } else {
            earlier
        }
    }
}

/// The least of a sample and the samples after it.
pub open spec fn least_from(m: Sample, values: Seq<Sample>) -> Sample
    decreases values.len(),
{
    if values.len() == 0 {
        m
    } else {
        let l = least_from(m, values.drop_last());
        if below(values.last(), l) {
            values.last()
        } else {
            l
        }
    }
}

/// The greatest of a sample and the samples after it.
pub open spec fn greatest_from(m: Sample, values: Seq<Sample>) -> Sample
    decreases values.len(),
{
    if values.len() == 0 {
        m
    } else {
        let g = greatest_from(m, values.drop_last());
        if below(g, values.last()) {
            values.last()
        } else {
            g
        }
    }
}

/// The extent with what one chunk adds.
pub open spec fn grown(e: Extent, c: Contribution) -> Extent {
    match c {
        Contribution::Aggregate(s) => if s.count == 0 {
            e
        } else {
            Extent {
                min: if below(s.min, e.min) {
                    s.min
                } else {
                    e.min
                },
                max: if below(e.max, s.max) {
                    s.max
                } else {
                    e.max
                },
                count: e.count + s.count,
            }
        },
        Contribution::Samples(f) => Extent {
            min: least_from(e.min, f),
            max: greatest_from(e.max, f),
            count: e.count + f.len(),
        },
        Contribution::Nothing => e,
    }
}

/// The extent of no sample.
pub open spec fn no_extent() -> Extent {
    Extent { min: INFINITY, max: NEG_INFINITY, count: 0 }
}

/// A chunk lies inside the range.
pub open spec fn inside(e: EntryView, x_min: Sample, x_max: Sample) -> bool {
    at_most(x_min, e.t_min) && at_most(e.t_max, x_max)
}

/// The aggregates of the index hold for a chunk.
pub open spec fn aggregated(
    e: EntryView,
    have_stats: bool,
    ch: int,
    x_min: Sample,
    x_max: Sample,
) -> bool {
    have_stats && inside(e, x_min, x_max) && ch < e.stats.len()
}

/// What a chunk on disk adds.
pub open spec fn contribution(
    e: EntryView,
    files: Option<Seq<Seq<u8>>>,
    have_stats: bool,
    ch: int,
    x_min: Sample,
    x_max: Sample,
) -> Contribution {
    if aggregated(e, have_stats, ch, x_min, x_max) {
        Contribution::Aggregate(e.stats[ch])
    } else if loadable(files) {
        let columns = chunk_columns(files.unwrap());
        Contribution::Samples(counted(columns[0], columns[ch + 1], x_min, x_max))
    } else {
        Contribution::Nothing
    }
}

/// What the chunks on disk from `start` up to `end` add up to.
pub open spec fn stored_total(
    entries: Seq<EntryView>,
    disk: Disk,
    have_stats: bool,
    ch: int,
    x_min: Sample,
    x_max: Sample,
    start: int,
    end: int,
) -> Extent
    decreases end - start,
{
    if start >= end {
        no_extent()
    } else {
        grown(
            stored_total(entries, disk, have_stats, ch, x_min, x_max, start, end - 1),
            contribution(entries[end - 1], disk[end - 1], have_stats, ch, x_min, x_max),
        )
    }
}

// ---------------------------------------------------------------------------
// Queries
// ---------------------------------------------------------------------------

/// What one chunk added, for the sums that the owner of a query keeps.
#[derive(Debug)]
pub enum StatsPart {
    Aggregate(ChannelStats),
    Samples(Vec<Sample>),
    Nothing,
}

impl View for StatsPart {
    type V = Contribution;

    open spec fn view(&self) -> Contribution {
        match *self {
            StatsPart::Aggregate(s) => Contribution::Aggregate(s),
            StatsPart::Samples(v) => Contribution::Samples(v@),
            StatsPart::Nothing => Contribution::Nothing,
        }
    }
}

/// The extremes and the number of the samples of a range.
#[derive(Clone, Copy, Debug, PartialEq, Eq, Structural)]
pub struct Summary {
    pub min: Sample,
    pub max: Sample,
    pub count: u128,
}

/// A query for the aggregates of one channel.
pub struct StatsQuery {
    ch: usize,
    x_min: Sample,
    x_max: Sample,
    next: usize,
    end: usize,
    have_stats: bool,
    min: Sample,
    max: Sample,
    count: u128,
}

impl StatsQuery {
    /// The channel asked for.
    pub closed spec fn channel(&self) -> int {
        self.ch as int
    }

    /// The range of instants.
    pub closed spec fn range(&self) -> (Sample, Sample) {
        (self.x_min, self.x_max)
    }

    /// The chunk to visit next.
    pub closed spec fn next(&self) -> int {
        self.next as int
    }

    /// The chunk after the last one to visit.
    pub closed spec fn end(&self) -> int {
        self.end as int
    }

    /// Whether the index holds aggregates of the channel.
    pub closed spec fn have_stats(&self) -> bool {
        self.have_stats
    }

    /// What was counted so far.
    pub closed spec fn total(&self) -> Extent {
        Extent { min: self.min, max: self.max, count: self.count as int }
    }

    /// What holds between the steps of a query over a store.
    pub closed spec fn wf(&self, n_chunks: nat, n_channels: nat) -> bool {
        self.next < self.end ==> {
            &&& self.end <= n_chunks
            &&& n_chunks <= u32::MAX
            &&& self.ch < n_channels
            &&& self.count <= self.next * 0x1_0000_0000_0000_0000
        }
    }

    /// The query is on its way through the chunks from `start` on: it has
    /// counted what those on disk add.
    pub open spec fn tracks(&self, entries: Seq<EntryView>, disk: Disk, start: int) -> bool {
        let (x_min, x_max) = self.range();
        &&& start <= self.next()
        &&& self.total() == stored_total(
            entries,
            disk,
            self.have_stats(),
            self.channel(),
            x_min,
            x_max,
            start,
            self.next(),
        )
    }

    /// The chunk to visit next; `None` once all are visited.
    pub fn next_chunk(&self) -> (k: Option<usize>)
        ensures
            match k {
                Some(k) => k == self.next() && self.next() < self.end(),
                None => self.next() >= self.end(),
            },
    {
        if self.next < self.end {
            Some(self.next)
        } else {
            None
        }
    }

    /// Whether the next chunk's samples are needed, because the aggregates of
    /// the index do not hold for it.
    pub fn needs_samples(&self, store: &ChunkStore) -> (b: bool)
        requires
            self.wf(store.index().len(), store.channels()),
            self.next() < self.end(),
        ensures
            b == !aggregated(
                store.index()[self.next()],
                self.have_stats(),
                self.channel(),
                self.range().0,
                self.range().1,
            ),
    {
        let entry = &store.entries[self.next];
        assert(store.index()[self.next as int] == entry@);
        !(self.have_stats && le(self.x_min, entry.t_min) && le(entry.t_max, self.x_max) && self.ch
            < entry.stats.len())
    }

    /// Counts the samples of a column whose instants are not outside the range.
    fn count_samples(&mut self, times: &Vec<Sample>, values: &Vec<Sample>) -> (samples: Vec<Sample>)
        requires
            old(self).count + times@.len() <= u128::MAX,
        ensures
            samples@ == counted(times@, values@, old(self).x_min, old(self).x_max),
            samples@.len() <= times@.len(),
            *final(self) == (StatsQuery {
                min: least_from(old(self).min, samples@),
                max: greatest_from(old(self).max, samples@),
                count: (old(self).count + samples@.len()) as u128,
                ..*old(self)
            }),
    {
        let mut samples: Vec<Sample> = Vec::new();
        let ghost before = *self;
        let mut i: usize = 0;
        while i < times.len()
            invariant
                i <= times@.len(),
                samples@ == counted(times@.take(i as int), values@, before.x_min, before.x_max),
                samples@.len() <= i,
                before.count + times@.len() <= u128::MAX,
                *self == (StatsQuery {
                    min: least_from(before.min, samples@),
                    max: greatest_from(before.max, samples@),
                    count: (before.count + samples@.len()) as u128,
                    ..before
                }),
            decreases times@.len() - i,
        {
            let t: Sample = times[i];
            let v: Sample = if i < values.len() {
                values[i]
            } else {
                NAN
            };
            assert(times@.take(i + 1).drop_last() =~= times@.take(i as int));
            if !lt(t, self.x_min) && !lt(self.x_max, t) && is_finite(v) {
                assert(samples@.push(v).drop_last() =~= samples@);
                if lt(v, self.min) {
                    self.min = v;
                }
                if lt(self.max, v) {
                    self.max = v;
                }
                self.count = self.count + 1;
                samples.push(v);
            }
            i += 1;
        }
        assert(times@.take(i as int) =~= times@);
        samples
    }

    /// Visits the next chunk and tells what it added.  `files` are the chunk's
    /// files, if its samples are needed, the store does not hold them, and the
    /// files could be read.
    pub fn advance(&mut self, store: &mut ChunkStore, files: &Option<Vec<Vec<u8>>>) -> (part: StatsPart)
        requires
            old(store).wf(),
            old(self).wf(old(store).index().len(), old(store).channels()),
            old(self).next() < old(self).end(),
            !old(store).cache.held().contains_key(old(self).next() as u32) ==> (files matches Some(
                f,
            ) ==> f@.len() == old(store).channels()),
        ensures
            final(store).wf(),
            final(store).same_index(old(store)),
            final(self).wf(final(store).index().len(), final(store).channels()),
            final(self).channel() == old(self).channel(),
            final(self).range() == old(self).range(),
            final(self).next() == old(self).next() + 1,
            final(self).end() == old(self).end(),
            final(self).have_stats() == old(self).have_stats(),
            final(self).total() == grown(old(self).total(), part@),
            ({
                let k = old(self).next() as u32;
                let ch = old(self).channel();
                let (x_min, x_max) = old(self).range();
                let entry = old(store).index()[old(self).next()];
                if aggregated(entry, old(self).have_stats(), ch, x_min, x_max) {
                    &&& part@ == Contribution::Aggregate(entry.stats[ch])
                    &&& *final(store) == *old(store)
                } else if old(store).cache.held().contains_key(k) {
                    let columns = old(store).cache.held()[k].columns;
                    part@ == Contribution::Samples(
                        counted(columns[0], columns[ch + 1], x_min, x_max),
                    )
                } else if loadable(found(*files)) {
                    let columns = chunk_columns(found(*files).unwrap());
                    part@ == Contribution::Samples(
                        counted(columns[0], columns[ch + 1], x_min, x_max),
                    )
                } else {
                    part@ == Contribution::Nothing
                }
            }),
            !aggregated(
                old(store).index()[old(self).next()],
                old(self).have_stats(),
                old(self).channel(),
                old(self).range().0,
                old(self).range().1,
            ) ==> final(store).used(old(store), old(self).next() as u32, *files),
            forall|disk: Disk, start: int|
                #![trigger old(store).coherent(disk), old(self).tracks(old(store).index(), disk, start)]
                old(store).coherent(disk) && old(store).supplied(old(self).next(), *files, disk)
                    ==> final(store).coherent(disk) && (old(self).tracks(
                    old(store).index(),
                    disk,
                    start,
                ) ==> final(self).tracks(final(store).index(), disk, start)),
    {
        let k: u32 = self.next as u32;
        if !self.needs_samples(store) {
            let stats: ChannelStats = store.entries[self.next].stats[self.ch];
            assert(store.index()[self.next as int] == store.entries@[self.next as int]@);
            self.next = self.next + 1;
            if stats.count > 0 {
                if lt(stats.min, self.min) {
                    self.min = stats.min;
                }
                if lt(self.max, stats.max) {
                    self.max = stats.max;
                }
                self.count = self.count + stats.count as u128;
            }
            return StatsPart::Aggregate(stats);
        }
        self.next = self.next + 1;
        if store.ensure_loaded(k, files) {
            match store.cache.get(k) {
                Some(chunk) => {
                    assert(store.cache.held().contains_key(k));
                    let ghost columns = chunk@.columns;
                    assert(chunk.columns@.len() == chunk.columns.len());
                    assert(columns[0] == chunk.columns@[0]@);
                    assert(columns[self.ch + 1] == chunk.columns@[self.ch + 1]@);
                    assert(chunk.columns[0]@.len() == chunk.columns[0].len());
                    let samples: Vec<Sample> = self.count_samples(
                        &chunk.columns[0],
                        &chunk.columns[self.ch + 1],
                    );
                    return StatsPart::Samples(samples);
                },
                None => {},
            }
        }
        StatsPart::Nothing
    }

    /// The extremes and the number of the samples; nothing where there are
    /// fewer than two.
    pub fn finish(&self) -> (r: Option<Summary>)
        ensures
            match r {
                Some(s) => self.total().count >= 2 && self.total() == (Extent {
                    min: s.min,
                    max: s.max,
                    count: s.count as int,
                }),
                None => self.total().count < 2,
            },
    {
        if self.count < 2 {
            None
        } else {
            Some(Summary { min: self.min, max: self.max, count: self.count })
        }
    }
}

impl ChunkStore {
    /// Starts a query for the aggregates of a channel.
    pub fn compute_channel_stats(&self, ch_idx: usize, x_min: Sample, x_max: Sample) -> (q: StatsQuery)
        requires
            self.wf(),
        ensures
            q.wf(self.index().len(), self.channels()),
            q.channel() == ch_idx,
            q.range() == (x_min, x_max),
            q.total() == no_extent(),
            if ch_idx < self.channels() && overlapping(self.index(), x_min, x_max) {
                &&& (q.next(), q.end()) == range_of(self.index(), x_min, x_max)
                &&& q.have_stats() == (ch_idx < self.index()[q.next()].stats.len())
            } else {
                q.next() >= q.end()
            },
    {
        let mut q: StatsQuery = StatsQuery {
            ch: ch_idx,
            x_min,
            x_max,
            next: 0,
            end: 0,
            have_stats: false,
            min: INFINITY,
            max: NEG_INFINITY,
            count: 0,
        };
        if ch_idx >= self.n_channels() || le(x_max, x_min) {
            return q;
        }
        let (start, end) = chunk_range(self.entries.as_slice(), x_min, x_max);
        if start >= end {
            return q;
        }
        assert(self.index()[start as int] == self.entries@[start as int]@);
        q.next = start;
        q.end = end;
        q.have_stats = ch_idx < self.entries[start].stats.len();
        q
    }
}

// ---------------------------------------------------------------------------
// Counting and aggregates agree
// ---------------------------------------------------------------------------

proof fn lemma_extremes_from(m: Sample, f: Seq<Sample>)
    requires
        !nan(m),
        forall|i: int| 0 <= i < f.len() ==> finite(#[trigger] f[i]),
        f.len() > 0,
    ensures
        least_from(m, f) == if below(least(f), m) {
            least(f)
        } else {
            m
        },
        greatest_from(m, f) == if below(m, greatest(f)) {
            greatest(f)
        } else {
            m
        },
    decreases f.len(),
{
    let p = f.drop_last();
    assert(f[f.len() - 1] == f.last());
    assert(forall|i: int| 0 <= i < p.len() ==> p[i] == f[i]);
    lemma_extremes(f);
    lemma_extremes(p);
    if p.len() > 0 {
        lemma_extremes_from(m, p);
    } else {
        assert(least_from(m, p) == m && greatest_from(m, p) == m);
    }
}

proof fn lemma_counted_all(times: Seq<Sample>, values: Seq<Sample>, x_min: Sample, x_max: Sample)
    requires
        times.len() <= values.len(),
        forall|i: int| 0 <= i < times.len() ==> reached(#[trigger] times[i], x_min, x_max),
    ensures
        counted(times, values, x_min, x_max) == finite_samples(values.take(times.len() as int)),
    decreases times.len(),
{
    if times.len() > 0 {
        let n = times.len() - 1;
        let head = times.drop_last();
        assert(times[n] == times.last());
        assert(forall|i: int| 0 <= i < n ==> head[i] == times[i]);
        lemma_counted_all(head, values, x_min, x_max);
        assert(values.take(n + 1).drop_last() =~= values.take(n));
        assert(values.take(n + 1).last() == values[n]);
    }
}

/// Not decoding a chunk changes nothing: for a chunk whose instants all lie in
/// the range, the aggregates that `ChannelStats::from_values` put into the
/// index add the same as counting the chunk's samples.
pub proof fn law_aggregates_match_samples(
    e: Extent,
    times: Seq<Sample>,
    values: Seq<Sample>,
    x_min: Sample,
    x_max: Sample,
    sum: Sample,
    sum_sq: Sample,
)
    requires
        !nan(e.min),
        !nan(e.max),
        times.len() == values.len(),
        values.len() <= u64::MAX,
        forall|i: int| 0 <= i < times.len() ==> reached(#[trigger] times[i], x_min, x_max),
    ensures
        grown(e, Contribution::Aggregate(stats_of(values, sum, sum_sq))) == grown(
            e,
            Contribution::Samples(counted(times, values, x_min, x_max)),
        ),
{
    lemma_counted_all(times, values, x_min, x_max);
    assert(values.take(times.len() as int) =~= values);
    let f = finite_samples(values);
    lemma_finite_samples_finite(values);
    if f.len() > 0 {
        lemma_extremes_from(e.min, f);
        lemma_extremes_from(e.max, f);
    }
}

/// The index tells the truth about a chunk on disk: the files hold as many
/// samples as instants, none of them infinite, the entry gives the range of the
/// finite instants, and its aggregates are those of the samples.
pub open spec fn faithful(e: EntryView, files: Option<Seq<Seq<u8>>>, ch: int) -> bool {
    let columns = chunk_columns(files.unwrap());
    &&& loadable(files)
    &&& 0 <= ch < files.unwrap().len()
    &&& columns[0].len() == columns[ch + 1].len()
    &&& columns[0].len() <= u64::MAX
    &&& forall|i: int| 0 <= i < columns[0].len() ==> finite(#[trigger] columns[0][i]) || nan(columns[0][i])
    &&& e.t_min == least(finite_samples(columns[0]))
    &&& e.t_max == greatest(finite_samples(columns[0]))
    &&& ch < e.stats.len()
    &&& e.stats[ch] == stats_of(columns[ch + 1], e.stats[ch].sum, e.stats[ch].sum_sq)
}

/// A finite instant is among the finite ones.
pub proof fn lemma_among_finite(times: Seq<Sample>, i: int)
    requires
        0 <= i < times.len(),
        finite(times[i]),
    ensures
        finite_samples(times).contains(times[i]),
    decreases times.len(),
{
    let f = finite_samples(times);
    if i == times.len() - 1 {
        assert(f[f.len() - 1] == times[i]);
    } else {
        let head = times.drop_last();
        assert(head[i] == times[i]);
        lemma_among_finite(head, i);
        let g = finite_samples(head);
        let j = choose|j: int| 0 <= j < g.len() && g[j] == times[i];
        assert(f[j] == times[i]);
    }
}

/// A chunk inside the range has no instant outside of it.
proof fn lemma_inside_reached(e: EntryView, times: Seq<Sample>, x_min: Sample, x_max: Sample)
    requires
        inside(e, x_min, x_max),
        e.t_min == least(finite_samples(times)),
        e.t_max == greatest(finite_samples(times)),
        forall|i: int| 0 <= i < times.len() ==> finite(#[trigger] times[i]) || nan(times[i]),
    ensures
        forall|i: int| 0 <= i < times.len() ==> reached(#[trigger] times[i], x_min, x_max),
{
    let f = finite_samples(times);
    lemma_finite_samples_finite(times);
    lemma_extremes(f);
    assert forall|i: int| 0 <= i < times.len() implies reached(
        #[trigger] times[i],
        x_min,
        x_max,
    ) by {
        if finite(times[i]) {
            lemma_among_finite(times, i);
            let j = choose|j: int| 0 <= j < f.len() && f[j] == times[i];
            assert(at_most(least(f), f[j]) && at_most(f[j], greatest(f)));
        }
    }
}

proof fn lemma_counted_finite(
    times: Seq<Sample>,
    values: Seq<Sample>,
    x_min: Sample,
    x_max: Sample,
)
    ensures
        forall|i: int|
            0 <= i < counted(times, values, x_min, x_max).len() ==> finite(
                #[trigger] counted(times, values, x_min, x_max)[i],
            ),
    decreases times.len(),
{
    if times.len() > 0 {
        let earlier = counted(times.drop_last(), values, x_min, x_max);
        lemma_counted_finite(times.drop_last(), values, x_min, x_max);
        let all = counted(times, values, x_min, x_max);
        assert forall|i: int| 0 <= i < all.len() implies finite(#[trigger] all[i]) by {
            if i < earlier.len() {
                assert(all[i] == earlier[i]);
            }
        }
    }
}

/// Using the aggregates of the index changes nothing: where the index has
/// aggregates of the channel and tells the truth about the chunk, and where it
/// has none, the chunks add up to what counting every sample in the range gives.
pub proof fn law_total_counts_samples(
    entries: Seq<EntryView>,
    disk: Disk,
    ch: int,
    x_min: Sample,
    x_max: Sample,
    start: int,
    end: int,
)
    requires
        forall|k: int|
            start <= k < end && ch < entries[k].stats.len() ==> faithful(
                entries[k],
                #[trigger] disk[k],
                ch,
            ),
    ensures
        stored_total(entries, disk, true, ch, x_min, x_max, start, end) == stored_total(
            entries,
            disk,
            false,
            ch,
            x_min,
            x_max,
            start,
            end,
        ),
        !nan(stored_total(entries, disk, false, ch, x_min, x_max, start, end).min),
        !nan(stored_total(entries, disk, false, ch, x_min, x_max, start, end).max),
    decreases end - start,
{
    if start < end {
        law_total_counts_samples(entries, disk, ch, x_min, x_max, start, end - 1);
        let e = entries[end - 1];
        assert(ch < e.stats.len() ==> faithful(e, disk[end - 1], ch));
        let before = stored_total(entries, disk, false, ch, x_min, x_max, start, end - 1);
        let columns = chunk_columns(disk[end - 1].unwrap());
        let f = counted(columns[0], columns[ch + 1], x_min, x_max);
        lemma_counted_finite(columns[0], columns[ch + 1], x_min, x_max);
        if f.len() > 0 {
            lemma_extremes(f);
            lemma_extremes_from(before.min, f);
            lemma_extremes_from(before.max, f);
        }
        if aggregated(e, true, ch, x_min, x_max) {
            lemma_inside_reached(e, columns[0], x_min, x_max);
            law_aggregates_match_samples(
                before,
                columns[0],
                columns[ch + 1],
                x_min,
                x_max,
                e.stats[ch].sum,
                e.stats[ch].sum_sq,
            );
        }
    }
}

/// At most two chunks are decoded for the aggregates of a range, the first one
/// and the last one of those that overlap it.  The chunks are in time order and
/// do not overlap each other, and the index holds aggregates of the channel for
/// all of them.
pub proof fn law_two_chunks_decoded(
    entries: Seq<EntryView>,
    ch: int,
    x_min: Sample,
    x_max: Sample,
    k: int,
)
    requires
        forall|i: int| 0 <= i < entries.len() ==> ch < (#[trigger] entries[i]).stats.len(),
        forall|i: int|
            0 <= i < entries.len() ==> at_most((#[trigger] entries[i]).t_min, entries[i].t_max),
        forall|i: int, j: int|
            0 <= i < j < entries.len() ==> at_most(
                (#[trigger] entries[i]).t_max,
                (#[trigger] entries[j]).t_min,
            ),
        !nan(x_min),
        ({
            let (start, end) = range_of(entries, x_min, x_max);
            start <= k < end
        }),
        !aggregated(entries[k], true, ch, x_min, x_max),
    ensures
        ({
            let (start, end) = range_of(entries, x_min, x_max);
            k == start || k == end - 1
        }),
{
    let (start, end) = range_of(entries, x_min, x_max);
    let n = entries.len() as int;
    lemma_cut(ended(entries, x_min), 0, n);
    lemma_cut(begun(entries, x_max), 0, n);
    assert forall|i: int, j: int| 0 <= i <= j < n implies at_most(
        (#[trigger] entries[i]).t_min,
        (#[trigger] entries[j]).t_min,
    ) && at_most(entries[i].t_max, entries[j].t_max) by {
        if i < j {
            assert(at_most(entries[i].t_max, entries[j].t_min));
        }
    }
    if start < k < end - 1 {
        law_range_overlaps(entries, x_min, x_max, start);
        law_range_overlaps(entries, x_min, x_max, end - 1);
        assert(at_most(entries[start].t_max, entries[k].t_min));
        assert(at_most(entries[k].t_max, entries[end - 1].t_min));
    }
}

/// The samples counted are the finite ones of the rows whose instants lie in the
/// range, its ends included, in order.  A row whose instant is a NaN counts too,
/// one without a sample does not.
pub proof fn law_counted(times: Seq<Sample>, values: Seq<Sample>, x_min: Sample, x_max: Sample)
    ensures
        counted(times, values, x_min, x_max) == Seq::new(
            if times.len() <= values.len() {
                times.len()
            } else {
                values.len()
            },
            |i: int| (times[i], values[i]),
        ).filter(
            |r: (Sample, Sample)| !below(r.0, x_min) && !below(x_max, r.0) && finite(r.1),
        ).map_values(|r: (Sample, Sample)| r.1),
    decreases times.len(),
{
    reveal(Seq::filter);
    let len = if times.len() <= values.len() {
        times.len()
    } else {
        values.len()
    };
    let rows = Seq::new(len, |i: int| (times[i], values[i]));
    let keep = |r: (Sample, Sample)| !below(r.0, x_min) && !below(x_max, r.0) && finite(r.1);
    let value = |r: (Sample, Sample)| r.1;
    if times.len() > 0 {
        let head = times.drop_last();
        law_counted(head, values, x_min, x_max);
        let before = Seq::new(
            if head.len() <= values.len() {
                head.len()
            } else {
                values.len()
            },
            |i: int| (head[i], values[i]),
        );
        if times.len() <= values.len() {
            assert(rows.drop_last() =~= before);
        } else {
            assert(rows =~= before);
        }
        assert(rows.filter(keep).map_values(value) =~= counted(times, values, x_min, x_max));
    } else {
        assert(rows.filter(keep).map_values(value) =~= Seq::<Sample>::empty());
    }
}

/// The least of a sample and the samples after it is one of them and not above
/// any of them, the greatest one not below any of them; samples that are NaNs do
/// not count.
pub proof fn law_extremes_from(m: Sample, values: Seq<Sample>)
    requires
        !nan(m),
    ensures
        ({
            let (l, g) = (least_from(m, values), greatest_from(m, values));
            &&& l == m || values.contains(l)
            &&& g == m || values.contains(g)
            &&& at_most(l, m) && at_most(m, g)
            &&& forall|i: int|
                0 <= i < values.len() && !nan(#[trigger] values[i]) ==> at_most(l, values[i])
                    && at_most(values[i], g)
        }),
    decreases values.len(),
{
    if values.len() > 0 {
        let p = values.drop_last();
        let n = p.len() as int;
        law_extremes_from(m, p);
        let (l, g) = (least_from(m, values), greatest_from(m, values));
        assert forall|i: int| 0 <= i < values.len() && !nan(#[trigger] values[i]) implies at_most(
            l,
            values[i],
        ) && at_most(values[i], g) by {
            if i < n {
                assert(p[i] == values[i]);
            }
        }
        let (pl, pg) = (least_from(m, p), greatest_from(m, p));
        if p.contains(pl) {
            let a = choose|a: int| 0 <= a < n && p[a] == pl;
            assert(values[a] == pl);
        }
        if p.contains(pg) {
            let a = choose|a: int| 0 <= a < n && p[a] == pg;
            assert(values[a] == pg);
        }
        assert(values[n] == values.last());
    }
}

/// No sample at all has no extremes: the least one is infinity and the greatest
/// one negative infinity.
pub proof fn law_no_extent()
    ensures
        no_extent().count == 0,
        no_extent().min == 0x7ff0_0000_0000_0000u64,
        no_extent().max == 0xfff0_0000_0000_0000u64,
{
}

/// What a chunk adds is counted: the samples of an aggregate, or those handed
/// out one by one; a chunk that cannot be had changes nothing.
pub proof fn law_grown(e: Extent, c: Contribution)
    ensures
        grown(e, c).count == e.count + match c {
            Contribution::Aggregate(s) => s.count as int,
            Contribution::Samples(f) => f.len() as int,
            Contribution::Nothing => 0,
        },
        c is Nothing ==> grown(e, c) == e,
        c matches Contribution::Aggregate(s) ==> s.count > 0 && !nan(e.min) && !nan(e.max) && !nan(
            s.min,
        ) && !nan(s.max) ==> {
            let g = grown(e, c);
            &&& g.min == e.min || g.min == s.min
            &&& at_most(g.min, e.min) && at_most(g.min, s.min)
            &&& g.max == e.max || g.max == s.max
            &&& at_most(e.max, g.max) && at_most(s.max, g.max)
        },
{
}

/// What a chunk added is handed out as it was counted.
pub proof fn law_stats_part_view(part: StatsPart)
    ensures
        match part {
            StatsPart::Aggregate(s) => part@ == Contribution::Aggregate(s),
            StatsPart::Samples(v) => part@ == Contribution::Samples(v@),
            StatsPart::Nothing => part@ is Nothing,
        },
{
}

} // verus!
