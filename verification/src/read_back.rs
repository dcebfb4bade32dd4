//! What queries give of rows that were gathered into chunks.
//!
//! Rows pass through [`crate::chunk_writer::ChunkWriter`] into chunks, the
//! chunks into files and an index, and a query reads those files again.  The
//! laws here join the ends: they speak of the rows on one side and of the
//! points shown on the other.

use crate::chunk_index::{entry_views, EntryView};
use crate::chunk_store::{
    begins_by, begun, chunk_columns, ended, ends_before, law_range_overlaps, lemma_cut, loadable,
    range_of, rows_between, Disk,
};
use crate::chunk_writer::{
    chunk_shaped, encoded_files, entry_of, joined, labels, law_chunks_numbered, law_rows_kept,
    segment_done, ChunkWriter,
};
use crate::csv_rows::csv_rows;
use crate::envelope::{bars, bracketed, fitted, visible};
use crate::raw_query::{
    channel_parts, collected, column_part, law_stored_points_keep_peaks,
    law_written_samples_shown, lemma_stored_columns, overlapping, query_stride, stored_points,
};
use crate::sample::{
    at_most, below, finite, nan, within, Point, Sample, INFINITY, NEG_INFINITY,
};
use crate::segments::{
    bounds_at, joined_entries, joined_rows, law_segments_keep_rows, rows_by_segment, starts_of,
    well_formed, Conversion,
};
use crate::stats::{
    finite_samples, greatest, least, lemma_extremes, lemma_extremes_join,
    lemma_finite_samples_finite, lemma_finite_samples_join,
};
use crate::stats_query::{
    counted, faithful, greatest_from, grown, law_total_counts_samples, least_from,
    lemma_among_finite, no_extent, reached, stored_total, Contribution, StatsQuery,
};
use vstd::prelude::*;

verus! {

/// The index and the files of a chunk are those of some columns.
pub open spec fn holds(e: EntryView, files: Option<Seq<Seq<u8>>>, columns: Seq<Seq<Sample>>) -> bool {
    &&& loadable(files)
    &&& chunk_columns(files.unwrap()) == columns
    &&& e.t_min == least(finite_samples(columns[0]))
    &&& e.t_max == greatest(finite_samples(columns[0]))
    &&& e.row_count == columns[0].len()
}

/// The index and the files of all chunks are those of some columns, among them
/// the samples of a channel, one for each instant.
pub open spec fn stored(
    entries: Seq<EntryView>,
    disk: Disk,
    chunks: Seq<Seq<Seq<Sample>>>,
    ch: int,
) -> bool {
    &&& entries.len() == chunks.len()
    &&& disk.len() == chunks.len()
    &&& ch >= 0
    &&& forall|k: int|
        0 <= k < chunks.len() ==> {
            &&& holds(entries[k], disk[k], #[trigger] chunks[k])
            &&& ch + 1 < chunks[k].len()
            &&& chunks[k][0].len() == chunks[k][ch + 1].len()
        }
}

/// The chunks can be searched by their instants: none is infinite, and chunks
/// begin and end in time order.
pub open spec fn searchable(chunks: Seq<Seq<Seq<Sample>>>) -> bool {
    &&& forall|i: int|
        0 <= i < joined(chunks, 0).len() ==> finite(#[trigger] joined(chunks, 0)[i]) || nan(
            joined(chunks, 0)[i],
        )
    &&& forall|k: int, l: int|
        0 <= k <= l < chunks.len() ==> in_order(#[trigger] chunks[k], #[trigger] chunks[l])
}

/// A chunk neither begins nor ends after another one.
pub open spec fn in_order(a: Seq<Seq<Sample>>, b: Seq<Seq<Sample>>) -> bool {
    let (f, g) = (finite_samples(a[0]), finite_samples(b[0]));
    at_most(least(f), least(g)) && at_most(greatest(f), greatest(g))
}

/// The instants of rows ascend: none is infinite, those that are not NaN ascend
/// from row to row, and each chunk has such an instant.
pub open spec fn ascending_rows(chunks: Seq<Seq<Seq<Sample>>>) -> bool {
    let times = joined(chunks, 0);
    &&& forall|i: int| 0 <= i < times.len() ==> finite(#[trigger] times[i]) || nan(times[i])
    &&& forall|i: int, j: int|
        0 <= i <= j < times.len() && finite(times[i]) && finite(times[j]) ==> at_most(
            #[trigger] times[i],
            #[trigger] times[j],
        )
    &&& forall|k: int|
        0 <= k < chunks.len() ==> finite_samples((#[trigger] chunks[k])[0]).len() > 0
}

/// The index and the files that [`crate::chunk_writer::ChunkWriter::take_chunk`]
/// makes of a chunk are those of its columns, where the files can be decoded
/// again.
pub proof fn law_written_chunk_holds(
    columns: Seq<Seq<Sample>>,
    index: u32,
    sums: Seq<(Sample, Sample)>,
)
    requires
        columns[0].len() <= u64::MAX,
        loadable(Some(encoded_files(columns))),
        chunk_columns(encoded_files(columns)) == columns,
    ensures
        holds(entry_of(columns, index, sums), Some(encoded_files(columns)), columns),
{
}

proof fn lemma_visible_join(
    t1: Seq<Sample>,
    v1: Seq<Sample>,
    t2: Seq<Sample>,
    v2: Seq<Sample>,
    x_min: Sample,
    x_max: Sample,
)
    requires
        t1.len() == v1.len(),
    ensures
        visible(t1 + t2, v1 + v2, x_min, x_max) == visible(t1, v1, x_min, x_max) + visible(
            t2,
            v2,
            x_min,
            x_max,
        ),
    decreases t2.len(),
{
    let all = visible(t1 + t2, v1 + v2, x_min, x_max);
    if t2.len() == 0 {
        assert(t1 + t2 =~= t1);
        lemma_visible_prefix(t1, v1, v1 + v2, x_min, x_max);
        assert(all =~= visible(t1, v1, x_min, x_max) + visible(t2, v2, x_min, x_max));
    } else {
        assert((t1 + t2).drop_last() =~= t1 + t2.drop_last());
        assert((t1 + t2).last() == t2.last());
        lemma_visible_join(t1, v1, t2.drop_last(), v2, x_min, x_max);
        assert(all =~= visible(t1, v1, x_min, x_max) + visible(t2, v2, x_min, x_max));
    }
}

/// Only the samples beside the instants matter.
proof fn lemma_visible_prefix(
    times: Seq<Sample>,
    a: Seq<Sample>,
    b: Seq<Sample>,
    x_min: Sample,
    x_max: Sample,
)
    requires
        times.len() <= a.len(),
        times.len() <= b.len(),
        forall|i: int| 0 <= i < times.len() ==> #[trigger] a[i] == b[i],
    ensures
        visible(times, a, x_min, x_max) == visible(times, b, x_min, x_max),
    decreases times.len(),
{
    if times.len() > 0 {
        lemma_visible_prefix(times.drop_last(), a, b, x_min, x_max);
        assert(a[times.len() - 1] == b[times.len() - 1]);
    }
}

/// Collecting chunk by chunk is collecting from the joined columns.
proof fn lemma_collected_joined(
    chunks: Seq<Seq<Seq<Sample>>>,
    ch: int,
    x_min: Sample,
    x_max: Sample,
)
    requires
        forall|k: int|
            0 <= k < chunks.len() ==> (#[trigger] chunks[k])[0].len() == chunks[k][ch + 1].len(),
    ensures
        collected(channel_parts(chunks, ch), x_min, x_max) == visible(
            joined(chunks, 0),
            joined(chunks, ch + 1),
            x_min,
            x_max,
        ),
        joined(chunks, 0).len() == joined(chunks, ch + 1).len(),
    decreases chunks.len(),
{
    let parts = channel_parts(chunks, ch);
    if chunks.len() > 0 {
        let head = chunks.drop_last();
        assert forall|k: int| 0 <= k < head.len() implies (#[trigger] head[k])[0].len()
            == head[k][ch + 1].len() by {
            assert(head[k] == chunks[k]);
        }
        lemma_collected_joined(head, ch, x_min, x_max);
        assert(parts.drop_last() =~= channel_parts(head, ch));
        let last = chunks[chunks.len() - 1];
        assert(last[0].len() == last[ch + 1].len());
        lemma_visible_join(
            joined(head, 0),
            joined(head, ch + 1),
            last[0],
            last[ch + 1],
            x_min,
            x_max,
        );
    }
}

/// A sample of a chunk stands among the joined samples, after those of the
/// chunks before it.
proof fn lemma_joined_at(chunks: Seq<Seq<Seq<Sample>>>, c: int, k: int, i: int)
    requires
        0 <= k < chunks.len(),
        0 <= i < chunks[k][c].len(),
    ensures
        joined(chunks.take(k), c).len() + chunks[k][c].len() == joined(chunks.take(k + 1), c).len(),
        joined(chunks.take(k + 1), c).len() <= joined(chunks, c).len(),
        joined(chunks, c)[joined(chunks.take(k), c).len() + i] == chunks[k][c][i],
    decreases chunks.len(),
{
    assert(chunks.take(k + 1).drop_last() =~= chunks.take(k));
    if k == chunks.len() - 1 {
        assert(chunks.take(k + 1) =~= chunks);
    } else {
        let head = chunks.drop_last();
        lemma_joined_at(head, c, k, i);
        assert(head.take(k) =~= chunks.take(k));
        assert(head.take(k + 1) =~= chunks.take(k + 1));
        assert(head[k] == chunks[k]);
    }
}

proof fn lemma_joined_grows(chunks: Seq<Seq<Seq<Sample>>>, c: int, k: int, l: int)
    requires
        0 <= k <= l <= chunks.len(),
    ensures
        joined(chunks.take(k), c).len() <= joined(chunks.take(l), c).len(),
    decreases l - k,
{
    if k < l {
        lemma_joined_grows(chunks, c, k, l - 1);
        assert(chunks.take(l).drop_last() =~= chunks.take(l - 1));
    }
}

proof fn lemma_among(times: Seq<Sample>, x: Sample)
    requires
        finite_samples(times).contains(x),
    ensures
        times.contains(x),
        finite(x),
    decreases times.len(),
{
    let f = finite_samples(times);
    let i = choose|i: int| 0 <= i < f.len() && f[i] == x;
    lemma_finite_samples_finite(times);
    assert(finite(f[i]));
    if times.len() > 0 {
        let head = times.drop_last();
        if finite(times.last()) && i == f.len() - 1 {
            assert(times[times.len() - 1] == x);
        } else {
            assert(finite_samples(head)[i] == x);
            lemma_among(head, x);
            let j = choose|j: int| 0 <= j < head.len() && head[j] == x;
            assert(times[j] == x);
        }
    }
}

/// Instants that ascend from row to row ascend from chunk to chunk.
proof fn lemma_chunks_ascend(chunks: Seq<Seq<Seq<Sample>>>, k: int, l: int, a: Sample, b: Sample)
    requires
        ascending_rows(chunks),
        0 <= k < l < chunks.len(),
        chunks[k][0].contains(a),
        chunks[l][0].contains(b),
        finite(a),
        finite(b),
    ensures
        at_most(a, b),
{
    let times = joined(chunks, 0);
    let i = choose|i: int| 0 <= i < chunks[k][0].len() && chunks[k][0][i] == a;
    let j = choose|j: int| 0 <= j < chunks[l][0].len() && chunks[l][0][j] == b;
    lemma_joined_at(chunks, 0, k, i);
    lemma_joined_at(chunks, 0, l, j);
    lemma_joined_grows(chunks, 0, k + 1, l);
    let p = joined(chunks.take(k), 0).len() + i;
    let q = joined(chunks.take(l), 0).len() + j;
    assert(times[p] == a && times[q] == b);
}

/// Chunks of rows whose instants ascend can be searched.
pub proof fn law_ascending_rows_searchable(chunks: Seq<Seq<Seq<Sample>>>)
    requires
        ascending_rows(chunks),
    ensures
        searchable(chunks),
{
    assert forall|k: int, l: int| 0 <= k <= l < chunks.len() implies in_order(
        #[trigger] chunks[k],
        #[trigger] chunks[l],
    ) by {
        let (a, b) = (chunks[k][0], chunks[l][0]);
        let (f, g) = (finite_samples(a), finite_samples(b));
        lemma_finite_samples_finite(a);
        lemma_finite_samples_finite(b);
        lemma_extremes(f);
        lemma_extremes(g);
        assert(f.len() > 0 && g.len() > 0);
        lemma_among(a, least(f));
        lemma_among(a, greatest(f));
        lemma_among(b, least(g));
        lemma_among(b, greatest(g));
        if k < l {
            lemma_chunks_ascend(chunks, k, l, least(f), least(g));
            lemma_chunks_ascend(chunks, k, l, greatest(f), greatest(g));
        }
    }
}

/// The entries of searchable chunks are in time order.
proof fn lemma_entries_ordered(
    entries: Seq<EntryView>,
    disk: Disk,
    chunks: Seq<Seq<Seq<Sample>>>,
)
    requires
        searchable(chunks),
        entries.len() == chunks.len(),
        disk.len() == chunks.len(),
        forall|k: int| 0 <= k < chunks.len() ==> holds(entries[k], disk[k], #[trigger] chunks[k]),
    ensures
        forall|i: int, j: int|
            0 <= i <= j < entries.len() ==> at_most(
                (#[trigger] entries[i]).t_min,
                (#[trigger] entries[j]).t_min,
            ) && at_most(entries[i].t_max, entries[j].t_max),
{
    assert forall|i: int, j: int| 0 <= i <= j < entries.len() implies at_most(
        (#[trigger] entries[i]).t_min,
        (#[trigger] entries[j]).t_min,
    ) && at_most(entries[i].t_max, entries[j].t_max) by {
        assert(holds(entries[i], disk[i], chunks[i]));
        assert(holds(entries[j], disk[j], chunks[j]));
        assert(in_order(chunks[i], chunks[j]));
    }
}

proof fn lemma_none_visible(times: Seq<Sample>, values: Seq<Sample>, x_min: Sample, x_max: Sample)
    requires
        forall|i: int| 0 <= i < times.len() ==> !within(#[trigger] times[i], x_min, x_max),
    ensures
        visible(times, values, x_min, x_max) == Seq::<Point>::empty(),
    decreases times.len(),
{
    if times.len() > 0 {
        assert(!within(times[times.len() - 1], x_min, x_max));
        lemma_none_visible(times.drop_last(), values, x_min, x_max);
    }
}

/// A chunk outside the range has no sample in view.
proof fn lemma_outside(
    e: EntryView,
    columns: Seq<Seq<Sample>>,
    ch: int,
    x_min: Sample,
    x_max: Sample,
)
    requires
        e.t_min == least(finite_samples(columns[0])),
        e.t_max == greatest(finite_samples(columns[0])),
        forall|i: int|
            0 <= i < columns[0].len() ==> finite(#[trigger] columns[0][i]) || nan(columns[0][i]),
        ends_before(e, x_min) || !begins_by(e, x_max),
    ensures
        visible(columns[0], columns[ch + 1], x_min, x_max) == Seq::<Point>::empty(),
{
    let f = finite_samples(columns[0]);
    lemma_finite_samples_finite(columns[0]);
    lemma_extremes(f);
    assert forall|i: int| 0 <= i < columns[0].len() implies !within(
        #[trigger] columns[0][i],
        x_min,
        x_max,
    ) by {
        if finite(columns[0][i]) {
            lemma_among_finite(columns[0], i);
            let k = choose|k: int| 0 <= k < f.len() && f[k] == columns[0][i];
            assert(at_most(least(f), f[k]) && at_most(f[k], greatest(f)));
        }
    }
    lemma_none_visible(columns[0], columns[ch + 1], x_min, x_max);
}

/// Chunks outside a range that have nothing in view can be left out.
proof fn lemma_collected_between(
    chunks: Seq<Seq<Seq<Sample>>>,
    ch: int,
    x_min: Sample,
    x_max: Sample,
    start: int,
    end: int,
    m: int,
)
    requires
        0 <= start <= chunks.len(),
        0 <= end <= chunks.len(),
        0 <= m <= chunks.len(),
        forall|k: int|
            0 <= k < chunks.len() && !(start <= k < end) ==> visible(
                (#[trigger] chunks[k])[0],
                chunks[k][ch + 1],
                x_min,
                x_max,
            ) == Seq::<Point>::empty(),
    ensures
        ({
            let last = if m < end {
                m
            } else {
                end
            };
            collected(channel_parts(chunks.take(m), ch), x_min, x_max) == if start < last {
                collected(channel_parts(chunks.subrange(start, last), ch), x_min, x_max)
            } else {
                Seq::<Point>::empty()
            }
        }),
    decreases m,
{
    let parts = channel_parts(chunks.take(m), ch);
    if m > 0 {
        lemma_collected_between(chunks, ch, x_min, x_max, start, end, m - 1);
        assert(parts.drop_last() =~= channel_parts(chunks.take(m - 1), ch));
        assert(parts.last() == column_part(chunks[m - 1], ch));
        if start <= m - 1 < end {
            let inner = channel_parts(chunks.subrange(start, m), ch);
            assert(inner.drop_last() =~= channel_parts(chunks.subrange(start, m - 1), ch));
            assert(inner.last() == column_part(chunks[m - 1], ch));
            if start == m - 1 {
                assert(inner.drop_last() =~= Seq::empty());
                assert(collected(inner.drop_last(), x_min, x_max) =~= Seq::<Point>::empty());
            }
            assert(collected(parts, x_min, x_max) =~= collected(inner, x_min, x_max));
        } else {
            assert(collected(parts, x_min, x_max) =~= collected(parts.drop_last(), x_min, x_max));
        }
    }
}

/// The samples in view of all rows are those of the chunks that overlap the
/// range.
proof fn lemma_shown_between(
    entries: Seq<EntryView>,
    disk: Disk,
    chunks: Seq<Seq<Seq<Sample>>>,
    ch: int,
    x_min: Sample,
    x_max: Sample,
)
    requires
        stored(entries, disk, chunks, ch),
        searchable(chunks),
    ensures
        ({
            let (start, end) = range_of(entries, x_min, x_max);
            &&& 0 <= start <= chunks.len()
            &&& 0 <= end <= chunks.len()
            &&& visible(joined(chunks, 0), joined(chunks, ch + 1), x_min, x_max) == if start < end {
                collected(channel_parts(chunks.subrange(start, end), ch), x_min, x_max)
            } else {
                Seq::<Point>::empty()
            }
        }),
{
    let n = chunks.len() as int;
    let (start, end) = range_of(entries, x_min, x_max);
    lemma_cut(ended(entries, x_min), 0, n);
    lemma_cut(begun(entries, x_max), 0, n);
    lemma_entries_ordered(entries, disk, chunks);
    assert forall|k: int| 0 <= k < n && !(start <= k < end) implies visible(
        (#[trigger] chunks[k])[0],
        chunks[k][ch + 1],
        x_min,
        x_max,
    ) == Seq::<Point>::empty() by {
        assert(holds(entries[k], disk[k], chunks[k]));
        law_range_overlaps(entries, x_min, x_max, k);
        assert forall|i: int| 0 <= i < chunks[k][0].len() implies finite(
            #[trigger] chunks[k][0][i],
        ) || nan(chunks[k][0][i]) by {
            lemma_joined_at(chunks, 0, k, i);
        }
        lemma_outside(entries[k], chunks[k], ch, x_min, x_max);
    }
    lemma_collected_joined(chunks, ch, x_min, x_max);
    lemma_collected_between(chunks, ch, x_min, x_max, start, end, n);
    assert(chunks.take(n) =~= chunks);
}

/// A query looks at all rows: the points of a channel are those of the envelope
/// of its samples in view, as many as are wanted, whatever chunks the rows were
/// put into.
pub proof fn law_gathered_rows_answered(
    entries: Seq<EntryView>,
    disk: Disk,
    chunks: Seq<Seq<Seq<Sample>>>,
    ch: int,
    x_min: Sample,
    x_max: Sample,
    max_points: nat,
)
    requires
        stored(entries, disk, chunks, ch),
        searchable(chunks),
        !at_most(x_max, x_min),
        max_points > 0,
    ensures
        stored_points(entries, disk, ch, x_min, x_max, max_points) == fitted(
            bars(
                visible(joined(chunks, 0), joined(chunks, ch + 1), x_min, x_max),
                query_stride(entries, x_min, x_max, max_points) as nat,
            ),
            max_points,
        ),
{
    let (start, end) = range_of(entries, x_min, x_max);
    lemma_shown_between(entries, disk, chunks, ch, x_min, x_max);
    if start < end {
        assert forall|k: int| start <= k < end implies loadable(#[trigger] disk[k])
            && chunk_columns(disk[k].unwrap()) == chunks[k] by {
            assert(holds(entries[k], disk[k], chunks[k]));
        }
        lemma_stored_columns(disk, chunks, start, end);
    }
}

/// What was gathered is shown: where the chunks that overlap the range have fewer
/// rows than twice the bins wanted, the points of a channel are its samples in
/// view, one for each row, in order.
pub proof fn law_gathered_rows_shown(
    entries: Seq<EntryView>,
    disk: Disk,
    chunks: Seq<Seq<Seq<Sample>>>,
    ch: int,
    x_min: Sample,
    x_max: Sample,
    max_points: nat,
)
    requires
        stored(entries, disk, chunks, ch),
        searchable(chunks),
        !at_most(x_max, x_min),
        max_points > 0,
        ({
            let (start, end) = range_of(entries, x_min, x_max);
            let rows = rows_between(entries, start, end);
            rows <= 1 || rows < 2 * (max_points as int / 2)
        }),
    ensures
        stored_points(entries, disk, ch, x_min, x_max, max_points) == visible(
            joined(chunks, 0),
            joined(chunks, ch + 1),
            x_min,
            x_max,
        ),
{
    let (start, end) = range_of(entries, x_min, x_max);
    lemma_shown_between(entries, disk, chunks, ch, x_min, x_max);
    if start < end {
        assert forall|k: int| start <= k < end implies {
            &&& loadable(#[trigger] disk[k])
            &&& chunk_columns(disk[k].unwrap()) == chunks[k]
            &&& chunks[k][0].len() == entries[k].row_count
        } by {
            assert(holds(entries[k], disk[k], chunks[k]));
        }
        law_written_samples_shown(entries, disk, chunks, ch, x_min, x_max, max_points);
    }
}

/// Peaks of what was gathered are shown: every sample in view lies between two
/// values that are shown, however many rows there are, if two points or more are
/// wanted.
pub proof fn law_gathered_peaks_shown(
    entries: Seq<EntryView>,
    disk: Disk,
    chunks: Seq<Seq<Seq<Sample>>>,
    ch: int,
    x_min: Sample,
    x_max: Sample,
    max_points: nat,
    i: int,
)
    requires
        stored(entries, disk, chunks, ch),
        searchable(chunks),
        !at_most(x_max, x_min),
        max_points >= 2,
        ({
            let samples = visible(joined(chunks, 0), joined(chunks, ch + 1), x_min, x_max);
            &&& forall|k: int| 0 <= k < samples.len() ==> !nan((#[trigger] samples[k]).v)
            &&& 0 <= i < samples.len()
        }),
    ensures
        bracketed(
            stored_points(entries, disk, ch, x_min, x_max, max_points),
            visible(joined(chunks, 0), joined(chunks, ch + 1), x_min, x_max)[i].v,
        ),
{
    let (start, end) = range_of(entries, x_min, x_max);
    lemma_shown_between(entries, disk, chunks, ch, x_min, x_max);
    assert forall|k: int| start <= k < end implies loadable(#[trigger] disk[k]) && chunk_columns(
        disk[k].unwrap(),
    ) == chunks[k] && chunks[k][0].len() == entries[k].row_count by {
        assert(holds(entries[k], disk[k], chunks[k]));
    }
    lemma_stored_columns(disk, chunks, start, end);
    law_stored_points_keep_peaks(entries, disk, ch, x_min, x_max, max_points, i);
}

// ---------------------------------------------------------------------------
// Aggregates
// ---------------------------------------------------------------------------

proof fn lemma_counted_join(
    t1: Seq<Sample>,
    v1: Seq<Sample>,
    t2: Seq<Sample>,
    v2: Seq<Sample>,
    x_min: Sample,
    x_max: Sample,
)
    requires
        t1.len() == v1.len(),
    ensures
        counted(t1 + t2, v1 + v2, x_min, x_max) == counted(t1, v1, x_min, x_max) + counted(
            t2,
            v2,
            x_min,
            x_max,
        ),
    decreases t2.len(),
{
    let all = counted(t1 + t2, v1 + v2, x_min, x_max);
    if t2.len() == 0 {
        assert(t1 + t2 =~= t1);
        lemma_counted_prefix(t1, v1, v1 + v2, x_min, x_max);
        assert(all =~= counted(t1, v1, x_min, x_max) + counted(t2, v2, x_min, x_max));
    } else {
        assert((t1 + t2).drop_last() =~= t1 + t2.drop_last());
        assert((t1 + t2).last() == t2.last());
        lemma_counted_join(t1, v1, t2.drop_last(), v2, x_min, x_max);
        assert(all =~= counted(t1, v1, x_min, x_max) + counted(t2, v2, x_min, x_max));
    }
}

/// Only the samples beside the instants matter.
proof fn lemma_counted_prefix(
    times: Seq<Sample>,
    a: Seq<Sample>,
    b: Seq<Sample>,
    x_min: Sample,
    x_max: Sample,
)
    requires
        times.len() <= a.len(),
        times.len() <= b.len(),
        forall|i: int| 0 <= i < times.len() ==> #[trigger] a[i] == b[i],
    ensures
        counted(times, a, x_min, x_max) == counted(times, b, x_min, x_max),
    decreases times.len(),
{
    if times.len() > 0 {
        lemma_counted_prefix(times.drop_last(), a, b, x_min, x_max);
        assert(a[times.len() - 1] == b[times.len() - 1]);
    }
}

proof fn lemma_none_counted(times: Seq<Sample>, values: Seq<Sample>, x_min: Sample, x_max: Sample)
    requires
        forall|i: int| 0 <= i < times.len() ==> !reached(#[trigger] times[i], x_min, x_max),
    ensures
        counted(times, values, x_min, x_max) == Seq::<Sample>::empty(),
    decreases times.len(),
{
    if times.len() > 0 {
        assert(!reached(times[times.len() - 1], x_min, x_max));
        lemma_none_counted(times.drop_last(), values, x_min, x_max);
    }
}

/// Counting goes on where it stopped.
proof fn lemma_from_join(min: Sample, max: Sample, a: Seq<Sample>, b: Seq<Sample>)
    ensures
        least_from(least_from(min, a), b) == least_from(min, a + b),
        greatest_from(greatest_from(max, a), b) == greatest_from(max, a + b),
    decreases b.len(),
{
    if b.len() == 0 {
        assert(a + b =~= a);
    } else {
        lemma_from_join(min, max, a, b.drop_last());
        assert((a + b).drop_last() =~= a + b.drop_last());
        assert((a + b).last() == b.last());
    }
}

/// The finite samples that count of a channel, chunk after chunk.
spec fn tallied(
    chunks: Seq<Seq<Seq<Sample>>>,
    ch: int,
    x_min: Sample,
    x_max: Sample,
    start: int,
    end: int,
) -> Seq<Sample>
    decreases end - start,
{
    if start >= end {
        Seq::empty()
    } else {
        tallied(chunks, ch, x_min, x_max, start, end - 1) + counted(
            chunks[end - 1][0],
            chunks[end - 1][ch + 1],
            x_min,
            x_max,
        )
    }
}

proof fn lemma_total_tallied(
    entries: Seq<EntryView>,
    disk: Disk,
    chunks: Seq<Seq<Seq<Sample>>>,
    ch: int,
    x_min: Sample,
    x_max: Sample,
    start: int,
    end: int,
)
    requires
        stored(entries, disk, chunks, ch),
        0 <= start,
        end <= chunks.len(),
    ensures
        stored_total(entries, disk, false, ch, x_min, x_max, start, end) == grown(
            no_extent(),
            Contribution::Samples(tallied(chunks, ch, x_min, x_max, start, end)),
        ),
    decreases end - start,
{
    if start < end {
        lemma_total_tallied(entries, disk, chunks, ch, x_min, x_max, start, end - 1);
        assert(holds(entries[end - 1], disk[end - 1], chunks[end - 1]));
        lemma_from_join(
            no_extent().min,
            no_extent().max,
            tallied(chunks, ch, x_min, x_max, start, end - 1),
            counted(chunks[end - 1][0], chunks[end - 1][ch + 1], x_min, x_max),
        );
    }
}

proof fn lemma_tallied_joined(
    chunks: Seq<Seq<Seq<Sample>>>,
    ch: int,
    x_min: Sample,
    x_max: Sample,
    start: int,
    end: int,
    m: int,
)
    requires
        0 <= start <= chunks.len(),
        0 <= end <= chunks.len(),
        0 <= m <= chunks.len(),
        forall|k: int|
            0 <= k < chunks.len() ==> (#[trigger] chunks[k])[0].len() == chunks[k][ch + 1].len(),
        forall|k: int|
            0 <= k < chunks.len() && !(start <= k < end) ==> counted(
                (#[trigger] chunks[k])[0],
                chunks[k][ch + 1],
                x_min,
                x_max,
            ) == Seq::<Sample>::empty(),
    ensures
        joined(chunks.take(m), 0).len() == joined(chunks.take(m), ch + 1).len(),
        counted(joined(chunks.take(m), 0), joined(chunks.take(m), ch + 1), x_min, x_max)
            == tallied(
            chunks,
            ch,
            x_min,
            x_max,
            start,
            if m < end {
                m
            } else {
                end
            },
        ),
    decreases m,
{
    if m > 0 {
        lemma_tallied_joined(chunks, ch, x_min, x_max, start, end, m - 1);
        assert(chunks.take(m).drop_last() =~= chunks.take(m - 1));
        assert(chunks.take(m).last() == chunks[m - 1]);
        let (t, v) = (chunks[m - 1][0], chunks[m - 1][ch + 1]);
        let (t1, v1) = (joined(chunks.take(m - 1), 0), joined(chunks.take(m - 1), ch + 1));
        lemma_counted_join(t1, v1, t, v, x_min, x_max);
        if !(start <= m - 1 < end) {
            assert(counted(t1, v1, x_min, x_max) + Seq::<Sample>::empty() =~= counted(
                t1,
                v1,
                x_min,
                x_max,
            ));
        }
    }
}

/// Aggregates speak of all rows: the extremes and the count of a channel are
/// those of its finite samples whose instants are not outside the range,
/// whatever chunks they were put into, whichever chunks were decoded for it, and
/// whether or not the index has aggregates of the channel.  The instants of all
/// rows are finite here.
pub proof fn law_gathered_rows_counted(
    entries: Seq<EntryView>,
    disk: Disk,
    chunks: Seq<Seq<Seq<Sample>>>,
    have_stats: bool,
    ch: int,
    x_min: Sample,
    x_max: Sample,
)
    requires
        stored(entries, disk, chunks, ch),
        searchable(chunks),
        forall|i: int| 0 <= i < joined(chunks, 0).len() ==> finite(#[trigger] joined(chunks, 0)[i]),
        forall|k: int|
            0 <= k < chunks.len() && ch < entries[k].stats.len() ==> faithful(
                entries[k],
                #[trigger] disk[k],
                ch,
            ),
        !nan(x_max),
    ensures
        ({
            let (start, end) = range_of(entries, x_min, x_max);
            stored_total(entries, disk, have_stats, ch, x_min, x_max, start, end) == grown(
                no_extent(),
                Contribution::Samples(
                    counted(joined(chunks, 0), joined(chunks, ch + 1), x_min, x_max),
                ),
            )
        }),
{
    let n = chunks.len() as int;
    let (start, end) = range_of(entries, x_min, x_max);
    lemma_cut(ended(entries, x_min), 0, n);
    lemma_cut(begun(entries, x_max), 0, n);
    lemma_entries_ordered(entries, disk, chunks);
    assert forall|k: int| 0 <= k < n && !(start <= k < end) implies counted(
        (#[trigger] chunks[k])[0],
        chunks[k][ch + 1],
        x_min,
        x_max,
    ) == Seq::<Sample>::empty() by {
        let times = chunks[k][0];
        let f = finite_samples(times);
        assert(holds(entries[k], disk[k], chunks[k]));
        law_range_overlaps(entries, x_min, x_max, k);
        lemma_finite_samples_finite(times);
        lemma_extremes(f);
        assert forall|i: int| 0 <= i < times.len() implies !reached(
            #[trigger] times[i],
            x_min,
            x_max,
        ) by {
            lemma_joined_at(chunks, 0, k, i);
            lemma_among_finite(times, i);
            let j = choose|j: int| 0 <= j < f.len() && f[j] == times[i];
            assert(at_most(least(f), f[j]) && at_most(f[j], greatest(f)));
        }
        lemma_none_counted(times, chunks[k][ch + 1], x_min, x_max);
    }
    lemma_tallied_joined(chunks, ch, x_min, x_max, start, end, n);
    assert(chunks.take(n) =~= chunks);
    lemma_total_tallied(entries, disk, chunks, ch, x_min, x_max, start, end);
    law_total_counts_samples(entries, disk, ch, x_min, x_max, start, end);
}

/// Counting from no sample is looking at all of them.
proof fn lemma_from_none(f: Seq<Sample>)
    ensures
        least_from(INFINITY, f) == least(f),
        greatest_from(NEG_INFINITY, f) == greatest(f),
    decreases f.len(),
{
    if f.len() > 0 {
        lemma_from_none(f.drop_last());
    }
}

/// A query for aggregates that has visited its chunks has the extremes and the
/// count of the finite samples of all rows in the range, or of none where the
/// range is empty; with that, its result depends neither on the chunks nor on
/// whether the index has aggregates.
pub proof fn law_statistics_of_rows(
    q: StatsQuery,
    entries: Seq<EntryView>,
    disk: Disk,
    chunks: Seq<Seq<Seq<Sample>>>,
)
    requires
        stored(entries, disk, chunks, q.channel()),
        searchable(chunks),
        forall|i: int| 0 <= i < joined(chunks, 0).len() ==> finite(#[trigger] joined(chunks, 0)[i]),
        forall|k: int|
            0 <= k < chunks.len() && q.channel() < entries[k].stats.len() ==> faithful(
                entries[k],
                #[trigger] disk[k],
                q.channel(),
            ),
        !nan(q.range().1),
        ({
            let (x_min, x_max) = q.range();
            let (start, end) = range_of(entries, x_min, x_max);
            if overlapping(entries, x_min, x_max) {
                q.tracks(entries, disk, start) && q.next() == end
            } else {
                q.total() == no_extent()
            }
        }),
    ensures
        ({
            let (x_min, x_max) = q.range();
            let samples = if at_most(x_max, x_min) {
                Seq::empty()
            } else {
                counted(joined(chunks, 0), joined(chunks, q.channel() + 1), x_min, x_max)
            };
            &&& q.total().count == samples.len()
            &&& q.total().min == least(samples)
            &&& q.total().max == greatest(samples)
        }),
{
    let (x_min, x_max) = q.range();
    let ch = q.channel();
    law_gathered_rows_counted(entries, disk, chunks, q.have_stats(), ch, x_min, x_max);
    lemma_from_none(counted(joined(chunks, 0), joined(chunks, ch + 1), x_min, x_max));
}

// ---------------------------------------------------------------------------
// From text to points
// ---------------------------------------------------------------------------

/// A column of the well-formed rows of a text, each field read as a number.
pub open spec fn column_of(
    rows: Seq<Option<Seq<Seq<u8>>>>,
    read: spec_fn(Seq<u8>) -> Sample,
    c: int,
) -> Seq<Sample>
    decreases rows.len(),
{
    if rows.len() == 0 {
        Seq::empty()
    } else {
        let earlier = column_of(rows.drop_last(), read, c);
        match rows.last() {
            Some(fields) => earlier.push(read(fields[c])),
            None => earlier,
        }
    }
}

/// Instants of a recording: finite, in time order, and not all the same.
pub open spec fn recorded(times: Seq<Sample>) -> bool {
    &&& forall|i: int| 0 <= i < times.len() ==> finite(#[trigger] times[i])
    &&& forall|i: int, j: int|
        0 <= i <= j < times.len() ==> at_most(#[trigger] times[i], #[trigger] times[j])
    &&& times.len() > 0
    &&& below(times[0], times.last())
}

/// The points of a table with a column of instants and a column of samples.
pub open spec fn table_points(times: Seq<Sample>, values: Seq<Sample>) -> Seq<Point> {
    Seq::new(times.len(), |i: int| Point { t: times[i], v: values[i] })
}

proof fn lemma_column_len(rows: Seq<Option<Seq<Seq<u8>>>>, read: spec_fn(Seq<u8>) -> Sample, c: int)
    ensures
        column_of(rows, read, c).len() == well_formed(rows),
    decreases rows.len(),
{
    if rows.len() > 0 {
        lemma_column_len(rows.drop_last(), read, c);
        lemma_well_formed_last(rows);
    }
}

proof fn lemma_well_formed_last(rows: Seq<Option<Seq<Seq<u8>>>>)
    requires
        rows.len() > 0,
    ensures
        well_formed(rows) == well_formed(rows.drop_last()) + if rows.last() is Some {
            1nat
        } else {
            0nat
        },
    decreases rows.len(),
{
    if rows.len() > 1 {
        lemma_well_formed_last(rows.drop_first());
        assert(rows.drop_first().drop_last() =~= rows.drop_last().drop_first());
    } else {
        assert(rows.drop_first() =~= rows.drop_last());
        assert(well_formed(rows.drop_first()) == 0);
    }
}

proof fn lemma_column_join(
    a: Seq<Option<Seq<Seq<u8>>>>,
    b: Seq<Option<Seq<Seq<u8>>>>,
    read: spec_fn(Seq<u8>) -> Sample,
    c: int,
)
    ensures
        column_of(a + b, read, c) == column_of(a, read, c) + column_of(b, read, c),
    decreases b.len(),
{
    if b.len() == 0 {
        assert(a + b =~= a);
        assert(column_of(a, read, c) + column_of(b, read, c) =~= column_of(a, read, c));
    } else {
        lemma_column_join(a, b.drop_last(), read, c);
        assert((a + b).drop_last() =~= a + b.drop_last());
        assert((a + b).last() == b.last());
        assert(column_of(a + b, read, c) =~= column_of(a, read, c) + column_of(b, read, c));
    }
}

proof fn lemma_joined_join(a: Seq<Seq<Seq<Sample>>>, b: Seq<Seq<Seq<Sample>>>, c: int)
    ensures
        joined(a + b, c) == joined(a, c) + joined(b, c),
    decreases b.len(),
{
    if b.len() == 0 {
        assert(a + b =~= a);
        assert(joined(a, c) + joined(b, c) =~= joined(a, c));
    } else {
        lemma_joined_join(a, b.drop_last(), c);
        assert((a + b).drop_last() =~= a + b.drop_last());
        assert((a + b).last() == b.last());
        assert(joined(a + b, c) =~= joined(a, c) + joined(b, c));
    }
}

proof fn lemma_all_finite(times: Seq<Sample>)
    requires
        forall|i: int| 0 <= i < times.len() ==> finite(#[trigger] times[i]),
    ensures
        finite_samples(times) == times,
    decreases times.len(),
{
    if times.len() > 0 {
        let head = times.drop_last();
        assert forall|i: int| 0 <= i < head.len() implies finite(#[trigger] head[i]) by {
            assert(head[i] == times[i]);
        }
        lemma_all_finite(head);
        assert(finite(times[times.len() - 1]));
        assert(head.push(times.last()) =~= times);
    } else {
        assert(finite_samples(times) =~= times);
    }
}

proof fn lemma_all_visible(times: Seq<Sample>, values: Seq<Sample>, x_min: Sample, x_max: Sample)
    requires
        times.len() <= values.len(),
        forall|i: int| 0 <= i < times.len() ==> within(#[trigger] times[i], x_min, x_max),
    ensures
        visible(times, values, x_min, x_max) == table_points(times, values),
    decreases times.len(),
{
    if times.len() > 0 {
        let head = times.drop_last();
        assert forall|i: int| 0 <= i < head.len() implies within(#[trigger] head[i], x_min, x_max) by {
            assert(head[i] == times[i]);
        }
        lemma_all_visible(head, values, x_min, x_max);
        assert(within(times[times.len() - 1], x_min, x_max));
    }
    assert(visible(times, values, x_min, x_max) =~= table_points(times, values));
}

/// A part of the chunks has no more rows than all of them.
proof fn lemma_rows_part(entries: Seq<EntryView>, start: int, end: int)
    requires
        0 <= start,
        end <= entries.len(),
    ensures
        0 <= rows_between(entries, start, end) <= rows_between(entries, 0, entries.len() as int),
{
    lemma_rows_counted(entries, start, end);
    if start < end {
        lemma_rows_counted(entries, 0, start);
        lemma_rows_add(entries, start, end);
        lemma_rows_add(entries, end, entries.len() as int);
        lemma_rows_counted(entries, end, entries.len() as int);
    } else {
        lemma_rows_counted(entries, 0, entries.len() as int);
    }
}

proof fn lemma_rows_counted(entries: Seq<EntryView>, start: int, end: int)
    ensures
        rows_between(entries, start, end) >= 0,
    decreases end - start,
{
    if start < end {
        lemma_rows_counted(entries, start, end - 1);
    }
}

proof fn lemma_rows_add(entries: Seq<EntryView>, mid: int, end: int)
    requires
        0 <= mid <= end,
    ensures
        rows_between(entries, 0, end) == rows_between(entries, 0, mid) + rows_between(
            entries,
            mid,
            end,
        ),
    decreases end - mid,
{
    if mid < end {
        lemma_rows_add(entries, mid, end - 1);
    }
}

/// The rows that the entries count are those of the joined columns.
proof fn lemma_rows_joined(
    entries: Seq<EntryView>,
    disk: Disk,
    chunks: Seq<Seq<Seq<Sample>>>,
    m: int,
)
    requires
        0 <= m <= chunks.len(),
        entries.len() == chunks.len(),
        forall|k: int| 0 <= k < chunks.len() ==> holds(entries[k], disk[k], #[trigger] chunks[k]),
    ensures
        rows_between(entries, 0, m) == joined(chunks.take(m), 0).len(),
    decreases m,
{
    if m > 0 {
        lemma_rows_joined(entries, disk, chunks, m - 1);
        assert(chunks.take(m).drop_last() =~= chunks.take(m - 1));
        assert(holds(entries[m - 1], disk[m - 1], chunks[m - 1]));
    }
}

/// Rows that were put into chunks are shown as they are by a query over the
/// whole range: one point for each row, in order, with the instant and the
/// sample that its fields were read as.
pub proof fn law_rows_shown(
    rows: Seq<Option<Seq<Seq<u8>>>>,
    read: spec_fn(Seq<u8>) -> Sample,
    entries: Seq<EntryView>,
    disk: Disk,
    chunks: Seq<Seq<Seq<Sample>>>,
    n_cols: nat,
    ch: int,
    max_points: nat,
)
    requires
        stored(entries, disk, chunks, ch),
        forall|k: int| 0 <= k < chunks.len() ==> chunk_shaped(#[trigger] chunks[k], n_cols),
        joined(chunks, 0) == column_of(rows, read, 0),
        joined(chunks, ch + 1) == column_of(rows, read, ch + 1),
        recorded(column_of(rows, read, 0)),
        well_formed(rows) <= 1 || well_formed(rows) < 2 * (max_points as int / 2),
        max_points > 0,
    ensures
        ({
            let times = column_of(rows, read, 0);
            &&& times.len() == well_formed(rows)
            &&& stored_points(
                entries,
                disk,
                ch,
                least(finite_samples(times)),
                greatest(finite_samples(times)),
                max_points,
            ) == table_points(times, column_of(rows, read, ch + 1))
        }),
{
    let (times, values) = (column_of(rows, read, 0), column_of(rows, read, ch + 1));
    let (x_min, x_max) = (least(finite_samples(times)), greatest(finite_samples(times)));
    let n = chunks.len() as int;
    lemma_column_len(rows, read, 0);
    lemma_column_len(rows, read, ch + 1);
    lemma_all_finite(times);
    lemma_extremes(times);
    assert(at_most(x_min, times[0]) && at_most(times[times.len() - 1], x_max));
    assert forall|i: int| 0 <= i < times.len() implies within(#[trigger] times[i], x_min, x_max) by {
        assert(at_most(least(times), times[i]) && at_most(times[i], greatest(times)));
    }
    lemma_all_visible(times, values, x_min, x_max);
    assert forall|k: int| 0 <= k < n implies finite_samples((#[trigger] chunks[k])[0]).len() > 0 by {
        assert(chunk_shaped(chunks[k], n_cols));
        lemma_joined_at(chunks, 0, k, 0);
        assert(finite(times[joined(chunks.take(k), 0).len() as int]));
        lemma_among_finite(chunks[k][0], 0);
    }
    law_ascending_rows_searchable(chunks);
    assert forall|k: int| 0 <= k < n implies holds(entries[k], disk[k], #[trigger] chunks[k]) by {}
    lemma_rows_joined(entries, disk, chunks, n);
    assert(chunks.take(n) =~= chunks);
    let (start, end) = range_of(entries, x_min, x_max);
    lemma_cut(ended(entries, x_min), 0, n);
    lemma_cut(begun(entries, x_max), 0, n);
    lemma_rows_part(entries, start, end);
    law_gathered_rows_shown(entries, disk, chunks, ch, x_min, x_max, max_points);
}

/// Files hold the chunks that were taken, as `ChunkWriter::take_chunk` promises
/// where every channel can be stored.
pub open spec fn written(disk: Disk, chunks: Seq<Seq<Seq<Sample>>>) -> bool {
    &&& disk.len() == chunks.len()
    &&& forall|k: int|
        0 <= k < chunks.len() ==> loadable(#[trigger] disk[k]) && chunk_columns(disk[k].unwrap())
            == chunks[k]
}

/// The rows of a text that was converted in one go are shown as they are by a
/// query over the whole range.
///
/// `rows` are the rows of the text, `read` tells how a field is read as a
/// number, and `w` gathered them all.
pub proof fn law_file_rows_shown(
    rows: Seq<Option<Seq<Seq<u8>>>>,
    read: spec_fn(Seq<u8>) -> Sample,
    w: ChunkWriter,
    disk: Disk,
    ch: int,
    max_points: nat,
)
    requires
        w.wf(),
        w.complete(),
        forall|c: int|
            0 <= c < w.pending().len() ==> #[trigger] w.gathered()[c] == column_of(rows, read, c),
        written(disk, w.taken()),
        0 <= ch < w.pending().len() - 1,
        recorded(column_of(rows, read, 0)),
        well_formed(rows) <= 1 || well_formed(rows) < 2 * (max_points as int / 2),
        max_points > 0,
    ensures
        ({
            let times = column_of(rows, read, 0);
            &&& w.times().len() == well_formed(rows)
            &&& stored_points(
                entry_views(w.entries()),
                disk,
                ch,
                least(finite_samples(w.times())),
                greatest(finite_samples(w.times())),
                max_points,
            ) == table_points(times, column_of(rows, read, ch + 1))
        }),
{
    let chunks = w.taken();
    let entries = entry_views(w.entries());
    let n_cols = w.pending().len();
    law_rows_kept(w);
    law_chunks_numbered(w);
    assert forall|c: int| 0 <= c < n_cols implies joined(chunks, c) == column_of(rows, read, c) by {
        assert(w.gathered()[c] == column_of(rows, read, c));
        assert(w.pending()[c].len() == 0);
        assert(joined(chunks, c) + w.pending()[c] =~= joined(chunks, c));
    }
    assert(w.gathered()[0] == column_of(rows, read, 0));
    assert forall|k: int| 0 <= k < chunks.len() implies {
        &&& holds(entries[k], disk[k], #[trigger] chunks[k])
        &&& ch + 1 < chunks[k].len()
        &&& chunks[k][0].len() == chunks[k][ch + 1].len()
    } by {
        assert(loadable(disk[k]));
        assert(chunk_shaped(chunks[k], n_cols));
        assert(entries[k] == w.entries()[k]@);
    }
    law_rows_shown(rows, read, entries, disk, chunks, n_cols, ch, max_points);
}

/// The chunks that several writers took, one after the other.
pub open spec fn all_taken(ws: Seq<ChunkWriter>) -> Seq<Seq<Seq<Sample>>>
    decreases ws.len(),
{
    if ws.len() == 0 {
        Seq::empty()
    } else {
        all_taken(ws.drop_last()) + ws.last().taken()
    }
}

/// The chunks of the segments have the columns of the rows of the segments.
proof fn lemma_segments_joined(
    data: Seq<u8>,
    starts: Seq<int>,
    n_cols: nat,
    read: spec_fn(Seq<u8>) -> Sample,
    ws: Seq<ChunkWriter>,
    m: int,
    c: int,
)
    requires
        0 <= m <= ws.len(),
        ws.len() == starts.len(),
        0 <= c < n_cols,
        forall|p: int|
            0 <= p < ws.len() ==> segment_gathered(data, starts, n_cols, read, #[trigger] ws[p], p),
    ensures
        joined(all_taken(ws.take(m)), c) == column_of(
            rows_by_segment(data, starts, m, n_cols),
            read,
            c,
        ),
    decreases m,
{
    if m > 0 {
        lemma_segments_joined(data, starts, n_cols, read, ws, m - 1, c);
        assert(ws.take(m).drop_last() =~= ws.take(m - 1));
        let w = ws[m - 1];
        assert(segment_gathered(data, starts, n_cols, read, w, m - 1));
        law_rows_kept(w);
        assert(w.pending()[c].len() == 0);
        assert(joined(w.taken(), c) + w.pending()[c] =~= joined(w.taken(), c));
        assert(w.gathered()[c] == joined(w.taken(), c));
        lemma_joined_join(all_taken(ws.take(m - 1)), w.taken(), c);
        let (start, end) = bounds_at(starts, m - 1, data.len() as int);
        lemma_column_join(
            rows_by_segment(data, starts, m - 1, n_cols),
            csv_rows(data.subrange(start, end), n_cols),
            read,
            c,
        );
    } else {
        assert(ws.take(0) =~= Seq::<ChunkWriter>::empty());
    }
}

/// A writer gathered the rows of a segment, each field read as a number.
pub open spec fn segment_gathered(
    data: Seq<u8>,
    starts: Seq<int>,
    n_cols: nat,
    read: spec_fn(Seq<u8>) -> Sample,
    w: ChunkWriter,
    p: int,
) -> bool {
    let (start, end) = bounds_at(starts, p, data.len() as int);
    &&& w.wf()
    &&& w.complete()
    &&& w.pending().len() == n_cols
    &&& forall|c: int|
        0 <= c < n_cols ==> #[trigger] w.gathered()[c] == column_of(
            csv_rows(data.subrange(start, end), n_cols),
            read,
            c,
        )
}

/// The entries of the segments are those of their chunks.
proof fn lemma_segments_labelled(
    parts: Seq<Conversion>,
    ws: Seq<ChunkWriter>,
    n_cols: nat,
    row_counts: Seq<usize>,
    m: int,
)
    requires
        0 <= m <= parts.len(),
        ws.len() == parts.len(),
        row_counts.len() == parts.len(),
        forall|p: int|
            0 <= p < parts.len() ==> segment_done(#[trigger] parts[p], ws[p], n_cols, row_counts, p),
    ensures
        ({
            let (entries, chunks) = (joined_entries(parts.take(m)), all_taken(ws.take(m)));
            &&& entries.len() == chunks.len()
            &&& forall|k: int|
                0 <= k < chunks.len() ==> chunk_shaped(#[trigger] chunks[k], n_cols) && labels(
                    entries[k]@,
                    chunks[k],
                    entries[k]@.index as int,
                )
        }),
    decreases m,
{
    let (entries, chunks) = (joined_entries(parts.take(m)), all_taken(ws.take(m)));
    if m > 0 {
        lemma_segments_labelled(parts, ws, n_cols, row_counts, m - 1);
        assert(parts.take(m).drop_last() =~= parts.take(m - 1));
        assert(ws.take(m).drop_last() =~= ws.take(m - 1));
        let w = ws[m - 1];
        assert(segment_done(parts[m - 1], w, n_cols, row_counts, m - 1));
        law_rows_kept(w);
        law_chunks_numbered(w);
        let (a, b) = (joined_entries(parts.take(m - 1)), all_taken(ws.take(m - 1)));
        assert forall|k: int| 0 <= k < chunks.len() implies chunk_shaped(
            #[trigger] chunks[k],
            n_cols,
        ) && labels(entries[k]@, chunks[k], entries[k]@.index as int) by {
            if k < b.len() {
                assert(chunks[k] == b[k] && entries[k] == a[k]);
            } else {
                let i = k - b.len();
                assert(chunks[k] == w.taken()[i] && entries[k] == w.entries()[i]);
            }
        }
    } else {
        assert(ws.take(0) =~= Seq::<ChunkWriter>::empty());
        assert(parts.take(0) =~= Seq::<Conversion>::empty());
    }
}

/// The parts count the rows of the segments, and their extremes are those of the
/// instants of all segments.
proof fn lemma_segments_spanned(
    parts: Seq<Conversion>,
    ws: Seq<ChunkWriter>,
    n_cols: nat,
    row_counts: Seq<usize>,
    m: int,
)
    requires
        0 <= m <= parts.len(),
        ws.len() == parts.len(),
        forall|p: int|
            0 <= p < parts.len() ==> segment_done(#[trigger] parts[p], ws[p], n_cols, row_counts, p),
    ensures
        ({
            let times = joined(all_taken(ws.take(m)), 0);
            &&& joined_rows(parts.take(m)) == times.len()
            &&& least(Seq::new(m as nat, |i: int| parts[i].x_min)) == least(finite_samples(times))
            &&& greatest(Seq::new(m as nat, |i: int| parts[i].x_max)) == greatest(
                finite_samples(times),
            )
        }),
    decreases m,
{
    let mins = Seq::new(m as nat, |i: int| parts[i].x_min);
    let maxs = Seq::new(m as nat, |i: int| parts[i].x_max);
    if m > 0 {
        lemma_segments_spanned(parts, ws, n_cols, row_counts, m - 1);
        assert(parts.take(m).drop_last() =~= parts.take(m - 1));
        assert(ws.take(m).drop_last() =~= ws.take(m - 1));
        assert(mins.drop_last() =~= Seq::new((m - 1) as nat, |i: int| parts[i].x_min));
        assert(maxs.drop_last() =~= Seq::new((m - 1) as nat, |i: int| parts[i].x_max));
        let w = ws[m - 1];
        assert(segment_done(parts[m - 1], w, n_cols, row_counts, m - 1));
        law_rows_kept(w);
        assert(w.pending()[0].len() == 0);
        assert(joined(w.taken(), 0) + w.pending()[0] =~= joined(w.taken(), 0));
        assert(w.gathered()[0] == joined(w.taken(), 0));
        let (a, b) = (joined(all_taken(ws.take(m - 1)), 0), joined(w.taken(), 0));
        lemma_joined_join(all_taken(ws.take(m - 1)), w.taken(), 0);
        lemma_finite_samples_join(a, b);
        lemma_finite_samples_finite(a);
        lemma_finite_samples_finite(b);
        lemma_extremes_join(finite_samples(a), finite_samples(b));
    } else {
        assert(ws.take(0) =~= Seq::<ChunkWriter>::empty());
        assert(parts.take(0) =~= Seq::<Conversion>::empty());
    }
}

/// The rows of a text that was converted in segments, side by side, are shown
/// as they are by a query over the whole range: they are the rows of the text,
/// whatever segments it was cut into.  The range is the one that
/// [`crate::segments::merge_segments`] gives.
pub proof fn law_segment_rows_shown(
    data: Seq<u8>,
    seg_len: nat,
    n_cols: nat,
    read: spec_fn(Seq<u8>) -> Sample,
    parts: Seq<Conversion>,
    ws: Seq<ChunkWriter>,
    row_counts: Seq<usize>,
    disk: Disk,
    ch: int,
    max_points: nat,
)
    requires
        seg_len >= 1,
        ws.len() == starts_of(data, seg_len).len(),
        parts.len() == ws.len(),
        row_counts.len() == ws.len(),
        forall|p: int|
            0 <= p < parts.len() ==> segment_done(#[trigger] parts[p], ws[p], n_cols, row_counts, p),
        forall|p: int|
            0 <= p < ws.len() ==> segment_gathered(
                data,
                starts_of(data, seg_len),
                n_cols,
                read,
                #[trigger] ws[p],
                p,
            ),
        written(disk, all_taken(ws)),
        0 <= ch < n_cols - 1,
        recorded(column_of(csv_rows(data, n_cols), read, 0)),
        well_formed(csv_rows(data, n_cols)) <= 1 || well_formed(csv_rows(data, n_cols)) < 2 * (
        max_points as int / 2),
        max_points > 0,
    ensures
        ({
            let rows = csv_rows(data, n_cols);
            let times = column_of(rows, read, 0);
            &&& joined_rows(parts) == well_formed(rows)
            &&& stored_points(
                entry_views(joined_entries(parts)),
                disk,
                ch,
                least(Seq::new(parts.len(), |i: int| parts[i].x_min)),
                greatest(Seq::new(parts.len(), |i: int| parts[i].x_max)),
                max_points,
            ) == table_points(times, column_of(rows, read, ch + 1))
        }),
{
    let starts = starts_of(data, seg_len);
    let rows = csv_rows(data, n_cols);
    let chunks = all_taken(ws);
    let entries = entry_views(joined_entries(parts));
    let n = ws.len() as int;
    assert(ws.take(n) =~= ws);
    assert(parts.take(n) =~= parts);
    law_segments_keep_rows(data, seg_len, n_cols);
    lemma_segments_joined(data, starts, n_cols, read, ws, n, 0);
    lemma_segments_joined(data, starts, n_cols, read, ws, n, ch + 1);
    lemma_segments_labelled(parts, ws, n_cols, row_counts, n);
    lemma_segments_spanned(parts, ws, n_cols, row_counts, n);
    assert forall|k: int| 0 <= k < chunks.len() implies {
        &&& holds(entries[k], disk[k], #[trigger] chunks[k])
        &&& ch + 1 < chunks[k].len()
        &&& chunks[k][0].len() == chunks[k][ch + 1].len()
    } by {
        assert(loadable(disk[k]));
        assert(chunk_shaped(chunks[k], n_cols));
        assert(entries[k] == joined_entries(parts)[k]@);
    }
    law_rows_shown(rows, read, entries, disk, chunks, n_cols, ch, max_points);
}

} // verus!
