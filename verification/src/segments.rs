//! Splitting a large text into segments that are converted side by side.
//!
//! Segments begin right after a line feed, so no row is cut.  Before they are
//! converted their well-formed rows are counted, which gives every segment chunk
//! numbers of its own, one after the other.

use crate::chunk_index::ChunkEntry;
use crate::csv_rows::{
    count_of, csv_rows, find_byte, law_rows_split, lemma_rows_no_longer, lemma_run, run, RowCursor,
    RowStep, LF,
};
use crate::sample::{lt, Sample, INFINITY, NEG_INFINITY};
use crate::stats::{greatest, least};
use vstd::arithmetic::div_mod::lemma_fundamental_div_mod;
use vstd::prelude::*;

verus! {

/// Rows per chunk.
pub const ROWS_PER_GROUP: usize = 100_000;

/// The least length of a segment that is cut off.
pub const MIN_SEGMENT: usize = 16_777_216;

// ---------------------------------------------------------------------------
// Where segments begin
// ---------------------------------------------------------------------------

/// Where the first line after a position begins, if there is one.
pub open spec fn next_start(data: Seq<u8>, at: int) -> Option<int> {
    let start = at + run(data.skip(at), LF) + 1;
    if start < data.len() {
        Some(start)
    } else {
        None
    }
}

/// The beginnings of the segments after a position.
pub open spec fn starts_after(data: Seq<u8>, at: int, seg_len: nat) -> Seq<int>
    decreases
            if at < data.len() {
                data.len() - at
            } else {
                0
            },
{
    if at >= data.len() {
        Seq::empty()
    } else {
        match next_start(data, at) {
            Some(s) => seq![s] + starts_after(data, s + seg_len, seg_len),
            None => Seq::empty(),
        }
    }
}

/// The beginnings of all segments of a text.
pub open spec fn starts_of(data: Seq<u8>, seg_len: nat) -> Seq<int> {
    seq![0int] + starts_after(data, seg_len as int, seg_len)
}

/// How long segments are for a number of cores: four for each core, but not
/// too short.
pub fn segment_len(total_bytes: usize, n_cores: usize) -> (len: usize)
    requires
        1 <= n_cores <= usize::MAX / 4,
    ensures
        len == (if total_bytes as int / (4 * n_cores) >= MIN_SEGMENT {
            total_bytes as int / (4 * n_cores)
        } else {
            MIN_SEGMENT as int
        }),
        len >= 1,
        len >= 16_777_216,
        len == 16_777_216 || 4 * n_cores * len <= total_bytes,
        total_bytes < 4 * n_cores * (len + 1),
{
    let len: usize = total_bytes / (n_cores * 4);
    proof {
        let (n, d) = (total_bytes as int, 4 * n_cores as int);
        lemma_fundamental_div_mod(n, d);
        let q = n / d;
        assert(d * q <= n < d * (q + 1)) by (nonlinear_arith)
            requires
                n == d * q + n % d,
                0 <= n % d < d,
        ;
        assert(q <= 16_777_216 ==> d * (q + 1) <= d * (16_777_216 + 1)) by (nonlinear_arith)
            requires
                d > 0,
        ;
    }
    if len < MIN_SEGMENT {
        MIN_SEGMENT
    } else {
        len
    }
}

/// Positions as integers.
pub open spec fn positions(v: Seq<usize>) -> Seq<int> {
    Seq::new(v.len(), |i: int| v[i] as int)
}

/// Finds where the segments of a text begin.
pub fn segment_starts(data: &[u8], seg_len: usize) -> (starts: Vec<usize>)
    requires
        seg_len >= 1,
    ensures
        positions(starts@) == starts_of(data@, seg_len as nat),
{
    let n: usize = data.len();
    let mut starts: Vec<usize> = Vec::new();
    starts.push(0);
    let mut at: usize = seg_len;
    let ghost mut place: int = seg_len as int;
    let ghost all = starts_of(data@, seg_len as nat);
    assert(positions(starts@) =~= seq![0int]);
    while at < n
        invariant
            n == data@.len(),
            place == at || (place >= n && at >= n),
            place >= 0,
            all == starts_of(data@, seg_len as nat),
            all == positions(starts@) + starts_after(data@, place, seg_len as nat),
        decreases
                if at < n {
                    n - at
                } else {
                    0
                },
    {
        let ghost before = positions(starts@);
        assert(data@.subrange(at as int, n as int) =~= data@.skip(at as int));
        proof {
            lemma_run(data@.skip(at as int), LF);
        }
        let lf: usize = find_byte(data, at, n, LF);
        if lf >= n - 1 {
            assert(starts_after(data@, place, seg_len as nat) =~= Seq::empty());
            assert(all =~= positions(starts@));
            return starts;
        }
        let start: usize = lf + 1;
        starts.push(start);
        assert(positions(starts@) =~= before + seq![start as int]);
        proof {
            place = start + seg_len;
        }
        at = start.saturating_add(seg_len);
        assert(all =~= positions(starts@) + starts_after(data@, place, seg_len as nat));
    }
    assert(all =~= positions(starts@));
    starts
}

/// Where segment `i` begins and ends.
pub open spec fn bounds_at(starts: Seq<int>, i: int, n: int) -> (int, int) {
    (
        starts[i],
        if i + 1 < starts.len() {
            starts[i + 1]
        } else {
            n
        },
    )
}

/// Where segment `i` begins and ends.
pub fn segment_bounds(starts: &[usize], i: usize, total_bytes: usize) -> (r: (usize, usize))
    requires
        i < starts@.len(),
    ensures
        (r.0 as int, r.1 as int) == bounds_at(positions(starts@), i as int, total_bytes as int),
{
    let start: usize = starts[i];
    let end: usize = if i < starts.len() - 1 {
        starts[i + 1]
    } else {
        total_bytes
    };
    (start, end)
}

/// Beginnings are in order, inside the text, and follow a line feed each.
pub open spec fn starts_ok(data: Seq<u8>, starts: Seq<int>) -> bool {
    &&& starts.len() > 0
    &&& starts[0] == 0
    &&& forall|i: int, j: int| 0 <= i < j < starts.len() ==> starts[i] < starts[j]
    &&& forall|i: int|
        0 < i < starts.len() ==> 0 < (#[trigger] starts[i]) < data.len() && data[starts[i] - 1]
            == LF
}

proof fn lemma_starts_after(data: Seq<u8>, at: int, seg_len: nat)
    requires
        0 <= at,
    ensures
        ({
            let s = starts_after(data, at, seg_len);
            &&& forall|i: int, j: int| 0 <= i < j < s.len() ==> s[i] < s[j]
            &&& forall|i: int|
                0 <= i < s.len() ==> at < (#[trigger] s[i]) < data.len() && data[s[i] - 1] == LF
        }),
    decreases
            if at < data.len() {
                data.len() - at
            } else {
                0
            },
{
    if at < data.len() {
        let tail = data.skip(at);
        lemma_run(tail, LF);
        match next_start(data, at) {
            Some(s) => {
                let k = run(tail, LF) as int;
                assert(tail[k] == data[at + k]);
                let rest = starts_after(data, s + seg_len, seg_len);
                lemma_starts_after(data, s + seg_len, seg_len);
                let all = seq![s] + rest;
                assert forall|i: int, j: int| 0 <= i < j < all.len() implies all[i] < all[j] by {
                    assert(all[j] == rest[j - 1]);
                    if i > 0 {
                        assert(all[i] == rest[i - 1]);
                    }
                }
                assert forall|i: int| 0 <= i < all.len() implies at < (#[trigger] all[i])
                    < data.len() && data[all[i] - 1] == LF by {
                    if i > 0 {
                        assert(all[i] == rest[i - 1]);
                    }
                }
            },
            None => {},
        }
    }
}

/// Segments begin in order and inside the text, the first one where the text
/// begins and every other one after a line feed.
pub proof fn law_segments_begin(data: Seq<u8>, seg_len: nat)
    requires
        seg_len >= 1,
    ensures
        starts_ok(data, starts_of(data, seg_len)),
{
    lemma_starts_after(data, seg_len as int, seg_len);
    let s = starts_of(data, seg_len);
    let t = starts_after(data, seg_len as int, seg_len);
    assert forall|i: int| 0 < i < s.len() implies 0 < (#[trigger] s[i]) < data.len() && data[s[i]
        - 1] == LF by {
        assert(s[i] == t[i - 1]);
    }
    assert forall|i: int, j: int| 0 <= i < j < s.len() implies s[i] < s[j] by {
        assert(s[j] == t[j - 1]);
        if i > 0 {
            assert(s[i] == t[i - 1]);
        }
    }
}

/// The rows of the first `k` segments of a text, one after the other.
pub open spec fn rows_by_segment(data: Seq<u8>, starts: Seq<int>, k: int, n_cols: nat) -> Seq<
    Option<Seq<Seq<u8>>>,
>
    decreases k,
{
    if k <= 0 {
        Seq::empty()
    } else {
        let (start, end) = bounds_at(starts, k - 1, data.len() as int);
        rows_by_segment(data, starts, k - 1, n_cols) + csv_rows(data.subrange(start, end), n_cols)
    }
}

proof fn lemma_rows_by_segment(data: Seq<u8>, starts: Seq<int>, k: int, n_cols: nat)
    requires
        starts_ok(data, starts),
        1 <= k <= starts.len(),
    ensures
        rows_by_segment(data, starts, k, n_cols) == csv_rows(
            data.take(bounds_at(starts, k - 1, data.len() as int).1),
            n_cols,
        ),
    decreases k,
{
    let (start, end) = bounds_at(starts, k - 1, data.len() as int);
    let b = data.subrange(start, end);
    if k < starts.len() {
        assert(0 < starts[k] < data.len());
    }
    if k == 1 {
        assert(b =~= data.take(end));
        assert(rows_by_segment(data, starts, 0, n_cols) =~= Seq::empty());
        assert(rows_by_segment(data, starts, 1, n_cols) =~= csv_rows(b, n_cols));
    } else {
        lemma_rows_by_segment(data, starts, k - 1, n_cols);
        let a = data.take(start);
        assert(0 < starts[k - 1] < data.len());
        assert(a + b =~= data.take(end));
        assert(a.last() == data[start - 1]);
        law_rows_split(a, b, n_cols);
    }
}

/// Splitting a text changes nothing: the rows of its segments, one after the
/// other, are the rows of the text.
pub proof fn law_segments_keep_rows(data: Seq<u8>, seg_len: nat, n_cols: nat)
    requires
        seg_len >= 1,
    ensures
        ({
            let starts = starts_of(data, seg_len);
            rows_by_segment(data, starts, starts.len() as int, n_cols) == csv_rows(data, n_cols)
        }),
{
    let starts = starts_of(data, seg_len);
    law_segments_begin(data, seg_len);
    lemma_rows_by_segment(data, starts, starts.len() as int, n_cols);
    assert(data.take(data.len() as int) =~= data);
}

// ---------------------------------------------------------------------------
// Chunk numbers
// ---------------------------------------------------------------------------

/// Calls `bytecount::count`, which counts how often a byte occurs.
#[verifier::external_body]
fn count_byte(haystack: &[u8], needle: u8) -> (n: usize)
    ensures
        n == count_of(haystack@, needle),
{
    bytecount::count(haystack, needle)
}

/// How many line feeds a segment has: about as many as lines, which tells how
/// long a line is on average.
pub fn count_lines(segment: &[u8]) -> (n: usize)
    ensures
        n == count_of(segment@, LF),
{
    count_byte(segment, LF)
}

/// How many of some rows are well-formed.
pub open spec fn well_formed(rows: Seq<Option<Seq<Seq<u8>>>>) -> nat
    decreases rows.len(),
{
    if rows.len() == 0 {
        0
    } else {
        well_formed(rows.drop_first()) + if rows[0] is Some {
            1nat
        } else {
            0nat
        }
    }
}

/// Counts the well-formed rows of a segment: those that are put into chunks.
pub fn count_rows(segment: &[u8], n_cols: usize) -> (n: usize)
    ensures
        n == well_formed(csv_rows(segment@, n_cols as nat)),
{
    let mut cursor: RowCursor = RowCursor::new();
    let mut fields: Vec<(usize, usize)> = Vec::new();
    let ghost all = csv_rows(segment@, n_cols as nat);
    let mut n: usize = 0;
    proof {
        lemma_rows_no_longer(segment@, n_cols as nat);
    }
    assert(segment@.len() == segment.len());
    loop
        invariant
            cursor.wf(segment@),
            segment@.len() <= usize::MAX,
            all.len() <= segment@.len(),
            n + well_formed(cursor.rows(segment@, n_cols as nat)) == well_formed(all),
            n + cursor.rows(segment@, n_cols as nat).len() <= all.len(),
        ensures
            n == well_formed(all),
        decreases cursor.rows(segment@, n_cols as nat).len(),
    {
        let ghost left = cursor.rows(segment@, n_cols as nat);
        let step: RowStep = cursor.next_row(segment, n_cols, &mut fields);
        assert(left.len() > 0 ==> left.drop_first() =~= cursor.rows(segment@, n_cols as nat));
        match step {
            RowStep::End => {
                break;
            },
            RowStep::Malformed => {},
            RowStep::Row => {
                n += 1;
            },
        }
    }
    n
}

/// How many chunks a number of rows fills.
pub open spec fn chunks_for(rows: int) -> int {
    (rows + ROWS_PER_GROUP - 1) / ROWS_PER_GROUP as int
}

/// How many chunks are set aside for the segments before segment `i`.
pub open spec fn chunks_before(row_counts: Seq<usize>, i: int) -> int
    decreases i,
{
    if i <= 0 {
        0
    } else {
        chunks_before(row_counts, i - 1) + chunks_for(row_counts[i - 1] as int)
    }
}

/// The largest chunk number where the number is larger.
pub open spec fn capped(n: int) -> u32 {
    if n >= u32::MAX {
        u32::MAX
    } else {
        n as u32
    }
}

/// The number of the first chunk of each segment.
pub fn chunk_bases(row_counts: &[usize]) -> (bases: Vec<u32>)
    ensures
        bases@ == Seq::new(row_counts@.len(), |i: int| capped(chunks_before(row_counts@, i))),
{
    let mut bases: Vec<u32> = Vec::new();
    let mut acc: u32 = 0;
    let mut i: usize = 0;
    while i < row_counts.len()
        invariant
            i <= row_counts@.len(),
            acc == capped(chunks_before(row_counts@, i as int)),
            chunks_before(row_counts@, i as int) >= 0,
            bases@ == Seq::new(i as nat, |k: int| capped(chunks_before(row_counts@, k))),
        decreases row_counts@.len() - i,
    {
        bases.push(acc);
        let rows: usize = row_counts[i];
        let chunks: usize = rows / ROWS_PER_GROUP + if rows % ROWS_PER_GROUP == 0 {
            0
        } else {
            1
        };
        assert(chunks == chunks_for(rows as int));
        acc = if chunks >= u32::MAX as usize {
            u32::MAX
        } else {
            acc.saturating_add(chunks as u32)
        };
        i += 1;
        assert(bases@ =~= Seq::new(i as nat, |k: int| capped(chunks_before(row_counts@, k))));
    }
    bases
}

/// Chunks are set aside in the order of the segments.
pub proof fn lemma_chunks_before(row_counts: Seq<usize>, i: int, j: int)
    requires
        0 <= i <= j <= row_counts.len(),
    ensures
        0 <= chunks_before(row_counts, i) <= chunks_before(row_counts, j),
    decreases j,
{
    if i < j {
        lemma_chunks_before(row_counts, i, j - 1);
    } else if i > 0 {
        lemma_chunks_before(row_counts, 0, i - 1);
    }
}

/// Segments do not write over each other's chunks, and leave no number out: the
/// chunks that the rows of a segment fill end before the first chunk of every
/// later segment, and right before that of the next one, as long as chunk
/// numbers suffice.
pub proof fn law_chunk_numbers_apart(row_counts: Seq<usize>, i: int, j: int)
    requires
        0 <= i < j < row_counts.len(),
        chunks_before(row_counts, j) < u32::MAX,
    ensures
        capped(chunks_before(row_counts, i)) + chunks_for(row_counts[i] as int) <= capped(
            chunks_before(row_counts, j),
        ),
        j == i + 1 ==> capped(chunks_before(row_counts, i)) + chunks_for(row_counts[i] as int)
            == capped(chunks_before(row_counts, j)),
{
    lemma_chunks_before(row_counts, i + 1, j);
    lemma_chunks_before(row_counts, i, i + 1);
}

// ---------------------------------------------------------------------------
// Putting segments together
// ---------------------------------------------------------------------------

/// What became of a text, or of a segment of one.
#[derive(Debug)]
pub struct Conversion {
    pub entries: Vec<ChunkEntry>,
    pub n_rows: usize,
    pub x_min: Sample,
    pub x_max: Sample,
    /// Rows that were malformed.
    pub skipped: usize,
}

/// The chunks of several parts, one after the other.
pub open spec fn joined_entries(parts: Seq<Conversion>) -> Seq<ChunkEntry>
    decreases parts.len(),
{
    if parts.len() == 0 {
        Seq::empty()
    } else {
        joined_entries(parts.drop_last()) + parts.last().entries@
    }
}

/// The rows of several parts.
pub open spec fn joined_rows(parts: Seq<Conversion>) -> int
    decreases parts.len(),
{
    if parts.len() == 0 {
        0
    } else {
        joined_rows(parts.drop_last()) + parts.last().n_rows
    }
}

/// The malformed rows of several parts.
pub open spec fn joined_skipped(parts: Seq<Conversion>) -> int
    decreases parts.len(),
{
    if parts.len() == 0 {
        0
    } else {
        joined_skipped(parts.drop_last()) + parts.last().skipped
    }
}

proof fn lemma_joined_grows(parts: Seq<Conversion>, i: int)
    requires
        0 <= i <= parts.len(),
    ensures
        0 <= joined_rows(parts.take(i)) <= joined_rows(parts),
        0 <= joined_skipped(parts.take(i)) <= joined_skipped(parts),
    decreases parts.len(),
{
    if i == parts.len() {
        assert(parts.take(i) =~= parts);
        if i > 0 {
            lemma_joined_grows(parts.drop_last(), i - 1);
            assert(parts.drop_last().take(i - 1) =~= parts.drop_last());
        }
    } else {
        lemma_joined_grows(parts.drop_last(), i);
        assert(parts.drop_last().take(i) =~= parts.take(i));
    }
}

/// Puts the segments of a text together, in order.
pub fn merge_segments(parts: Vec<Conversion>) -> (whole: Conversion)
    requires
        joined_rows(parts@) <= usize::MAX,
        joined_skipped(parts@) <= usize::MAX,
    ensures
        whole.entries@ == joined_entries(parts@),
        whole.n_rows == joined_rows(parts@),
        whole.skipped == joined_skipped(parts@),
        whole.x_min == least(Seq::new(parts@.len(), |i: int| parts@[i].x_min)),
        whole.x_max == greatest(Seq::new(parts@.len(), |i: int| parts@[i].x_max)),
{
    let mut entries: Vec<ChunkEntry> = Vec::new();
    let mut n_rows: usize = 0;
    let mut x_min: Sample = INFINITY;
    let mut x_max: Sample = NEG_INFINITY;
    let mut skipped: usize = 0;
    let ghost all = parts@;
    let ghost mins = Seq::new(all.len(), |i: int| all[i].x_min);
    let ghost maxs = Seq::new(all.len(), |i: int| all[i].x_max);
    let mut parts: Vec<Conversion> = parts;
    let mut i: usize = 0;
    assert(all.take(0) =~= Seq::<Conversion>::empty());
    while i < parts.len()
        invariant
            i <= parts@.len(),
            parts@.len() == all.len(),
            forall|k: int| i <= k < all.len() ==> (#[trigger] parts@[k]) == all[k],
            joined_rows(all) <= usize::MAX,
            joined_skipped(all) <= usize::MAX,
            mins == Seq::new(all.len(), |i: int| all[i].x_min),
            maxs == Seq::new(all.len(), |i: int| all[i].x_max),
            entries@ == joined_entries(all.take(i as int)),
            n_rows == joined_rows(all.take(i as int)),
            skipped == joined_skipped(all.take(i as int)),
            x_min == least(mins.take(i as int)),
            x_max == greatest(maxs.take(i as int)),
        decreases parts@.len() - i,
    {
        let ghost part = all[i as int];
        proof {
            lemma_joined_grows(all, i + 1);
            assert(all.take(i + 1).drop_last() =~= all.take(i as int));
            assert(mins.take(i + 1).drop_last() =~= mins.take(i as int));
            assert(maxs.take(i + 1).drop_last() =~= maxs.take(i as int));
        }
        let mut taken: Vec<ChunkEntry> = Vec::new();
        std::mem::swap(&mut taken, &mut parts[i].entries);
        entries.append(&mut taken);
        n_rows += parts[i].n_rows;
        skipped += parts[i].skipped;
        if lt(parts[i].x_min, x_min) {
            x_min = parts[i].x_min;
        }
        if lt(x_max, parts[i].x_max) {
            x_max = parts[i].x_max;
        }
        i += 1;
    }
    proof {
        assert(all.take(i as int) =~= all);
        assert(mins.take(i as int) =~= mins);
        assert(maxs.take(i as int) =~= maxs);
    }
    Conversion { entries, n_rows, x_min, x_max, skipped }
}

/// Segments are as short as may be: each ends with the first line feed that
/// leaves it longer than asked for, and the last one has no line feed there but
/// at its very end.
pub proof fn law_segments_short(data: Seq<u8>, seg_len: nat, i: int)
    requires
        seg_len >= 1,
        0 <= i < starts_of(data, seg_len).len(),
    ensures
        ({
            let s = starts_of(data, seg_len);
            &&& s[0] == 0
            &&& i + 1 < s.len() ==> {
                &&& s[i] + seg_len < s[i + 1] < data.len()
                &&& data[s[i + 1] - 1] == 10u8
                &&& forall|p: int| s[i] + seg_len <= p < s[i + 1] - 1 ==> data[p] != 10u8
            }
            &&& i + 1 == s.len() ==> forall|p: int|
                s[i] + seg_len <= p < data.len() - 1 ==> data[p] != 10u8
        }),
{
    let s = starts_of(data, seg_len);
    let t = starts_after(data, seg_len as int, seg_len);
    lemma_starts_short(data, seg_len as int, seg_len, i);
    if i > 0 {
        assert(s[i] == t[i - 1]);
    }
    if i + 1 < s.len() {
        assert(s[i + 1] == t[i]);
    }
}

/// Of the beginnings after a position, beginning `i` follows the first line feed
/// after the position or, past the first one, after the end of the one before.
proof fn lemma_starts_short(data: Seq<u8>, at: int, seg_len: nat, i: int)
    requires
        0 <= at,
        0 <= i <= starts_after(data, at, seg_len).len(),
    ensures
        ({
            let t = starts_after(data, at, seg_len);
            let from = if i == 0 {
                at
            } else {
                t[i - 1] + seg_len
            };
            &&& i < t.len() ==> {
                &&& from < t[i] < data.len()
                &&& data[t[i] - 1] == LF
                &&& forall|p: int| from <= p < t[i] - 1 ==> data[p] != LF
            }
            &&& i == t.len() ==> forall|p: int| from <= p < data.len() - 1 ==> data[p] != LF
        }),
    decreases
            if at < data.len() {
                data.len() - at
            } else {
                0
            },
{
    if at < data.len() {
        let tail = data.skip(at);
        let k = run(tail, LF) as int;
        lemma_run(tail, LF);
        assert forall|p: int| at <= p < at + k implies data[p] != LF by {
            assert(tail[p - at] == data[p]);
        }
        if k < tail.len() {
            assert(tail[k] == data[at + k]);
        }
        match next_start(data, at) {
            Some(s) => {
                let rest = starts_after(data, s + seg_len, seg_len);
                let t = starts_after(data, at, seg_len);
                assert(t =~= seq![s] + rest);
                if i > 0 {
                    lemma_starts_short(data, s + seg_len, seg_len, i - 1);
                    if i > 1 {
                        assert(t[i - 1] == rest[i - 2]);
                    }
                    if i < t.len() {
                        assert(t[i] == rest[i - 1]);
                    }
                }
            },
            None => {},
        }
    }
}

/// A segment reaches from where it begins to where the next one begins, and the
/// last one to the end.
pub proof fn law_segments_tile(starts: Seq<int>, i: int, n: int)
    requires
        0 <= i < starts.len(),
    ensures
        bounds_at(starts, i, n).0 == starts[i],
        i + 1 < starts.len() ==> bounds_at(starts, i, n).1 == bounds_at(starts, i + 1, n).0,
        i + 1 == starts.len() ==> bounds_at(starts, i, n).1 == n,
{
}

/// The well-formed rows are those that have fields.
pub proof fn law_well_formed(rows: Seq<Option<Seq<Seq<u8>>>>)
    ensures
        well_formed(rows) == rows.filter(|r: Option<Seq<Seq<u8>>>| r is Some).len(),
    decreases rows.len(),
{
    let has = |r: Option<Seq<Seq<u8>>>| r is Some;
    if rows.len() > 0 {
        law_well_formed(rows.drop_first());
        assert(rows =~= seq![rows[0]] + rows.drop_first());
        Seq::filter_distributes_over_add(seq![rows[0]], rows.drop_first(), has);
        reveal(Seq::filter);
        let none = Seq::<Option<Seq<Seq<u8>>>>::empty();
        assert(none.filter(has).len() == 0);
        assert(seq![rows[0]].drop_last() =~= none);
        assert(seq![rows[0]].filter(has).len() == if rows[0] is Some {
            1int
        } else {
            0int
        });
    } else {
        reveal(Seq::filter);
    }
}

/// A chunk holds up to a hundred thousand rows, and a new one is begun only where
/// the ones before it are full.
pub proof fn law_chunks_for(rows: int)
    requires
        rows >= 0,
    ensures
        100_000 * (chunks_for(rows) - 1) < rows <= 100_000 * chunks_for(rows),
{
}

/// Chunk numbers are set aside from zero on, for each segment as many as its rows
/// fill, and no number is larger than the largest one.
pub proof fn law_chunk_bases(row_counts: Seq<usize>, i: int)
    requires
        0 <= i < row_counts.len(),
    ensures
        chunks_before(row_counts, 0) == 0,
        chunks_before(row_counts, i + 1) == chunks_before(row_counts, i) + chunks_for(
            row_counts[i] as int,
        ),
        chunks_before(row_counts, i) < u32::MAX ==> capped(chunks_before(row_counts, i))
            == chunks_before(row_counts, i),
        chunks_before(row_counts, i) >= u32::MAX ==> capped(chunks_before(row_counts, i))
            == u32::MAX,
{
    lemma_chunks_before(row_counts, i, i);
}

/// Parts are put together one after the other, and what they count adds up.
pub proof fn law_parts_joined(parts: Seq<Conversion>, p: Conversion)
    ensures
        joined_entries(Seq::empty()).len() == 0,
        joined_rows(Seq::empty()) == 0,
        joined_skipped(Seq::empty()) == 0,
        joined_entries(parts.push(p)) == joined_entries(parts) + p.entries@,
        joined_rows(parts.push(p)) == joined_rows(parts) + p.n_rows,
        joined_skipped(parts.push(p)) == joined_skipped(parts) + p.skipped,
{
    assert(parts.push(p).drop_last() =~= parts);
}

/// Positions are the numbers themselves.
pub proof fn law_positions(v: Seq<usize>, i: int)
    ensures
        positions(v).len() == v.len(),
        0 <= i < v.len() ==> positions(v)[i] == v[i],
{
}

} // verus!
