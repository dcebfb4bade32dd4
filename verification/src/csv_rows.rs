//! Rows of plain comma-separated text, found without copying.
//!
//! A line ends at a line feed; a carriage return before it is dropped, and
//! lines with nothing on them are passed over.  Fields are what stands between
//! commas.  A line with another number of fields than expected is malformed.

use crate::sample::{Sample, NAN};
use crate::text::{blank, law_trimmed, trim, trimmed, utf8_text};
use vstd::prelude::*;
use vstd::string::*;
use vstd::utf8::{decode_utf8, valid_utf8};

verus! {

/// The line feed.
pub const LF: u8 = 10;

/// The carriage return.
pub const CR: u8 = 13;

/// The comma.
pub const COMMA: u8 = 44;

// ---------------------------------------------------------------------------
// The model
// ---------------------------------------------------------------------------

/// How many bytes come before the first separator; all of them if there is
/// none.
pub open spec fn run(data: Seq<u8>, sep: u8) -> nat
    decreases data.len(),
{
    if data.len() == 0 || data[0] == sep {
        0
    } else {
        1 + run(data.drop_first(), sep)
    }
}

/// What stands between the separators.
pub open spec fn pieces(data: Seq<u8>, sep: u8) -> Seq<Seq<u8>>
    decreases data.len(),
{
    let k = run(data, sep) as int;
    if k >= data.len() {
        seq![data]
    } else {
        seq![data.take(k)] + pieces(data.skip(k + 1), sep)
    }
}

/// A line without the carriage return at its end.
pub open spec fn stripped(line: Seq<u8>) -> Seq<u8> {
    if line.len() > 0 && line.last() == CR {
        line.drop_last()
    } else {
        line
    }
}

/// The fields of a line; `None` where there is another number of them.
pub open spec fn row_of(line: Seq<u8>, n_cols: nat) -> Option<Seq<Seq<u8>>> {
    let fields = pieces(line, COMMA);
    if fields.len() == n_cols {
        Some(fields)
    } else {
        None
    }
}

/// The rows of some lines.
pub open spec fn rows_of(lines: Seq<Seq<u8>>, n_cols: nat) -> Seq<Option<Seq<Seq<u8>>>>
    decreases lines.len(),
{
    if lines.len() == 0 {
        Seq::empty()
    } else {
        let line = stripped(lines[0]);
        let rest = rows_of(lines.drop_first(), n_cols);
        if line.len() == 0 {
            rest
        } else {
            seq![row_of(line, n_cols)] + rest
        }
    }
}

/// The rows of a text.
pub open spec fn csv_rows(data: Seq<u8>, n_cols: nat) -> Seq<Option<Seq<Seq<u8>>>> {
    rows_of(pieces(data, LF), n_cols)
}

/// How often a byte occurs.
pub open spec fn count_of(data: Seq<u8>, b: u8) -> nat
    decreases data.len(),
{
    if data.len() == 0 {
        0
    } else {
        count_of(data.drop_last(), b) + if data.last() == b {
            1nat
        } else {
            0nat
        }
    }
}

// ---------------------------------------------------------------------------
// Facts about the model
// ---------------------------------------------------------------------------

/// The first separator is where `run` says, and none comes before it.
pub proof fn lemma_run(data: Seq<u8>, sep: u8)
    ensures
        run(data, sep) <= data.len(),
        run(data, sep) < data.len() ==> data[run(data, sep) as int] == sep,
        forall|i: int| 0 <= i < run(data, sep) ==> data[i] != sep,
    decreases data.len(),
{
    if data.len() > 0 && data[0] != sep {
        let t = data.drop_first();
        lemma_run(t, sep);
        assert forall|i: int| 0 <= i < run(data, sep) implies data[i] != sep by {
            if i > 0 {
                assert(t[i - 1] == data[i]);
            }
        }
    }
}

proof fn lemma_run_is(data: Seq<u8>, sep: u8, k: int)
    requires
        0 <= k <= data.len(),
        k < data.len() ==> data[k] == sep,
        forall|i: int| 0 <= i < k ==> data[i] != sep,
    ensures
        run(data, sep) == k,
    decreases data.len(),
{
    if k > 0 {
        let t = data.drop_first();
        assert forall|i: int| 0 <= i < k - 1 implies t[i] != sep by {
            assert(t[i] == data[i + 1]);
        }
        lemma_run_is(t, sep, k - 1);
    }
}

/// Pieces put together again, with a separator between any two of them.
pub open spec fn glued(parts: Seq<Seq<u8>>, sep: u8) -> Seq<u8>
    decreases parts.len(),
{
    if parts.len() == 0 {
        Seq::empty()
    } else if parts.len() == 1 {
        parts[0]
    } else {
        parts[0] + seq![sep] + glued(parts.drop_first(), sep)
    }
}

/// Cutting at the separators loses nothing and leaves no separator: the pieces,
/// put together with separators between them, are the text, none of them has a
/// separator in it, and there is one more of them than separators.
pub proof fn law_pieces(data: Seq<u8>, sep: u8)
    ensures
        glued(pieces(data, sep), sep) == data,
        pieces(data, sep).len() == data.to_multiset().count(sep) + 1,
        forall|i: int, j: int|
            0 <= i < pieces(data, sep).len() && 0 <= j < pieces(data, sep)[i].len() ==> (
            #[trigger] pieces(data, sep)[i][j]) != sep,
    decreases data.len(),
{
    broadcast use vstd::seq_lib::group_to_multiset_ensures;

    let k = run(data, sep) as int;
    let all = pieces(data, sep);
    lemma_run(data, sep);
    if k >= data.len() {
        if data.to_multiset().count(sep) > 0 {
            assert(data.contains(sep));
        }
        assert(glued(all, sep) =~= data);
    } else {
        let (head, rest) = (data.take(k), data.skip(k + 1));
        let tail = pieces(rest, sep);
        law_pieces(rest, sep);
        assert(all.drop_first() =~= tail);
        assert(data =~= head + (seq![sep] + rest));
        assert(glued(all, sep) =~= data);
        vstd::seq_lib::lemma_multiset_commutative(head, seq![sep] + rest);
        vstd::seq_lib::lemma_multiset_commutative(seq![sep], rest);
        if head.to_multiset().count(sep) > 0 {
            assert(head.contains(sep));
        }
        assert(seq![sep].to_multiset().count(sep) == 1) by {
            assert(seq![sep] =~= Seq::<u8>::empty().push(sep));
        }
        assert forall|i: int, j: int| 0 <= i < all.len() && 0 <= j < all[i].len() implies (
        #[trigger] all[i][j]) != sep by {
            if i > 0 {
                assert(all[i] == tail[i - 1]);
                assert(tail[i - 1][j] != sep);
            }
        }
    }
}

/// A text is cut in one way only: pieces without a separator in them are those
/// that their text is cut into.
pub proof fn law_pieces_of_glued(parts: Seq<Seq<u8>>, sep: u8)
    requires
        parts.len() > 0,
        forall|i: int, j: int|
            0 <= i < parts.len() && 0 <= j < parts[i].len() ==> (#[trigger] parts[i][j]) != sep,
    ensures
        pieces(glued(parts, sep), sep) == parts,
    decreases parts.len(),
{
    let data = glued(parts, sep);
    let k = parts[0].len() as int;
    if parts.len() == 1 {
        assert forall|j: int| 0 <= j < k implies data[j] != sep by {
            assert(parts[0][j] != sep);
        }
        lemma_run_is(data, sep, k);
        assert(pieces(data, sep) =~= parts);
    } else {
        let rest = parts.drop_first();
        assert forall|i: int, j: int| 0 <= i < rest.len() && 0 <= j < rest[i].len() implies (
        #[trigger] rest[i][j]) != sep by {
            assert(rest[i] == parts[i + 1]);
            assert(parts[i + 1][j] != sep);
        }
        law_pieces_of_glued(rest, sep);
        assert forall|j: int| 0 <= j < k implies data[j] != sep by {
            assert(data[j] == parts[0][j]);
        }
        assert(data[k] == sep);
        lemma_run_is(data, sep, k);
        assert(data.take(k) =~= parts[0]);
        assert(data.skip(k + 1) =~= glued(rest, sep));
        assert(pieces(data, sep) =~= parts);
    }
}

/// The row of a line: it has fields if and only if the line has one comma less
/// than columns, whatever its other bytes are, and the fields put together with
/// commas are the line, with no comma in any of them.
pub open spec fn row_fits(row: Option<Seq<Seq<u8>>>, line: Seq<u8>, n_cols: nat) -> bool {
    &&& row is Some <==> line.to_multiset().count(44u8) + 1 == n_cols
    &&& row matches Some(fields) ==> {
        &&& fields.len() == n_cols
        &&& glued(fields, 44u8) == line
        &&& forall|i: int, j: int|
            0 <= i < fields.len() && 0 <= j < fields[i].len() ==> (#[trigger] fields[i][j]) != 44u8
    }
}

/// What the first line of a text gives.  One carriage return at its end, before
/// the line feed, does not count.  A line that is then not empty gives one row,
/// which depends on the bytes of the line alone; an empty line gives none.  For the
/// last line it makes no difference whether it ends with a line feed at all.
pub proof fn law_first_line(raw: Seq<u8>, rest: Seq<u8>, n_cols: nat)
    requires
        forall|i: int| 0 <= i < raw.len() ==> raw[i] != 10u8,
    ensures
        ({
            let line = if raw.len() > 0 && raw.last() == 13u8 {
                raw.take(raw.len() - 1)
            } else {
                raw
            };
            let rows = csv_rows(raw + seq![10u8] + rest, n_cols);
            let tail = csv_rows(rest, n_cols);
            &&& line.len() == 0 ==> rows == tail
            &&& line.len() > 0 ==> rows.len() == 1 + tail.len() && rows.skip(1) == tail && row_fits(
                rows[0],
                line,
                n_cols,
            )
            &&& rest.len() == 0 ==> csv_rows(raw, n_cols) == rows
        }),
{
    let text = raw + seq![10u8] + rest;
    let tail = csv_rows(rest, n_cols);
    let n = raw.len() as int;
    let line = stripped(raw);
    law_pieces(line, 44u8);
    assert(text[n] == 10u8);
    lemma_run_is(text, LF, n);
    assert(text.take(n) =~= raw);
    assert(text.skip(n + 1) =~= rest);
    assert(pieces(text, LF).drop_first() =~= pieces(rest, LF));
    if n > 0 {
        assert(raw.drop_last() =~= raw.take(n - 1));
    }
    let rows = csv_rows(text, n_cols);
    if line.len() > 0 {
        assert(rows.skip(1) =~= tail);
    }
    if rest.len() == 0 {
        reveal_with_fuel(rows_of, 2);
        assert(pieces(rest, LF).drop_first() =~= Seq::<Seq<u8>>::empty());
        assert(tail =~= Seq::empty());
        lemma_run_is(raw, LF, n);
        assert(pieces(raw, LF).drop_first() =~= Seq::<Seq<u8>>::empty());
        assert(csv_rows(raw, n_cols) =~= rows);
    }
}

/// A text without bytes has no rows.
pub proof fn law_no_text_no_rows(n_cols: nat)
    ensures
        csv_rows(Seq::empty(), n_cols).len() == 0,
{
    reveal_with_fuel(rows_of, 2);
    assert(pieces(Seq::empty(), LF).drop_first() =~= Seq::<Seq<u8>>::empty());
}

/// A byte occurs as often as it is counted.
pub proof fn law_count_of(data: Seq<u8>, b: u8)
    ensures
        count_of(data, b) == data.to_multiset().count(b),
    decreases data.len(),
{
    broadcast use vstd::seq_lib::group_to_multiset_ensures;

    if data.len() > 0 {
        law_count_of(data.drop_last(), b);
        assert(data =~= data.drop_last().push(data.last()));
    }
}

/// A text can be cut after any line feed: the rows of the two parts, one after
/// the other, are the rows of the whole.
pub proof fn law_rows_split(a: Seq<u8>, b: Seq<u8>, n_cols: nat)
    requires
        a.len() > 0,
        a.last() == LF,
    ensures
        csv_rows(a + b, n_cols) == csv_rows(a, n_cols) + csv_rows(b, n_cols),
    decreases a.len(),
{
    let k = run(a, LF) as int;
    lemma_run(a, LF);
    assert(a[a.len() - 1] == LF);
    assert(k < a.len());
    assert((a + b).take(k) =~= a.take(k));
    assert(run(a + b, LF) == k) by {
        lemma_run_is(a + b, LF, k);
    }
    let rest = a.skip(k + 1);
    assert((a + b).skip(k + 1) =~= rest + b);
    let line = seq![a.take(k)];
    let whole = line + pieces(rest + b, LF);
    let first = line + pieces(rest, LF);
    assert(whole.drop_first() =~= pieces(rest + b, LF));
    assert(first.drop_first() =~= pieces(rest, LF));
    if rest.len() == 0 {
        assert(rest + b =~= b);
        assert(pieces(rest, LF) =~= seq![rest]);
        assert(seq![rest].drop_first() =~= Seq::<Seq<u8>>::empty());
        assert(csv_rows(rest, n_cols) =~= Seq::empty()) by {
            reveal_with_fuel(rows_of, 2);
        }
    } else {
        assert(rest.last() == a.last());
        law_rows_split(rest, b, n_cols);
    }
    assert(csv_rows(a + b, n_cols) =~= csv_rows(a, n_cols) + csv_rows(b, n_cols));
}

proof fn lemma_count_join(a: Seq<u8>, b: Seq<u8>, x: u8)
    ensures
        count_of(a + b, x) == count_of(a, x) + count_of(b, x),
    decreases b.len(),
{
    if b.len() == 0 {
        assert(a + b =~= a);
    } else {
        lemma_count_join(a, b.drop_last(), x);
        assert((a + b).drop_last() =~= a + b.drop_last());
        assert((a + b).last() == b.last());
    }
}

proof fn lemma_count_none(a: Seq<u8>, x: u8)
    requires
        forall|i: int| 0 <= i < a.len() ==> a[i] != x,
    ensures
        count_of(a, x) == 0,
    decreases a.len(),
{
    if a.len() > 0 {
        assert(a[a.len() - 1] == a.last());
        lemma_count_none(a.drop_last(), x);
    }
}

/// A text has no more rows than line feeds, and one more where it does not end
/// with one.
pub proof fn law_rows_bounded(data: Seq<u8>, n_cols: nat)
    ensures
        csv_rows(data, n_cols).len() <= count_of(data, LF) + 1,
        data.len() > 0 && data.last() == LF ==> csv_rows(data, n_cols).len() <= count_of(data, LF),
        data.len() == 0 ==> csv_rows(data, n_cols).len() == 0,
    decreases data.len(),
{
    let k = run(data, LF) as int;
    lemma_run(data, LF);
    if k >= data.len() {
        reveal_with_fuel(rows_of, 2);
        assert(pieces(data, LF).drop_first() =~= Seq::<Seq<u8>>::empty());
        if data.len() > 0 {
            assert(data[data.len() - 1] == data.last());
        }
    } else {
        let rest = data.skip(k + 1);
        law_rows_bounded(rest, n_cols);
        let line = seq![data.take(k)];
        assert((line + pieces(rest, LF)).drop_first() =~= pieces(rest, LF));
        assert(data =~= data.take(k) + (seq![LF] + rest));
        lemma_count_join(data.take(k), seq![LF] + rest, LF);
        lemma_count_join(seq![LF], rest, LF);
        lemma_count_none(data.take(k), LF);
        assert(count_of(seq![LF], LF) == 1) by {
            reveal_with_fuel(count_of, 2);
            assert(seq![LF].drop_last() =~= Seq::<u8>::empty());
        }
        if rest.len() > 0 {
            assert(rest.last() == data.last());
        }
    }
}

/// A text has no more rows than bytes.
pub proof fn lemma_rows_no_longer(data: Seq<u8>, n_cols: nat)
    ensures
        csv_rows(data, n_cols).len() <= data.len(),
    decreases data.len(),
{
    let k = run(data, LF) as int;
    let lines = pieces(data, LF);
    lemma_run(data, LF);
    if k >= data.len() {
        assert(lines.drop_first() =~= Seq::<Seq<u8>>::empty());
        assert(rows_of(lines.drop_first(), n_cols).len() == 0);
    } else {
        lemma_rows_no_longer(data.skip(k + 1), n_cols);
        assert(lines.drop_first() =~= pieces(data.skip(k + 1), LF));
        assert(lines[0] == data.take(k));
    }
}

// ---------------------------------------------------------------------------
// Finding rows
// ---------------------------------------------------------------------------

/// Where the first separator between two positions is; the second position if
/// there is none.
pub fn find_byte(data: &[u8], from: usize, to: usize, sep: u8) -> (at: usize)
    requires
        from <= to <= data@.len(),
    ensures
        at == from + run(data@.subrange(from as int, to as int), sep),
        from <= at <= to,
{
    let ghost part = data@.subrange(from as int, to as int);
    let mut at: usize = from;
    while at < to && data[at] != sep
        invariant
            from <= at <= to <= data@.len(),
            part == data@.subrange(from as int, to as int),
            forall|i: int| 0 <= i < at - from ==> part[i] != sep,
        decreases to - at,
    {
        assert(part[at - from] == data@[at as int]);
        at += 1;
    }
    proof {
        if at < to {
            assert(part[at - from] == data@[at as int]);
        }
        lemma_run_is(part, sep, at - from);
    }
    at
}

/// The bytes between pairs of positions.
pub open spec fn ranges_of(data: Seq<u8>, ranges: Seq<(usize, usize)>) -> Seq<Seq<u8>> {
    Seq::new(ranges.len(), |i: int| data.subrange(ranges[i].0 as int, ranges[i].1 as int))
}

/// Pairs of positions lie inside the data.
pub open spec fn ranges_ok(data: Seq<u8>, ranges: Seq<(usize, usize)>) -> bool {
    forall|i: int|
        0 <= i < ranges.len() ==> (#[trigger] ranges[i]).0 <= ranges[i].1 <= data.len()
}

/// Finds the fields of a line; tells whether there are as many as expected.
pub fn split_fields(
    data: &[u8],
    start: usize,
    end: usize,
    n_cols: usize,
    fields: &mut Vec<(usize, usize)>,
) -> (ok: bool)
    requires
        start <= end <= data@.len(),
    ensures
        ({
            let line = data@.subrange(start as int, end as int);
            &&& ok == (row_of(line, n_cols as nat) is Some)
            &&& ok ==> ranges_ok(data@, final(fields)@) && ranges_of(data@, final(fields)@)
                == pieces(line, COMMA)
        }),
{
    let ghost line = data@.subrange(start as int, end as int);
    let ghost all = pieces(line, COMMA);
    fields.clear();
    let mut from: usize = start;
    let mut more: bool = true;
    assert(ranges_of(data@, fields@) + all =~= all);
    while more
        invariant
            start <= from,
            more ==> from <= end,
            end <= data@.len(),
            ranges_ok(data@, fields@),
            all == pieces(line, COMMA),
            more ==> all == ranges_of(data@, fields@) + pieces(
                data@.subrange(from as int, end as int),
                COMMA,
            ),
            !more ==> all == ranges_of(data@, fields@),
            fields@.len() <= n_cols,
            line == data@.subrange(start as int, end as int),
        decreases
                if more {
                    end - from + 1
                } else {
                    0
                },
    {
        let ghost rest = data@.subrange(from as int, end as int);
        let ghost before = ranges_of(data@, fields@);
        assert(pieces(rest, COMMA).len() >= 1);
        if fields.len() >= n_cols {
            return false;
        }
        let at: usize = find_byte(data, from, end, COMMA);
        fields.push((from, at));
        assert(ranges_of(data@, fields@) =~= before.push(data@.subrange(from as int, at as int)));
        assert(rest.take(at - from) =~= data@.subrange(from as int, at as int));
        if at < end {
            assert(rest.skip(at - from + 1) =~= data@.subrange(at + 1, end as int));
            from = at + 1;
        } else {
            assert(rest =~= data@.subrange(from as int, at as int));
            more = false;
        }
        assert(more ==> all =~= ranges_of(data@, fields@) + pieces(
            data@.subrange(from as int, end as int),
            COMMA,
        ));
        assert(!more ==> all =~= ranges_of(data@, fields@));
    }
    fields.len() == n_cols
}

/// What comes next in a text.
#[derive(Clone, Copy, Debug, PartialEq, Eq, Structural)]
pub enum RowStep {
    /// No row is left.
    End,
    /// A row with another number of fields than expected.
    Malformed,
    /// A row, whose fields were noted.
    Row,
}

/// A place in a text from which its rows are read.
pub struct RowCursor {
    pos: usize,
    done: bool,
}

impl RowCursor {
    /// The lines that are left of a text.
    pub closed spec fn rest(&self, data: Seq<u8>) -> Seq<Seq<u8>> {
        if self.done {
            Seq::empty()
        } else {
            pieces(data.skip(self.pos as int), LF)
        }
    }

    /// The rows that are left of a text.
    pub open spec fn rows(&self, data: Seq<u8>, n_cols: nat) -> Seq<Option<Seq<Seq<u8>>>> {
        rows_of(self.rest(data), n_cols)
    }

    /// The place lies inside the text.
    pub closed spec fn wf(&self, data: Seq<u8>) -> bool {
        self.pos <= data.len()
    }

    /// Begins at the beginning of a text.
    pub fn new() -> (c: RowCursor)
        ensures
            forall|data: Seq<u8>| #[trigger] c.wf(data),
            forall|data: Seq<u8>, n_cols: nat| #[trigger]
                c.rows(data, n_cols) == csv_rows(data, n_cols),
    {
        let c: RowCursor = RowCursor { pos: 0, done: false };
        assert forall|data: Seq<u8>, n_cols: nat| #[trigger] c.rows(data, n_cols) == csv_rows(
            data,
            n_cols,
        ) by {
            assert(data.skip(0) =~= data);
        }
        c
    }

    /// Reads the next row and notes where its fields are.
    pub fn next_row(&mut self, data: &[u8], n_cols: usize, fields: &mut Vec<(usize, usize)>) -> (step:
        RowStep)
        requires
            old(self).wf(data@),
        ensures
            final(self).wf(data@),
            ({
                let left = old(self).rows(data@, n_cols as nat);
                let after = final(self).rows(data@, n_cols as nat);
                match step {
                    RowStep::End => left.len() == 0 && after.len() == 0,
                    RowStep::Malformed => left == seq![None::<Seq<Seq<u8>>>] + after,
                    RowStep::Row => {
                        &&& left == seq![Some(ranges_of(data@, final(fields)@))] + after
                        &&& ranges_ok(data@, final(fields)@)
                        &&& final(fields)@.len() == n_cols
                    },
                }
            }),
    {
        let ghost all = self.rows(data@, n_cols as nat);
        while !self.done
            invariant
                self.pos <= data@.len(),
                all == old(self).rows(data@, n_cols as nat),
                all == self.rows(data@, n_cols as nat),
            decreases
                    if self.done {
                        0
                    } else {
                        data@.len() - self.pos + 1
                    },
        {
            let start: usize = self.pos;
            let ghost tail = data@.skip(start as int);
            let ghost lines = pieces(tail, LF);
            let n: usize = data.len();
            assert(data@.subrange(start as int, n as int) =~= tail);
            let at: usize = find_byte(data, start, n, LF);
            let ghost line = data@.subrange(start as int, at as int);
            proof {
                lemma_run(tail, LF);
                assert(tail.take(at - start) =~= line);
            }
            if at < n {
                assert(tail.skip(at - start + 1) =~= data@.skip(at + 1));
                self.pos = at + 1;
            } else {
                assert(line =~= tail);
                self.done = true;
            }
            assert(lines =~= seq![line] + self.rest(data@));
            assert(lines.drop_first() =~= self.rest(data@));
            let end: usize = if start < at && data[at - 1] == CR {
                at - 1
            } else {
                at
            };
            assert(data@.subrange(start as int, end as int) =~= stripped(line));
            if start < end {
                if split_fields(data, start, end, n_cols, fields) {
                    assert(ranges_of(data@, fields@).len() == fields@.len());
                    return RowStep::Row;
                } else {
                    return RowStep::Malformed;
                }
            }
        }
        RowStep::End
    }
}

// ---------------------------------------------------------------------------
// Fields
// ---------------------------------------------------------------------------

/// The text of a field that is read as a number: what is left once blank
/// characters at its ends are dropped.  A field that is not valid text, or that
/// holds blank characters only, has none.
pub open spec fn number_text(field: Seq<u8>) -> Option<Seq<char>> {
    if valid_utf8(field) && trimmed(decode_utf8(field)).len() > 0 {
        Some(trimmed(decode_utf8(field)))
    } else {
        None
    }
}

/// The text of a field that is read as a number.
pub fn field_text(field: &[u8]) -> (text: Option<&str>)
    ensures
        match text {
            Some(t) => number_text(field@) == Some(t@),
            None => number_text(field@) is None,
        },
{
    match utf8_text(field) {
        Some(s) => {
            let t: &str = trim(s);
            if t.unicode_len() == 0 {
                None
            } else {
                Some(t)
            }
        },
        None => None,
    }
}

/// The sample that a field stands for, given the number that its text was read
/// as: a NaN where there is no text or it is no number.
pub fn parse_field(number: Option<Sample>) -> (v: Sample)
    ensures
        v == (match number {
            Some(x) => x,
            None => NAN,
        }),
{
    match number {
        Some(x) => x,
        None => NAN,
    }
}

/// How many columns a line announces; a blank line announces none.
pub fn count_csv_columns(line: &str) -> (n: Option<usize>)
    requires
        line@.len() < usize::MAX,
    ensures
        match n {
            Some(n) => trimmed(line@).len() > 0 && n == crate::text::occurrences(
                trimmed(line@),
                ',',
            ) + 1,
            None => trimmed(line@).len() == 0,
        },
{
    let t: &str = trim(line);
    if t.unicode_len() == 0 {
        return None;
    }
    proof {
        crate::text::lemma_occurrences(t@, ',');
    }
    Some(crate::text::count_char(t, ',') + 1)
}

/// Pairs of positions stand for the bytes from the first one up to, and without,
/// the second one.
pub proof fn law_ranges(data: Seq<u8>, ranges: Seq<(usize, usize)>, i: int)
    ensures
        ranges_of(data, ranges).len() == ranges.len(),
        0 <= i < ranges.len() ==> ranges_of(data, ranges)[i] == data.subrange(
            ranges[i].0 as int,
            ranges[i].1 as int,
        ),
        ranges_ok(data, ranges) && 0 <= i < ranges.len() ==> ranges[i].0 <= ranges[i].1
            <= data.len(),
{
}

/// A field is read as a number if it is valid text with a character that is not
/// blank, and what is read begins and ends with such a character.
pub proof fn law_number_text(field: Seq<u8>)
    ensures
        number_text(field) is Some <==> valid_utf8(field) && exists|i: int|
            0 <= i < decode_utf8(field).len() && !blank(#[trigger] decode_utf8(field)[i]),
        number_text(field) matches Some(t) ==> t.len() > 0 && !blank(t[0]) && !blank(t.last()),
{
    let s = decode_utf8(field);
    law_trimmed(s);
    let t = trimmed(s);
    let a = crate::text::blank_prefix(s) as int;
    if t.len() > 0 {
        assert(t[0] == s[a]);
    }
    if exists|i: int| 0 <= i < s.len() && !blank(#[trigger] s[i]) {
        let i = choose|i: int| 0 <= i < s.len() && !blank(#[trigger] s[i]);
        assert(a <= i < a + t.len());
    }
}

} // verus!
