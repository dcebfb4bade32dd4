//! The shape of exported files.

use crate::sample::{Point, Sample};
use crate::text::texts;
use vstd::prelude::*;
use vstd::string::*;

verus! {

/// The most points exported for a channel.
pub const EXPORT_MAX_POINTS: usize = 10_000_000;

/// The names of some channels, each after a comma; unknown channels are left
/// out.
pub open spec fn listed_names(names: Seq<Seq<char>>, channels: Seq<usize>) -> Seq<char>
    decreases channels.len(),
{
    if channels.len() == 0 {
        Seq::empty()
    } else {
        let earlier = listed_names(names, channels.drop_last());
        if channels.last() < names.len() {
            earlier + ","@ + names[channels.last() as int]
        } else {
            earlier
        }
    }
}

/// The first line of an exported table.
pub fn csv_header(time_col: &str, names: &[String], channels: &[usize]) -> (line: String)
    ensures
        line@ == time_col@ + listed_names(texts(names@), channels@),
{
    let mut line: String = String::new();
    line.append(time_col);
    let mut i: usize = 0;
    assert(channels@.take(0) =~= Seq::<usize>::empty());
    assert(line@ =~= time_col@ + listed_names(texts(names@), channels@.take(0)));
    while i < channels.len()
        invariant
            i <= channels@.len(),
            line@ == time_col@ + listed_names(texts(names@), channels@.take(i as int)),
        decreases channels@.len() - i,
    {
        assert(channels@.take(i + 1).drop_last() =~= channels@.take(i as int));
        let ch: usize = channels[i];
        if ch < names.len() {
            line.append(",");
            line.append(names[ch].as_str());
            assert(texts(names@)[ch as int] == names@[ch as int]@);
        }
        i += 1;
        assert(line@ =~= time_col@ + listed_names(texts(names@), channels@.take(i as int)));
    }
    assert(channels@.take(i as int) =~= channels@);
    line
}

/// How many rows several runs of points have in common: as many as the shortest
/// run.
pub open spec fn common_rows(runs: Seq<Vec<Point>>) -> int
    decreases runs.len(),
{
    if runs.len() == 0 {
        0
    } else if runs.len() == 1 {
        runs[0]@.len() as int
    } else {
        let m = common_rows(runs.drop_last());
        if runs.last()@.len() < m {
            runs.last()@.len() as int
        } else {
            m
        }
    }
}

/// Counts the rows that several runs of points have in common.
pub fn row_count(runs: &[Vec<Point>]) -> (n: usize)
    ensures
        n == common_rows(runs@),
        forall|j: int| 0 <= j < runs@.len() ==> n <= (#[trigger] runs@[j])@.len(),
{
    if runs.len() == 0 {
        return 0;
    }
    let mut n: usize = runs[0].len();
    let mut j: usize = 1;
    assert(runs@.take(1) =~= seq![runs@[0]]);
    while j < runs.len()
        invariant
            1 <= j <= runs@.len(),
            n == common_rows(runs@.take(j as int)),
            forall|k: int| 0 <= k < j ==> n <= (#[trigger] runs@[k])@.len(),
        decreases runs@.len() - j,
    {
        assert(runs@.take(j + 1).drop_last() =~= runs@.take(j as int));
        if runs[j].len() < n {
            n = runs[j].len();
        }
        j += 1;
    }
    assert(runs@.take(j as int) =~= runs@);
    n
}

/// One row of an exported table: the instant of the first run, and the values
/// of all runs.
pub fn export_row(runs: &[Vec<Point>], i: usize) -> (row: Vec<Sample>)
    requires
        runs@.len() > 0,
        forall|j: int| 0 <= j < runs@.len() ==> i < (#[trigger] runs@[j])@.len(),
    ensures
        row@.len() == runs@.len() + 1,
        row@[0] == runs@[0]@[i as int].t,
        forall|j: int| 0 <= j < runs@.len() ==> row@[j + 1] == (#[trigger] runs@[j])@[i as int].v,
{
    let mut row: Vec<Sample> = Vec::new();
    row.push(runs[0][i].t);
    let mut j: usize = 0;
    while j < runs.len()
        invariant
            j <= runs@.len(),
            row@.len() == j + 1,
            row@[0] == runs@[0]@[i as int].t,
            forall|k: int| 0 <= k < runs@.len() ==> i < (#[trigger] runs@[k])@.len(),
            forall|k: int| 0 <= k < j ==> row@[k + 1] == (#[trigger] runs@[k])@[i as int].v,
        decreases runs@.len() - j,
    {
        row.push(runs[j][i].v);
        j += 1;
    }
    row
}

/// Two runs of values plotted against each other: the values of the first run
/// along one axis, those of the second along the other, as far as both go.
pub fn xy_points(xs: &[Point], ys: &[Point]) -> (out: Vec<Point>)
    ensures
        out@ == Seq::new(
            if xs@.len() <= ys@.len() {
                xs@.len()
            } else {
                ys@.len()
            },
            |i: int| Point { t: xs@[i].v, v: ys@[i].v },
        ),
{
    let n: usize = if xs.len() <= ys.len() {
        xs.len()
    } else {
        ys.len()
    };
    let mut out: Vec<Point> = Vec::new();
    let mut i: usize = 0;
    while i < n
        invariant
            i <= n,
            n <= xs@.len(),
            n <= ys@.len(),
            out@ == Seq::new(i as nat, |k: int| Point { t: xs@[k].v, v: ys@[k].v }),
        decreases n - i,
    {
        out.push(Point { t: xs[i].v, v: ys[i].v });
        i += 1;
        assert(out@ =~= Seq::new(i as nat, |k: int| Point { t: xs@[k].v, v: ys@[k].v }));
    }
    out
}

/// The column and the row of a pixel of a picture.
pub fn pixel_position(i: usize, width: usize) -> (p: (usize, usize))
    requires
        width > 0,
    ensures
        p.0 < width,
        i == p.1 * width + p.0,
{
    proof {
        vstd::arithmetic::div_mod::lemma_fundamental_div_mod(i as int, width as int);
        let (q, w) = (i as int / width as int, width as int);
        assert(w * q == q * w) by (nonlinear_arith);
    }
    (i % width, i / width)
}

/// The rows that runs have in common reach to the end of the shortest run: no
/// run is shorter, and some run is just as long.
pub proof fn law_common_rows(runs: Seq<Vec<Point>>)
    ensures
        runs.len() == 0 ==> common_rows(runs) == 0,
        runs.len() > 0 ==> exists|j: int|
            0 <= j < runs.len() && (#[trigger] runs[j])@.len() == common_rows(runs),
        forall|j: int| 0 <= j < runs.len() ==> common_rows(runs) <= (#[trigger] runs[j])@.len(),
    decreases runs.len(),
{
    if runs.len() == 1 {
        assert(runs[0]@.len() == common_rows(runs));
    } else if runs.len() > 1 {
        let p = runs.drop_last();
        let n = p.len() as int;
        law_common_rows(p);
        let a = choose|j: int| 0 <= j < p.len() && (#[trigger] p[j])@.len() == common_rows(p);
        assert(p[a] == runs[a] && runs[n] == runs.last());
        assert(runs[a]@.len() == common_rows(runs) || runs[n]@.len() == common_rows(runs));
        assert forall|j: int| 0 <= j < runs.len() implies common_rows(runs) <= (
        #[trigger] runs[j])@.len() by {
            if j < n {
                assert(p[j] == runs[j]);
            }
        }
    }
}

/// Channels are listed in the order in which they are asked for, each with a
/// comma before its name, and those that do not exist are left out.
pub proof fn law_listed_names(names: Seq<Seq<char>>, channels: Seq<usize>)
    ensures
        listed_names(names, channels) == channels.filter(|c: usize| c < names.len()).map_values(
            |c: usize| seq![','] + names[c as int],
        ).flatten(),
    decreases channels.len(),
{
    reveal(Seq::filter);
    reveal_strlit(",");
    let known = |c: usize| c < names.len();
    let shown = |c: usize| seq![','] + names[c as int];
    let all = channels.filter(known).map_values(shown);
    if channels.len() > 0 {
        let head = channels.drop_last();
        law_listed_names(names, head);
        let before = head.filter(known).map_values(shown);
        if known(channels.last()) {
            let item = shown(channels.last());
            assert(all =~= before.push(item));
            before.lemma_flatten_push(item);
            assert(","@ =~= seq![',']);
            assert(listed_names(names, head) + ","@ + names[channels.last() as int]
                =~= before.flatten() + item);
        } else {
            assert(all =~= before);
        }
    } else {
        assert(all =~= Seq::<Seq<char>>::empty());
        assert(all.flatten() =~= Seq::<char>::empty());
    }
}

} // verus!
