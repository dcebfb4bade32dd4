//! Queries that read rows of an indexed text file one after the other.

use crate::csv_rows::{find_byte, lemma_run, pieces, COMMA};
use crate::envelope::{
    every, law_thinned_bounded, lemma_rounded_up, lemma_rounded_up_by_one, rounded_up, thin, thinned,
};
use crate::sample::{
    at_most, below, finite, lt, nan, same, Point, Sample, LARGEST, SMALLEST, ZERO,
};
use crate::stats_query::{greatest_from, law_extremes_from, least_from};
use vstd::arithmetic::div_mod::{lemma_fundamental_div_mod, lemma_fundamental_div_mod_converse};
use vstd::prelude::*;

verus! {

/// Where field `k` of a line is; `None` if the line has fewer fields.
pub fn nth_field(line: &[u8], k: usize) -> (r: Option<(usize, usize)>)
    ensures
        match r {
            Some((from, to)) => k < pieces(line@, COMMA).len() && from <= to <= line@.len()
                && pieces(line@, COMMA)[k as int] == line@.subrange(from as int, to as int),
            None => k >= pieces(line@, COMMA).len(),
        },
{
    let n: usize = line.len();
    let mut from: usize = 0;
    let mut i: usize = 0;
    let ghost all = pieces(line@, COMMA);
    assert(line@.skip(0) =~= line@);
    assert(all.skip(0) =~= all);
    loop
        invariant
            i <= k,
            from <= n,
            n == line@.len(),
            all == pieces(line@, COMMA),
            i < all.len(),
            all.skip(i as int) == pieces(line@.skip(from as int), COMMA),
        decreases k - i,
    {
        let ghost rest = line@.skip(from as int);
        assert(line@.subrange(from as int, n as int) =~= rest);
        proof {
            lemma_run(rest, COMMA);
        }
        let at: usize = find_byte(line, from, n, COMMA);
        assert(rest.take(at - from) =~= line@.subrange(from as int, at as int));
        assert(all[i as int] == all.skip(i as int)[0]);
        if i == k {
            if at == n {
                assert(rest =~= line@.subrange(from as int, at as int));
            }
            return Some((from, at));
        }
        if at == n {
            assert(all.skip(i as int).len() == 1);
            return None;
        }
        assert(rest.skip(at - from + 1) =~= line@.skip(at + 1));
        assert(all.skip(i + 1) =~= pieces(line@.skip(at + 1), COMMA)) by {
            assert(all.skip(i + 1) =~= all.skip(i as int).drop_first());
            assert(all.skip(i as int).drop_first() =~= pieces(line@.skip(at + 1), COMMA));
        }
        assert(pieces(line@.skip(at + 1), COMMA).len() >= 1);
        from = at + 1;
        i += 1;
    }
}

/// The column of a channel; `None` if there is no such channel.
pub fn channel_column(n_cols: u32, ch_idx: usize) -> (col: Option<usize>)
    ensures
        match col {
            Some(c) => c < n_cols && (n_cols > 1 ==> c == ch_idx + 1) && (n_cols <= 1 ==> c == 0),
            None => if n_cols > 1 {
                ch_idx + 1 >= n_cols
            } else {
                n_cols == 0
            },
        },
{
    if n_cols > 1 {
        if ch_idx >= n_cols as usize - 1 {
            None
        } else {
            Some(ch_idx + 1)
        }
    } else if n_cols == 1 {
        Some(0)
    } else {
        None
    }
}

/// What to do with a row.
#[derive(Clone, Copy, Debug, PartialEq, Eq, Structural)]
pub enum RangeStep {
    /// The row is past the range: stop.
    Past,
    /// The row is before the range.
    Before,
    /// The row is in the range.
    Inside,
}

/// Places a row's instant against the range.
pub fn place_row(t: Sample, x_min: Sample, x_max: Sample) -> (step: RangeStep)
    ensures
        step == (if below(x_max, t) {
            RangeStep::Past
        } else if below(t, x_min) {
            RangeStep::Before
        } else {
            RangeStep::Inside
        }),
{
    if lt(x_max, t) {
        RangeStep::Past
    } else if lt(t, x_min) {
        RangeStep::Before
    } else {
        RangeStep::Inside
    }
}

/// Every how-many-th row of a range is kept, for an estimate of its rows and
/// the points wanted.
pub fn row_step(est_rows: u64, max_points: usize) -> (step: u64)
    requires
        max_points > 0 || est_rows == 0,
    ensures
        step == (if est_rows > max_points {
            est_rows as int / max_points as int
        } else {
            1
        }),
        step >= 1,
{
    if est_rows > max_points as u64 {
        proof {
            let (a, m, q) = (est_rows as int, max_points as int, est_rows as int / max_points as int);
            lemma_fundamental_div_mod(a, m);
            assert(q >= 1) by (nonlinear_arith)
                requires
                    a > m,
                    m > 0,
                    a == m * q + a % m,
                    a % m < m,
            ;
        }
        est_rows / max_points as u64
    } else {
        1
    }
}

/// The rows that are neither before the range nor past it.
pub open spec fn inside_rows(rows: Seq<Point>, x_min: Sample, x_max: Sample) -> Seq<Point>
    decreases rows.len(),
{
    if rows.len() == 0 {
        Seq::empty()
    } else {
        let earlier = inside_rows(rows.drop_last(), x_min, x_max);
        if below(x_max, rows.last().t) || below(rows.last().t, x_min) {
            earlier
        } else {
            earlier.push(rows.last())
        }
    }
}

/// A query that takes rows in order until one is past the range or there are
/// enough.
pub struct RangeQuery {
    x_min: Sample,
    x_max: Sample,
    step: u64,
    limit: usize,
    phase: u64,
    points: Vec<Point>,
    rows: Ghost<Seq<Point>>,
}

impl RangeQuery {
    /// The rows taken so far, as far as they had an instant and a value.
    pub closed spec fn rows(&self) -> Seq<Point> {
        self.rows@
    }

    /// The range of instants.
    pub closed spec fn range(&self) -> (Sample, Sample) {
        (self.x_min, self.x_max)
    }

    /// Every how-many-th row of the range is kept.
    pub closed spec fn step(&self) -> int {
        self.step as int
    }

    /// How many points are enough.
    pub closed spec fn limit(&self) -> int {
        self.limit as int
    }

    /// The points kept so far.
    pub closed spec fn kept(&self) -> Seq<Point> {
        self.points@
    }

    /// What holds between the rows: every so-many-th row of the range is kept.
    pub closed spec fn wf(&self) -> bool {
        let inside = inside_rows(self.rows@, self.x_min, self.x_max);
        &&& self.step >= 1
        &&& self.points@ == every(inside, self.step as int)
        &&& self.phase == inside.len() % self.step as nat
    }

    /// Starts a query.
    pub fn new(x_min: Sample, x_max: Sample, step: u64, limit: usize) -> (q: RangeQuery)
        requires
            step >= 1,
        ensures
            q.wf(),
            q.rows() == Seq::<Point>::empty(),
            q.range() == (x_min, x_max),
            q.step() == step,
            q.limit() == limit,
    {
        let q: RangeQuery = RangeQuery {
            x_min,
            x_max,
            step,
            limit,
            phase: 0,
            points: Vec::new(),
            rows: Ghost(Seq::empty()),
        };
        proof {
            let s = step as int;
            lemma_fundamental_div_mod_converse(s - 1, s, 0, s - 1);
            lemma_fundamental_div_mod_converse(0, s, 0, 0);
            assert(q.points@ =~= every(Seq::<Point>::empty(), s));
        }
        q
    }

    /// Takes one row and tells whether to go on.  A row without an instant or
    /// without a value counts for nothing.
    pub fn take_row(&mut self, time: Option<Sample>, value: Option<Sample>) -> (more: bool)
        requires
            old(self).wf(),
        ensures
            final(self).wf(),
            final(self).range() == old(self).range(),
            final(self).step() == old(self).step(),
            final(self).limit() == old(self).limit(),
            match (time, value) {
                (Some(t), Some(v)) => {
                    &&& final(self).rows() == old(self).rows().push(Point { t, v })
                    &&& more == (!below(old(self).range().1, t) && (below(t, old(self).range().0)
                        || final(self).kept().len() < old(self).limit()))
                },
                _ => more && final(self).rows() == old(self).rows(),
            },
            final(self).kept().len() <= old(self).kept().len() + 1,
            more && old(self).kept().len() < old(self).limit() ==> final(self).kept().len()
                < old(self).limit(),
    {
        let (t, v) = match (time, value) {
            (Some(t), Some(v)) => (t, v),
            _ => {
                return true;
            },
        };
        let ghost before = *self;
        let ghost inside = inside_rows(self.rows@, self.x_min, self.x_max);
        self.rows = Ghost(self.rows@.push(Point { t, v }));
        assert(self.rows@.drop_last() =~= before.rows@);
        match place_row(t, self.x_min, self.x_max) {
            RangeStep::Past => false,
            RangeStep::Before => true,
            RangeStep::Inside => {
                let ghost n = inside.len() as int;
                let ghost s = self.step as int;
                proof {
                    lemma_every_push(inside, Point { t, v }, s);
                }
                if self.phase == 0 {
                    self.points.push(Point { t, v });
                }
                self.phase = if self.phase + 1 == self.step {
                    0
                } else {
                    self.phase + 1
                };
                self.points.len() < self.limit
            },
        }
    }

    /// The points kept, in order.
    pub fn finish(self) -> (points: Vec<Point>)
        requires
            self.wf(),
        ensures
            points@ == self.kept(),
            points@ == every(
                inside_rows(self.rows(), self.range().0, self.range().1),
                self.step(),
            ),
    {
        self.points
    }
}

proof fn lemma_every_push(inside: Seq<Point>, p: Point, s: int)
    requires
        s >= 1,
    ensures
        ({
            let n = inside.len() as int;
            &&& every(inside.push(p), s) == if n % s == 0 {
                every(inside, s).push(p)
            } else {
                every(inside, s)
            }
            &&& (n + 1) % s == if n % s + 1 == s {
                0
            } else {
                n % s + 1
            }
        }),
{
    let n = inside.len() as int;
    let (q, r) = (n / s, n % s);
    lemma_fundamental_div_mod(n, s);
    assert(s * q == q * s) by (nonlinear_arith);
    assert((q + 1) * s == q * s + s) by (nonlinear_arith);
    if r + 1 == s {
        lemma_fundamental_div_mod_converse(n + 1, s, q + 1, 0);
    } else {
        lemma_fundamental_div_mod_converse(n + 1, s, q, r + 1);
    }
    if r == 0 {
        lemma_fundamental_div_mod_converse(n + s - 1, s, q, s - 1);
        lemma_fundamental_div_mod_converse(n + 1 + s - 1, s, q + 1, 0);
    } else {
        lemma_fundamental_div_mod_converse(n + s - 1, s, q + 1, r - 1);
        lemma_fundamental_div_mod_converse(n + 1 + s - 1, s, q + 1, r);
    }
    let a = every(inside, s);
    let b = every(inside.push(p), s);
    assert forall|i: int| 0 <= i < a.len() implies (#[trigger] a[i]) == b[i] by {
        let k = (n + s - 1) / s;
        assert(i * s < n && i * s >= 0) by (nonlinear_arith)
            requires
                0 <= i < k,
                k == if r == 0 {
                    q
                } else {
                    q + 1
                },
                n == q * s + r,
                0 <= r < s,
        ;
    }
    if r == 0 {
        assert(b =~= a.push(p));
    } else {
        assert(b =~= a);
    }
}

// ---------------------------------------------------------------------------
// Four points per bin
// ---------------------------------------------------------------------------

/// One bin of samples: its first and its last sample, and its extremes.
#[derive(Clone, Copy, Debug, PartialEq, Eq, Structural)]
pub struct Bin4 {
    pub x_first: Sample,
    pub y_first: Sample,
    pub x_last: Sample,
    pub y_last: Sample,
    pub y_min: Sample,
    pub y_max: Sample,
    pub count: usize,
}

/// The points of one bin, in order.
pub open spec fn binned(points: Seq<Point>, bin_of: Seq<usize>, j: int) -> Seq<Point>
    decreases points.len(),
{
    if points.len() == 0 {
        Seq::empty()
    } else {
        let earlier = binned(points.drop_last(), bin_of, j);
        if bin_of[points.len() - 1] == j {
            earlier.push(points.last())
        } else {
            earlier
        }
    }
}

/// The values of some points.
pub open spec fn values_of_points(points: Seq<Point>) -> Seq<Sample> {
    Seq::new(points.len(), |i: int| points[i].v)
}

/// What a bin records of its points.
pub open spec fn bin4_of(points: Seq<Point>) -> Bin4 {
    let n = points.len() as int;
    let ys = values_of_points(points);
    Bin4 {
        x_first: if n == 0 {
            ZERO
        } else {
            points[0].t
        },
        y_first: if n == 0 {
            ZERO
        } else {
            points[0].v
        },
        x_last: if n == 0 {
            ZERO
        } else {
            points[n - 1].t
        },
        y_last: if n == 0 {
            ZERO
        } else {
            points[n - 1].v
        },
        y_min: least_from(LARGEST, ys),
        y_max: greatest_from(SMALLEST, ys),
        count: n as usize,
    }
}

impl Bin4 {
    /// A bin without points.
    pub fn new() -> (b: Bin4)
        ensures
            b == bin4_of(Seq::<Point>::empty()),
    {
        Bin4 {
            x_first: ZERO,
            y_first: ZERO,
            x_last: ZERO,
            y_last: ZERO,
            y_min: LARGEST,
            y_max: SMALLEST,
            count: 0,
        }
    }

    /// The bin with one point more.
    fn with(self, p: Point, Ghost(points): Ghost<Seq<Point>>) -> (b: Bin4)
        requires
            self == bin4_of(points),
            points.len() < usize::MAX,
        ensures
            b == bin4_of(points.push(p)),
    {
        let mut b: Bin4 = self;
        proof {
            let ys = values_of_points(points);
            assert(values_of_points(points.push(p)) =~= ys.push(p.v));
            assert(ys.push(p.v).drop_last() =~= ys);
        }
        if b.count == 0 {
            b.x_first = p.t;
            b.y_first = p.v;
        }
        b.x_last = p.t;
        b.y_last = p.v;
        if lt(p.v, b.y_min) {
            b.y_min = p.v;
        }
        if lt(b.y_max, p.v) {
            b.y_max = p.v;
        }
        b.count = b.count + 1;
        b
    }
}

/// Puts points into bins; `bin_of` tells the bin of each point.
pub fn fill_bins(points: &[Point], bin_of: &[usize], n_bins: usize) -> (bins: Vec<Bin4>)
    requires
        bin_of@.len() == points@.len(),
        forall|i: int| 0 <= i < bin_of@.len() ==> (#[trigger] bin_of@[i]) < n_bins,
    ensures
        bins@ == Seq::new(n_bins as nat, |j: int| bin4_of(binned(points@, bin_of@, j))),
{
    assert(points@.len() == points.len());
    let mut bins: Vec<Bin4> = Vec::new();
    let mut j: usize = 0;
    while j < n_bins
        invariant
            j <= n_bins,
            bins@ == Seq::new(j as nat, |k: int| bin4_of(Seq::<Point>::empty())),
        decreases n_bins - j,
    {
        bins.push(Bin4::new());
        j += 1;
        assert(bins@ =~= Seq::new(j as nat, |k: int| bin4_of(Seq::<Point>::empty())));
    }
    let mut i: usize = 0;
    assert(points@.take(0) =~= Seq::<Point>::empty());
    assert(bins@ =~= Seq::new(
        n_bins as nat,
        |j: int| bin4_of(binned(points@.take(0), bin_of@, j)),
    ));
    while i < points.len()
        invariant
            i <= points@.len(),
            points@.len() <= usize::MAX,
            bin_of@.len() == points@.len(),
            forall|i: int| 0 <= i < bin_of@.len() ==> (#[trigger] bin_of@[i]) < n_bins,
            bins@ == Seq::new(
                n_bins as nat,
                |j: int| bin4_of(binned(points@.take(i as int), bin_of@, j)),
            ),
        decreases points@.len() - i,
    {
        let b: usize = bin_of[i];
        assert(points@.take(i + 1).drop_last() =~= points@.take(i as int));
        proof {
            lemma_binned_len(points@.take(i as int), bin_of@, b as int);
        }
        let bin: Bin4 = bins[b].with(
            points[i],
            Ghost(binned(points@.take(i as int), bin_of@, b as int)),
        );
        bins.set(b, bin);
        i += 1;
        assert(bins@ =~= Seq::new(
            n_bins as nat,
            |j: int| bin4_of(binned(points@.take(i as int), bin_of@, j)),
        ));
    }
    assert(points@.take(i as int) =~= points@);
    bins
}

proof fn lemma_binned_len(points: Seq<Point>, bin_of: Seq<usize>, j: int)
    ensures
        binned(points, bin_of, j).len() <= points.len(),
    decreases points.len(),
{
    if points.len() > 0 {
        lemma_binned_len(points.drop_last(), bin_of, j);
    }
}

/// How one bin is drawn: its first sample, its extremes where they differ
/// enough, and its last sample.
pub open spec fn bin4_points(b: Bin4, wide: bool) -> Seq<Point> {
    let first = Point { t: b.x_first, v: b.y_first };
    let low = Point { t: b.x_first, v: b.y_min };
    let high = Point { t: b.x_first, v: b.y_max };
    let last = Point { t: b.x_last, v: b.y_last };
    if b.count == 0 {
        Seq::empty()
    } else if !wide {
        seq![first, last]
    } else if below(b.y_min, b.y_max) {
        seq![first, low, high, last]
    } else {
        seq![first, high, low, last]
    }
}

/// How the bins are drawn, one after the other.
pub open spec fn m4_points(bins: Seq<Bin4>, wide: Seq<bool>) -> Seq<Point>
    decreases bins.len(),
{
    if bins.len() == 0 {
        Seq::empty()
    } else {
        m4_points(bins.drop_last(), wide) + bin4_points(bins.last(), wide[bins.len() - 1])
    }
}

/// Draws the bins; `wide` tells of each whether its extremes differ enough to
/// be drawn.
pub fn m4_downsample(bins: &[Bin4], wide: &[bool]) -> (out: Vec<Point>)
    requires
        wide@.len() == bins@.len(),
    ensures
        out@ == m4_points(bins@, wide@),
{
    let mut out: Vec<Point> = Vec::new();
    let mut j: usize = 0;
    assert(bins@.take(0) =~= Seq::<Bin4>::empty());
    while j < bins.len()
        invariant
            j <= bins@.len(),
            wide@.len() == bins@.len(),
            out@ == m4_points(bins@.take(j as int), wide@),
        decreases bins@.len() - j,
    {
        let b: Bin4 = bins[j];
        let ghost before = out@;
        assert(bins@.take(j + 1).drop_last() =~= bins@.take(j as int));
        if b.count > 0 {
            out.push(Point { t: b.x_first, v: b.y_first });
            if wide[j] {
                if lt(b.y_min, b.y_max) {
                    out.push(Point { t: b.x_first, v: b.y_min });
                    out.push(Point { t: b.x_first, v: b.y_max });
                } else {
                    out.push(Point { t: b.x_first, v: b.y_max });
                    out.push(Point { t: b.x_first, v: b.y_min });
                }
            }
            out.push(Point { t: b.x_last, v: b.y_last });
        }
        assert(out@ =~= before + bin4_points(b, wide@[j as int]));
        j += 1;
    }
    assert(bins@.take(j as int) =~= bins@);
    out
}

/// Downsampling is bounded: at most four points for each bin.
pub proof fn law_m4_bounded(bins: Seq<Bin4>, wide: Seq<bool>)
    ensures
        m4_points(bins, wide).len() <= 4 * bins.len(),
    decreases bins.len(),
{
    if bins.len() > 0 {
        law_m4_bounded(bins.drop_last(), wide);
    }
}

/// How many bins points are put into, for the points wanted: one for every four
/// of them, and at least one.
pub fn bin_count(max_points: usize) -> (n: usize)
    ensures
        n == (if max_points >= 4 {
            max_points / 4
        } else {
            1
        }),
{
    if max_points >= 4 {
        max_points / 4
    } else {
        1
    }
}

/// The points that are shown of a run of points, given its bins: all where there
/// are no more than wanted, else those of the bins, thinned evenly where fewer
/// are wanted than one bin is drawn with.
pub open spec fn reduced(
    points: Seq<Point>,
    bins: Seq<Bin4>,
    wide: Seq<bool>,
    max_points: nat,
) -> Seq<Point> {
    if points.len() <= max_points {
        points
    } else if max_points > 0 {
        thinned(m4_points(bins, wide), max_points)
    } else {
        Seq::empty()
    }
}

/// With four points wanted or more, the points of the bins are shown as they
/// are.
pub proof fn law_bins_shown(
    points: Seq<Point>,
    bins: Seq<Bin4>,
    wide: Seq<bool>,
    max_points: nat,
)
    requires
        points.len() > max_points >= 4,
        bins.len() <= max_points / 4,
    ensures
        reduced(points, bins, wide, max_points) == m4_points(bins, wide),
{
    law_m4_bounded(bins, wide);
    law_thinned_bounded(m4_points(bins, wide), max_points);
}

/// Reduces a run of points to no more than wanted.
pub fn reduce_points(
    points: Vec<Point>,
    bins: &[Bin4],
    wide: &[bool],
    max_points: usize,
) -> (out: Vec<Point>)
    requires
        wide@.len() == bins@.len(),
    ensures
        out@ == reduced(points@, bins@, wide@, max_points as nat),
        out@.len() <= max_points,
{
    if points.len() <= max_points {
        points
    } else if max_points > 0 {
        proof {
            law_thinned_bounded(m4_points(bins@, wide@), max_points as nat);
        }
        thin(m4_downsample(bins, wide), max_points)
    } else {
        Vec::new()
    }
}

/// The rows in the range are those that are neither before it nor past it, in
/// order.
pub proof fn law_inside_rows(rows: Seq<Point>, x_min: Sample, x_max: Sample)
    ensures
        inside_rows(rows, x_min, x_max) == rows.filter(
            |p: Point| !below(x_max, p.t) && !below(p.t, x_min),
        ),
    decreases rows.len(),
{
    reveal(Seq::filter);
    if rows.len() > 0 {
        law_inside_rows(rows.drop_last(), x_min, x_max);
    }
}

/// Keeping every so-many-th row begins with the first one and goes on to the end.
pub proof fn law_every(points: Seq<Point>, step: int, i: int)
    requires
        step >= 1,
    ensures
        ({
            let (out, n) = (every(points, step), points.len() as int);
            &&& n == 0 ==> out.len() == 0
            &&& n > 0 ==> (out.len() - 1) * step < n <= out.len() * step
            &&& 0 <= i < out.len() ==> out[i] == points[i * step]
        }),
{
    let n = points.len() as int;
    lemma_rounded_up(n, step);
    if n > 0 {
        lemma_rounded_up_by_one(n, step);
        lemma_fundamental_div_mod(n - 1, step);
        let l = rounded_up(n, step);
        assert((l - 1) * step < n <= l * step) by (nonlinear_arith)
            requires
                n - 1 == step * ((n - 1) / step) + (n - 1) % step,
                0 <= (n - 1) % step < step,
                l == (n - 1) / step + 1,
        ;
    }
}

/// A bin has the points that were put into it, in order.
pub proof fn law_binned(points: Seq<Point>, bin_of: Seq<usize>, j: int)
    requires
        bin_of.len() == points.len(),
    ensures
        binned(points, bin_of, j) == Seq::new(
            points.len(),
            |i: int| (points[i], bin_of[i]),
        ).filter(|p: (Point, usize)| p.1 == j).map_values(|p: (Point, usize)| p.0),
    decreases points.len(),
{
    reveal(Seq::filter);
    let all = Seq::new(points.len(), |i: int| (points[i], bin_of[i]));
    let keep = |p: (Point, usize)| p.1 == j;
    let point = |p: (Point, usize)| p.0;
    if points.len() > 0 {
        let (ps, bs) = (points.drop_last(), bin_of.drop_last());
        law_binned(ps, bs, j);
        lemma_binned_prefix(ps, bin_of, bs, j);
        assert(all.drop_last() =~= Seq::new(ps.len(), |i: int| (ps[i], bs[i])));
        assert(all.filter(keep).map_values(point) =~= binned(points, bin_of, j));
    } else {
        assert(all.filter(keep).map_values(point) =~= Seq::<Point>::empty());
    }
}

proof fn lemma_binned_prefix(points: Seq<Point>, a: Seq<usize>, b: Seq<usize>, j: int)
    requires
        points.len() <= a.len(),
        points.len() <= b.len(),
        forall|i: int| 0 <= i < points.len() ==> (#[trigger] a[i]) == b[i],
    ensures
        binned(points, a, j) == binned(points, b, j),
    decreases points.len(),
{
    if points.len() > 0 {
        assert(a[points.len() - 1] == b[points.len() - 1]);
        lemma_binned_prefix(points.drop_last(), a, b, j);
    }
}

/// What a bin records: its first and its last point, how many it has, and a least
/// and a greatest value, which are those of some of its points.
pub proof fn law_bin4(points: Seq<Point>)
    requires
        0 < points.len() <= usize::MAX,
        forall|i: int| 0 <= i < points.len() ==> finite((#[trigger] points[i]).v),
    ensures
        ({
            let (b, n) = (bin4_of(points), points.len() as int);
            &&& b.count == n
            &&& b.x_first == points[0].t && b.y_first == points[0].v
            &&& b.x_last == points[n - 1].t && b.y_last == points[n - 1].v
            &&& exists|i: int| 0 <= i < n && same((#[trigger] points[i]).v, b.y_min)
            &&& exists|i: int| 0 <= i < n && same((#[trigger] points[i]).v, b.y_max)
            &&& forall|i: int|
                0 <= i < n ==> at_most(b.y_min, (#[trigger] points[i]).v) && at_most(
                    points[i].v,
                    b.y_max,
                )
        }),
{
    let ys = values_of_points(points);
    let (b, n) = (bin4_of(points), points.len() as int);
    law_extremes_from(LARGEST, ys);
    law_extremes_from(SMALLEST, ys);
    assert forall|i: int| 0 <= i < n implies at_most(b.y_min, (#[trigger] points[i]).v) && at_most(
        points[i].v,
        b.y_max,
    ) by {
        assert(ys[i] == points[i].v);
    }
    assert(finite(points[0].v));
    assert(at_most(points[0].v, LARGEST) && at_most(SMALLEST, points[0].v));
    if ys.contains(b.y_min) {
        let i = choose|i: int| 0 <= i < ys.len() && ys[i] == b.y_min;
        assert(same(points[i].v, b.y_min));
    } else {
        assert(same(points[0].v, b.y_min));
    }
    if ys.contains(b.y_max) {
        let i = choose|i: int| 0 <= i < ys.len() && ys[i] == b.y_max;
        assert(same(points[i].v, b.y_max));
    } else {
        assert(same(points[0].v, b.y_max));
    }
}

/// A bin is drawn from its first to its last point, with both its extremes in
/// between where they differ enough; an empty bin is not drawn, and bins are drawn
/// one after the other.
pub proof fn law_m4_points(bins: Seq<Bin4>, wide: Seq<bool>, b: Bin4, w: bool)
    requires
        wide.len() == bins.len(),
    ensures
        m4_points(Seq::empty(), wide).len() == 0,
        ({
            let (all, before) = (m4_points(bins.push(b), wide.push(w)), m4_points(bins, wide));
            let n = before.len() as int;
            &&& all.take(n) == before
            &&& b.count == 0 ==> all.len() == n
            &&& b.count > 0 ==> {
                &&& all.len() == n + if w {
                    4int
                } else {
                    2int
                }
                &&& all[n] == (Point { t: b.x_first, v: b.y_first })
                &&& all.last() == (Point { t: b.x_last, v: b.y_last })
                &&& w ==> all[n + 1].t == b.x_first && all[n + 2].t == b.x_first
                &&& w ==> (all[n + 1].v == b.y_min && all[n + 2].v == b.y_max) || (all[n + 1].v
                    == b.y_max && all[n + 2].v == b.y_min)
                &&& w && below(b.y_min, b.y_max) ==> all[n + 1].v == b.y_min
            }
        }),
{
    assert(bins.push(b).drop_last() =~= bins);
    lemma_m4_prefix(bins, wide.push(w), wide);
    let (all, before) = (m4_points(bins.push(b), wide.push(w)), m4_points(bins, wide));
    assert(all.take(before.len() as int) =~= before);
}

proof fn lemma_m4_prefix(bins: Seq<Bin4>, a: Seq<bool>, b: Seq<bool>)
    requires
        bins.len() <= a.len(),
        bins.len() <= b.len(),
        forall|i: int| 0 <= i < bins.len() ==> (#[trigger] a[i]) == b[i],
    ensures
        m4_points(bins, a) == m4_points(bins, b),
    decreases bins.len(),
{
    if bins.len() > 0 {
        assert(a[bins.len() - 1] == b[bins.len() - 1]);
        lemma_m4_prefix(bins.drop_last(), a, b);
    }
}

/// Points are shown as they are where there are no more than wanted, and never
/// more than wanted are shown.
pub proof fn law_reduced(points: Seq<Point>, bins: Seq<Bin4>, wide: Seq<bool>, max_points: nat)
    ensures
        points.len() <= max_points ==> reduced(points, bins, wide, max_points) == points,
        reduced(points, bins, wide, max_points).len() <= max_points,
        points.len() > max_points > 0 && m4_points(bins, wide).len() <= max_points ==> reduced(
            points,
            bins,
            wide,
            max_points,
        ) == m4_points(bins, wide),
{
    if max_points > 0 {
        law_thinned_bounded(m4_points(bins, wide), max_points);
    }
}

/// The extremes of a bin bound all its values that are not NaNs, and are values of
/// its points unless all of them are infinite or NaNs.
pub proof fn law_bin4_extremes(points: Seq<Point>)
    ensures
        ({
            let b = bin4_of(points);
            &&& forall|i: int|
                0 <= i < points.len() && !nan((#[trigger] points[i]).v) ==> at_most(
                    b.y_min,
                    points[i].v,
                ) && at_most(points[i].v, b.y_max)
            &&& b.y_min == 0x7fef_ffff_ffff_ffffu64 || exists|i: int|
                0 <= i < points.len() && (#[trigger] points[i]).v == b.y_min
            &&& b.y_max == 0xffef_ffff_ffff_ffffu64 || exists|i: int|
                0 <= i < points.len() && (#[trigger] points[i]).v == b.y_max
        }),
{
    let ys = values_of_points(points);
    let b = bin4_of(points);
    law_extremes_from(LARGEST, ys);
    law_extremes_from(SMALLEST, ys);
    assert forall|i: int| 0 <= i < points.len() && !nan((#[trigger] points[i]).v) implies at_most(
        b.y_min,
        points[i].v,
    ) && at_most(points[i].v, b.y_max) by {
        assert(ys[i] == points[i].v);
    }
    if ys.contains(b.y_min) {
        let i = choose|i: int| 0 <= i < ys.len() && ys[i] == b.y_min;
        assert(points[i].v == b.y_min);
    }
    if ys.contains(b.y_max) {
        let i = choose|i: int| 0 <= i < ys.len() && ys[i] == b.y_max;
        assert(points[i].v == b.y_max);
    }
}

} // verus!
