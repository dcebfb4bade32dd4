//! The min/max envelope: a bounded picture of a long run of samples.
//!
//! Samples in view are grouped, in order, into bins of `stride` samples.  A
//! bin is drawn as one point at its least value and, where the bin is not
//! flat, a second one at its greatest value, both at the bin's first instant.
//! Spikes therefore survive whatever the stride is.

use crate::sample::{at_most, below, in_range, lt, nan, within, Point, Sample, NAN};
use vstd::arithmetic::div_mod::{lemma_fundamental_div_mod, lemma_fundamental_div_mod_converse};
use vstd::arithmetic::mul::{lemma_mul_inequality, lemma_mul_is_distributive_add_other_way};
use vstd::prelude::*;

verus! {

// ---------------------------------------------------------------------------
// The model
// ---------------------------------------------------------------------------

/// The sample at an index of a column; a NaN where the column has none.
pub open spec fn value_or_nan(values: Seq<Sample>, i: int) -> Sample {
    if 0 <= i < values.len() {
        values[i]
    } else {
        NAN
    }
}

/// The samples of a column whose instants are in view, in order.
pub open spec fn visible(
    times: Seq<Sample>,
    values: Seq<Sample>,
    x_min: Sample,
    x_max: Sample,
) -> Seq<Point>
    decreases times.len(),
{
    if times.len() == 0 {
        Seq::empty()
    } else {
        let earlier = visible(times.drop_last(), values, x_min, x_max);
        if within(times.last(), x_min, x_max) {
            earlier.push(Point { t: times.last(), v: value_or_nan(values, times.len() - 1) })
        } else {
            earlier
        }
    }
}

/// The first least value of a bin.
pub open spec fn lowest(bin: Seq<Point>) -> Sample
    recommends
        bin.len() > 0,
    decreases bin.len(),
{
    if bin.len() <= 1 {
        bin[0].v
    } else {
        let m = lowest(bin.drop_last());
        if below(bin.last().v, m) {
            bin.last().v
        } else {
            m
        }
    }
}

/// The first greatest value of a bin.
pub open spec fn highest(bin: Seq<Point>) -> Sample
    recommends
        bin.len() > 0,
    decreases bin.len(),
{
    if bin.len() <= 1 {
        bin[0].v
    } else {
        let m = highest(bin.drop_last());
        if below(m, bin.last().v) {
            bin.last().v
        } else {
            m
        }
    }
}

/// What is drawn of a bin: its first instant and its extremes.
#[derive(Clone, Copy, Debug, PartialEq, Eq, Structural)]
pub struct Bar {
    pub t: Sample,
    pub low: Sample,
    pub high: Sample,
}

/// The points of a bar: one at its least value and, where it is not flat, one at
/// its greatest value.
pub open spec fn bar_points(b: Bar) -> Seq<Point> {
    if below(b.low, b.high) {
        seq![Point { t: b.t, v: b.low }, Point { t: b.t, v: b.high }]
    } else {
        seq![Point { t: b.t, v: b.low }]
    }
}

/// The bar of a bin.
pub open spec fn bin_bar(bin: Seq<Point>) -> Bar {
    Bar { t: bin[0].t, low: lowest(bin), high: highest(bin) }
}

/// How a bin is drawn.
pub open spec fn bin_points(bin: Seq<Point>) -> Seq<Point> {
    bar_points(bin_bar(bin))
}

/// Where the last bin of `n` samples begins.
pub open spec fn last_bin(n: nat, stride: nat) -> int {
    ((n - 1) / stride as int) * stride
}

/// The envelope of a run of samples.
pub open spec fn envelope(points: Seq<Point>, stride: nat) -> Seq<Point>
    decreases points.len(),
{
    if points.len() == 0 || stride == 0 {
        Seq::empty()
    } else {
        proof {
            lemma_last_bin_inside(points.len(), stride);
        }
        let first = last_bin(points.len(), stride);
        envelope(points.take(first), stride) + bin_points(points.skip(first))
    }
}

/// How many bins are wanted: a bin gives up to two points, so half as many as
/// points, but at least one.
pub open spec fn bins_for(max_points: nat) -> int {
    if max_points < 2 {
        1
    } else {
        max_points as int / 2
    }
}

/// How often a divisor has to be taken to reach a number.
pub open spec fn rounded_up(n: int, d: int) -> int {
    (n + d - 1) / d
}

/// The samples per bin, for a number of rows and the points wanted.
pub open spec fn stride_for(rows: int, max_points: nat) -> int {
    if rows > bins_for(max_points) {
        rows / bins_for(max_points)
    } else {
        1
    }
}

/// Which of the points are kept where there are too many: every `step`-th.
pub open spec fn every(points: Seq<Point>, step: int) -> Seq<Point> {
    Seq::new(rounded_up(points.len() as int, step) as nat, |i: int| points[i * step])
}

/// Points thinned evenly where there are more than wanted.
pub open spec fn thinned(points: Seq<Point>, max_points: nat) -> Seq<Point> {
    if points.len() > max_points {
        every(points, rounded_up(points.len() as int, max_points as int))
    } else {
        points
    }
}

/// The bars of a run of samples, one for each bin.
pub open spec fn bars(points: Seq<Point>, stride: nat) -> Seq<Bar>
    decreases points.len(),
{
    if points.len() == 0 || stride == 0 {
        Seq::empty()
    } else {
        proof {
            lemma_last_bin_inside(points.len(), stride);
        }
        let first = last_bin(points.len(), stride);
        bars(points.take(first), stride).push(bin_bar(points.skip(first)))
    }
}

/// The points of several bars.
pub open spec fn drawn(bars: Seq<Bar>) -> Seq<Point>
    decreases bars.len(),
{
    if bars.len() == 0 {
        Seq::empty()
    } else {
        drawn(bars.drop_last()) + bar_points(bars.last())
    }
}

/// Two neighbouring bars as one.
pub open spec fn joint(a: Bar, b: Bar) -> Bar {
    Bar {
        t: a.t,
        low: if below(b.low, a.low) {
            b.low
        } else {
            a.low
        },
        high: if below(a.high, b.high) {
            b.high
        } else {
            a.high
        },
    }
}

/// Bars taken together two by two; the last one stays alone where their number
/// is odd.
pub open spec fn paired(bars: Seq<Bar>) -> Seq<Bar> {
    Seq::new(
        rounded_up(bars.len() as int, 2) as nat,
        |i: int|
            if 2 * i + 1 < bars.len() {
                joint(bars[2 * i], bars[2 * i + 1])
            } else {
                bars[2 * i]
            },
    )
}

/// The points shown of several bars, no more than wanted.  All are shown where
/// they fit, and evenly thinned ones where that gives exactly as many as wanted;
/// else neighbouring bars are taken together, so that no extreme is lost, and
/// only what is still too much is thinned.
pub open spec fn fitted(bars: Seq<Bar>, max_points: nat) -> Seq<Point> {
    let points = drawn(bars);
    if points.len() <= max_points || points.len() % max_points == 0 {
        thinned(points, max_points)
    } else {
        thinned(drawn(paired(bars)), max_points)
    }
}

// ---------------------------------------------------------------------------
// Facts about the model
// ---------------------------------------------------------------------------

/// The last bin is a part of the samples, and no longer than a bin.
pub proof fn lemma_last_bin_inside(n: nat, stride: nat)
    requires
        n > 0,
        stride > 0,
    ensures
        0 <= last_bin(n, stride) < n,
        n - last_bin(n, stride) <= stride,
{
    let (a, s) = (n - 1, stride as int);
    lemma_fundamental_div_mod(a, s);
    assert(s * (a / s) == (a / s) * s) by (nonlinear_arith);
    assert(0 <= (a / s) * s) by (nonlinear_arith)
        requires
            a >= 0,
            s > 0,
    ;
}

/// After whole bins, a last bin of up to `stride` samples begins where they
/// end.
proof fn lemma_last_bin(bins: int, m: int, stride: nat)
    requires
        bins >= 0,
        1 <= m <= stride,
    ensures
        bins * stride >= 0,
        last_bin((bins * stride + m) as nat, stride) == bins * stride,
{
    assert(bins * stride >= 0) by (nonlinear_arith)
        requires
            bins >= 0,
            stride >= 0,
    ;
    lemma_fundamental_div_mod_converse(bins * stride + m - 1, stride as int, bins, m - 1);
}

/// Each sample is a bin of its own where the stride is 1: nothing is lost.
pub proof fn law_envelope_of_singles(points: Seq<Point>)
    ensures
        envelope(points, 1) == points,
    decreases points.len(),
{
    if points.len() > 0 {
        let n = points.len() as int;
        assert(last_bin(points.len(), 1) == n - 1);
        law_envelope_of_singles(points.take(n - 1));
        let bin = points.skip(n - 1);
        assert(bin.len() == 1 && bin[0] == points[n - 1]);
        assert(bin_points(bin) =~= seq![points[n - 1]]);
        assert(envelope(points, 1) =~= points);
    }
}

proof fn lemma_bin_extremes(bin: Seq<Point>)
    requires
        bin.len() > 0,
        forall|i: int| 0 <= i < bin.len() ==> !nan((#[trigger] bin[i]).v),
    ensures
        !nan(lowest(bin)) && !nan(highest(bin)),
        exists|i: int| 0 <= i < bin.len() && (#[trigger] bin[i]).v == lowest(bin),
        exists|i: int| 0 <= i < bin.len() && (#[trigger] bin[i]).v == highest(bin),
        forall|i: int|
            0 <= i < bin.len() ==> at_most(lowest(bin), (#[trigger] bin[i]).v) && at_most(
                bin[i].v,
                highest(bin),
            ),
    decreases bin.len(),
{
    if bin.len() == 1 {
        assert(bin[0].v == lowest(bin));
    } else {
        let p = bin.drop_last();
        assert forall|i: int| 0 <= i < p.len() implies !nan((#[trigger] p[i]).v) by {
            assert(p[i] == bin[i]);
        }
        lemma_bin_extremes(p);
        let a = choose|i: int| 0 <= i < p.len() && (#[trigger] p[i]).v == lowest(p);
        let b = choose|i: int| 0 <= i < p.len() && (#[trigger] p[i]).v == highest(p);
        let n = bin.len() - 1;
        assert(bin[a] == p[a] && bin[b] == p[b] && bin[n] == bin.last());
        assert forall|i: int| 0 <= i < bin.len() implies at_most(lowest(bin), (#[trigger] bin[i]).v)
            && at_most(bin[i].v, highest(bin)) by {
            if i < n {
                assert(p[i] == bin[i]);
            }
        }
        assert(lowest(bin) == bin[a].v || lowest(bin) == bin[n].v);
        assert(highest(bin) == bin[b].v || highest(bin) == bin[n].v);
    }
}

/// The envelope shows nothing that was not measured: each of its points has
/// the value of some sample.
pub proof fn law_envelope_shows_samples(points: Seq<Point>, stride: nat, k: int)
    requires
        stride > 0,
        forall|i: int| 0 <= i < points.len() ==> !nan((#[trigger] points[i]).v),
        0 <= k < envelope(points, stride).len(),
    ensures
        exists|i: int|
            0 <= i < points.len() && (#[trigger] points[i]).v == envelope(points, stride)[k].v,
    decreases points.len(),
{
    let first = last_bin(points.len(), stride);
    lemma_last_bin_inside(points.len(), stride);
    let head = points.take(first);
    let bin = points.skip(first);
    let before = envelope(head, stride);
    if k < before.len() {
        assert forall|i: int| 0 <= i < head.len() implies !nan((#[trigger] head[i]).v) by {
            assert(head[i] == points[i]);
        }
        law_envelope_shows_samples(head, stride, k);
        let i = choose|i: int| 0 <= i < head.len() && (#[trigger] head[i]).v == before[k].v;
        assert(points[i].v == envelope(points, stride)[k].v);
    } else {
        assert forall|i: int| 0 <= i < bin.len() implies !nan((#[trigger] bin[i]).v) by {
            assert(bin[i] == points[first + i]);
        }
        lemma_bin_extremes(bin);
        let a = choose|i: int| 0 <= i < bin.len() && (#[trigger] bin[i]).v == lowest(bin);
        let b = choose|i: int| 0 <= i < bin.len() && (#[trigger] bin[i]).v == highest(bin);
        assert(points[first + a].v == lowest(bin));
        assert(points[first + b].v == highest(bin));
    }
}

/// A value lies between the values of two points.
pub open spec fn bracketed(points: Seq<Point>, v: Sample) -> bool {
    &&& exists|k: int| 0 <= k < points.len() && at_most((#[trigger] points[k]).v, v)
    &&& exists|k: int| 0 <= k < points.len() && at_most(v, (#[trigger] points[k]).v)
}

/// Peaks survive: every sample lies between two values that the envelope
/// shows, whatever the stride.
pub proof fn law_envelope_keeps_peaks(points: Seq<Point>, stride: nat, i: int)
    requires
        stride > 0,
        forall|k: int| 0 <= k < points.len() ==> !nan((#[trigger] points[k]).v),
        0 <= i < points.len(),
    ensures
        bracketed(envelope(points, stride), points[i].v),
    decreases points.len(),
{
    let first = last_bin(points.len(), stride);
    lemma_last_bin_inside(points.len(), stride);
    let head = points.take(first);
    let bin = points.skip(first);
    let before = envelope(head, stride);
    let whole = envelope(points, stride);
    assert(whole == before + bin_points(bin));
    if i < first {
        assert forall|k: int| 0 <= k < head.len() implies !nan((#[trigger] head[k]).v) by {
            assert(head[k] == points[k]);
        }
        law_envelope_keeps_peaks(head, stride, i);
        let a = choose|k: int|
            0 <= k < before.len() && at_most((#[trigger] before[k]).v, head[i].v);
        let b = choose|k: int|
            0 <= k < before.len() && at_most(head[i].v, (#[trigger] before[k]).v);
        assert(whole[a] == before[a] && whole[b] == before[b]);
    } else {
        assert forall|k: int| 0 <= k < bin.len() implies !nan((#[trigger] bin[k]).v) by {
            assert(bin[k] == points[first + k]);
        }
        lemma_bin_extremes(bin);
        assert(bin[i - first] == points[i]);
        let n = before.len() as int;
        assert(whole[n].v == lowest(bin));
        if below(lowest(bin), highest(bin)) {
            assert(whole[n + 1].v == highest(bin));
        }
    }
}

/// The envelope has at most two points for every bin begun.
pub proof fn law_envelope_bounded(points: Seq<Point>, stride: nat)
    requires
        stride > 0,
    ensures
        envelope(points, stride).len() <= 2 * rounded_up(points.len() as int, stride as int),
    decreases points.len(),
{
    let s = stride as int;
    let n = points.len() as int;
    if n > 0 {
        let first = last_bin(points.len(), stride);
        lemma_last_bin_inside(points.len(), stride);
        law_envelope_bounded(points.take(first), stride);
        let q = (n - 1) / s;
        assert((first + s - 1) / s == q) by {
            lemma_fundamental_div_mod_converse(first + s - 1, s, q, s - 1);
        }
        lemma_fundamental_div_mod(n - 1, s);
        assert((n + s - 1) / s == q + 1) by {
            lemma_mul_is_distributive_add_other_way(s, q, 1);
            assert(s * q == q * s) by (nonlinear_arith);
            lemma_fundamental_div_mod_converse(n + s - 1, s, q + 1, (n - 1) % s);
        }
    } else {
        assert((s - 1) / s == 0) by {
            lemma_fundamental_div_mod_converse(s - 1, s, 0, s - 1);
        }
    }
}

/// Taking a divisor so often reaches a number.
pub proof fn lemma_rounded_up(n: int, d: int)
    requires
        n >= 0,
        d > 0,
    ensures
        d * rounded_up(n, d) >= n,
        n > 0 ==> rounded_up(n, d) >= 1,
        n == 0 ==> rounded_up(n, d) == 0,
        0 <= rounded_up(n, d) <= n,
{
    let q = rounded_up(n, d);
    assert(n <= d * n) by (nonlinear_arith)
        requires
            n >= 0,
            d > 0,
    ;
    lemma_rounded_up_least(n, d, n);
    lemma_fundamental_div_mod(n + d - 1, d);
    assert(d * q + (n + d - 1) % d == n + d - 1);
    assert(q >= 0) by (nonlinear_arith)
        requires
            d * q >= n,
            n >= 0,
            d > 0,
    ;
    if n == 0 {
        lemma_fundamental_div_mod_converse(d - 1, d, 0, d - 1);
    } else {
        assert(q >= 1) by (nonlinear_arith)
            requires
                d * q >= n,
                n > 0,
                d > 0,
        ;
    }
}

/// A divisor that reaches a number in `m` steps is not taken more often.
proof fn lemma_rounded_up_least(n: int, d: int, m: int)
    requires
        d > 0,
        n <= d * m,
    ensures
        rounded_up(n, d) <= m,
{
    let q = rounded_up(n, d);
    lemma_fundamental_div_mod(n + d - 1, d);
    assert(q <= m) by (nonlinear_arith)
        requires
            d * q <= n + d - 1,
            n <= d * m,
            d > 0,
    ;
}

/// Thinning keeps no more points than wanted, and all where there are no more
/// than wanted.
pub proof fn law_thinned_bounded(points: Seq<Point>, max_points: nat)
    requires
        max_points > 0 || points.len() == 0,
    ensures
        thinned(points, max_points).len() <= max_points,
        points.len() <= max_points ==> thinned(points, max_points) == points,
{
    if points.len() > max_points {
        let (n, m) = (points.len() as int, max_points as int);
        let step = rounded_up(n, m);
        lemma_rounded_up(n, m);
        assert(m * step == step * m) by (nonlinear_arith);
        lemma_rounded_up_least(n, step, m);
        lemma_rounded_up(n, step);
    }
}

/// The points of the bars are the envelope, and there is one bar for every bin
/// begun.
pub proof fn lemma_bars(points: Seq<Point>, stride: nat)
    requires
        stride > 0,
    ensures
        drawn(bars(points, stride)) == envelope(points, stride),
        bars(points, stride).len() == rounded_up(points.len() as int, stride as int),
    decreases points.len(),
{
    let (n, s) = (points.len() as int, stride as int);
    if n > 0 {
        let first = last_bin(points.len(), stride);
        lemma_last_bin_inside(points.len(), stride);
        let head = bars(points.take(first), stride);
        lemma_bars(points.take(first), stride);
        assert(head.push(bin_bar(points.skip(first))).drop_last() =~= head);
        let q = (n - 1) / s;
        lemma_rounded_up_by_one(n, s);
        assert(rounded_up(first, s) == q) by {
            lemma_fundamental_div_mod_converse(first + s - 1, s, q, s - 1);
        }
    } else {
        lemma_rounded_up(0, s);
    }
}

proof fn lemma_drawn_len(bars: Seq<Bar>)
    ensures
        bars.len() <= drawn(bars).len() <= 2 * bars.len(),
    decreases bars.len(),
{
    if bars.len() > 0 {
        lemma_drawn_len(bars.drop_last());
    }
}

/// No more points are shown than wanted, and all of them where they fit.
pub proof fn law_fitted_bounded(bars: Seq<Bar>, max_points: nat)
    requires
        max_points > 0 || bars.len() == 0,
    ensures
        fitted(bars, max_points).len() <= max_points,
        drawn(bars).len() <= max_points ==> fitted(bars, max_points) == drawn(bars),
{
    law_thinned_bounded(drawn(bars), max_points);
    if max_points > 0 {
        law_thinned_bounded(drawn(paired(bars)), max_points);
    }
}

/// A bar reaches from below a value to above it.
pub open spec fn spans(b: Bar, v: Sample) -> bool {
    at_most(b.low, v) && at_most(v, b.high)
}

/// The points of a bar that spans a value are on both sides of it.
proof fn lemma_drawn_brackets(bars: Seq<Bar>, k: int, v: Sample)
    requires
        0 <= k < bars.len(),
        spans(bars[k], v),
    ensures
        bracketed(drawn(bars), v),
    decreases bars.len(),
{
    let head = bars.drop_last();
    let before = drawn(head);
    let all = drawn(bars);
    let n = before.len() as int;
    if k < head.len() {
        assert(head[k] == bars[k]);
        lemma_drawn_brackets(head, k, v);
        let a = choose|i: int| 0 <= i < before.len() && at_most((#[trigger] before[i]).v, v);
        let b = choose|i: int| 0 <= i < before.len() && at_most(v, (#[trigger] before[i]).v);
        assert(all[a] == before[a] && all[b] == before[b]);
    } else {
        let b = bars[k];
        assert(all[n].v == b.low);
        if below(b.low, b.high) {
            assert(all[n + 1].v == b.high);
        }
    }
}

/// Each sample lies in a bar, and no bar has a NaN where no sample is one.
proof fn lemma_bars_span(points: Seq<Point>, stride: nat, i: int) -> (k: int)
    requires
        stride > 0,
        forall|k: int| 0 <= k < points.len() ==> !nan((#[trigger] points[k]).v),
        0 <= i < points.len(),
    ensures
        0 <= k < bars(points, stride).len(),
        spans(bars(points, stride)[k], points[i].v),
        forall|m: int|
            0 <= m < bars(points, stride).len() ==> !nan((#[trigger] bars(points, stride)[m]).low)
                && !nan(bars(points, stride)[m].high),
    decreases points.len(),
{
    let first = last_bin(points.len(), stride);
    lemma_last_bin_inside(points.len(), stride);
    let head = points.take(first);
    let bin = points.skip(first);
    let before = bars(head, stride);
    let all = bars(points, stride);
    assert forall|k: int| 0 <= k < head.len() implies !nan((#[trigger] head[k]).v) by {
        assert(head[k] == points[k]);
    }
    assert forall|k: int| 0 <= k < bin.len() implies !nan((#[trigger] bin[k]).v) by {
        assert(bin[k] == points[first + k]);
    }
    lemma_bin_extremes(bin);
    let j = if first > 0 {
        lemma_bars_span(
            head,
            stride,
            if i < first {
                i
            } else {
                0
            },
        )
    } else {
        0
    };
    assert(first == 0 ==> before =~= Seq::<Bar>::empty());
    assert forall|m: int| 0 <= m < all.len() implies !nan((#[trigger] all[m]).low) && !nan(
        all[m].high,
    ) by {
        if m < before.len() {
            assert(all[m] == before[m]);
        }
    }
    if i < first {
        assert(all[j] == before[j]);
        j
    } else {
        assert(bin[i - first] == points[i]);
        all.len() - 1
    }
}

/// Peaks survive in what is shown: every sample lies between two values that
/// are shown, if two points or more are wanted and there are no more samples
/// than the rows that the stride was chosen for.
pub proof fn law_fitted_keeps_peaks(points: Seq<Point>, rows: int, max_points: nat, i: int)
    requires
        max_points >= 2,
        points.len() <= rows,
        forall|k: int| 0 <= k < points.len() ==> !nan((#[trigger] points[k]).v),
        0 <= i < points.len(),
    ensures
        stride_for(rows, max_points) >= 1,
        bracketed(fitted(bars(points, stride_for(rows, max_points) as nat), max_points), points[i].v),
{
    let (n, b) = (points.len() as int, bins_for(max_points));
    let stride = stride_for(rows, max_points);
    lemma_stride(rows, max_points);
    let all = bars(points, stride as nat);
    lemma_bars(points, stride as nat);
    lemma_drawn_len(all);
    let k = lemma_bars_span(points, stride as nat, i);
    lemma_rounded_up_least(n, stride, 2 * b - 1);
    if drawn(all).len() <= max_points {
        lemma_drawn_brackets(all, k, points[i].v);
        law_fitted_bounded(all, max_points);
    } else {
        assert(drawn(all).len() % max_points != 0) by {
            let (d, m) = (drawn(all).len() as int, max_points as int);
            lemma_fundamental_div_mod_converse(d, m, 1, d - m);
        }
        let halves = paired(all);
        lemma_rounded_up_least(all.len() as int, 2, b);
        lemma_drawn_len(halves);
        law_thinned_bounded(drawn(halves), max_points);
        let h = k / 2;
        lemma_rounded_up(all.len() as int, 2);
        assert(0 <= h < halves.len());
        assert(spans(halves[h], points[i].v)) by {
            assert(!nan(all[2 * h].low) && !nan(all[2 * h].high));
            if 2 * h + 1 < all.len() {
                assert(!nan(all[2 * h + 1].low) && !nan(all[2 * h + 1].high));
            }
        }
        lemma_drawn_brackets(halves, h, points[i].v);
    }
}

/// The stride is at least one, and with it fewer than twice as many bins are
/// begun as wanted.
proof fn lemma_stride(rows: int, max_points: nat)
    requires
        rows >= 0,
    ensures
        stride_for(rows, max_points) >= 1,
        rows <= stride_for(rows, max_points) * (2 * bins_for(max_points) - 1),
{
    let b = bins_for(max_points);
    let q = rows / b;
    if rows > b {
        lemma_fundamental_div_mod(rows, b);
        assert(q >= 1 && rows <= q * (2 * b - 1)) by (nonlinear_arith)
            requires
                rows > b,
                b >= 1,
                rows == b * q + rows % b,
                0 <= rows % b < b,
        ;
    }
}

/// How the stride follows from the rows and the points wanted.  Where there are
/// fewer rows than points wanted, counted in pairs, every row is a bin of its
/// own; else a bin has as many rows as fit in so often as there are pairs of
/// points wanted.  Where fewer than two points are wanted, all rows are one bin.
pub proof fn law_stride(rows: int, max_points: nat)
    requires
        rows >= 0,
    ensures
        ({
            let stride = stride_for(rows, max_points);
            let pairs = max_points as int / 2;
            &&& stride >= 1
            &&& max_points >= 2 && rows < 2 * pairs ==> stride == 1
            &&& max_points >= 2 && rows >= 2 * pairs ==> stride * pairs <= rows && rows < (stride
                + 1) * pairs
            &&& max_points < 2 && rows > 0 ==> stride == rows
        }),
{
    lemma_stride(rows, max_points);
    let b = bins_for(max_points);
    if rows > b {
        let q = rows / b;
        lemma_fundamental_div_mod(rows, b);
        assert(q * b <= rows && rows < (q + 1) * b) by (nonlinear_arith)
            requires
                rows == b * q + rows % b,
                0 <= rows % b < b,
        ;
        if rows < 2 * b {
            lemma_fundamental_div_mod_converse(rows, b, 1, rows - b);
        }
    }
}

/// The samples in view are those rows, in order, whose instants lie in the range,
/// its ends included, each with the sample of its row, or a NaN where it has none.
pub proof fn law_visible(times: Seq<Sample>, values: Seq<Sample>, x_min: Sample, x_max: Sample)
    ensures
        visible(times, values, x_min, x_max) == Seq::new(
            times.len(),
            |i: int|
                Point {
                    t: times[i],
                    v: if i < values.len() {
                        values[i]
                    } else {
                        0x7ff8_0000_0000_0000u64
                    },
                },
        ).filter(|p: Point| at_most(x_min, p.t) && at_most(p.t, x_max)),
    decreases times.len(),
{
    reveal(Seq::filter);
    let row = |i: int|
        Point {
            t: times[i],
            v: if i < values.len() {
                values[i]
            } else {
                0x7ff8_0000_0000_0000u64
            },
        };
    let rows = Seq::new(times.len(), row);
    if times.len() > 0 {
        let head = times.drop_last();
        law_visible(head, values, x_min, x_max);
        assert(rows.drop_last() =~= Seq::new(
            head.len(),
            |i: int|
                Point {
                    t: head[i],
                    v: if i < values.len() {
                        values[i]
                    } else {
                        0x7ff8_0000_0000_0000u64
                    },
                },
        ));
    }
}

/// Bar `k` is that of the `k`-th run of `stride` samples.
proof fn lemma_bar_at(points: Seq<Point>, stride: nat, k: int)
    requires
        stride > 0,
        0 <= k < bars(points, stride).len(),
    ensures
        0 <= k * stride < points.len(),
        bars(points, stride)[k] == bin_bar(
            points.subrange(
                k * stride,
                if (k + 1) * stride < points.len() {
                    (k + 1) * stride
                } else {
                    points.len() as int
                },
            ),
        ),
    decreases points.len(),
{
    let s = stride as int;
    let n = points.len() as int;
    let first = last_bin(points.len(), stride);
    lemma_last_bin_inside(points.len(), stride);
    let head = points.take(first);
    let q = (n - 1) / s;
    lemma_bars(points, stride);
    lemma_bars(head, stride);
    lemma_rounded_up_by_one(n, s);
    lemma_fundamental_div_mod_converse(first + s - 1, s, q, s - 1);
    assert(bars(head, stride).len() == q);
    assert((k + 1) * s == k * s + s) by (nonlinear_arith);
    if k < q {
        lemma_bar_at(head, stride, k);
        assert((k + 1) * s <= q * s) by (nonlinear_arith)
            requires
                k + 1 <= q,
                s > 0,
        ;
        assert(head.subrange(k * s, (k + 1) * s) =~= points.subrange(k * s, (k + 1) * s));
        if (k + 1) * s >= head.len() {
            assert(head.subrange(k * s, first) =~= points.subrange(k * s, (k + 1) * s));
        }
    } else {
        assert(points.skip(first) =~= points.subrange(first, n));
    }
}

/// The extremes of a bin that begins with a number are values of it and bound all
/// its numbers; a bin that begins with a NaN has none.
proof fn lemma_bin_numbers(bin: Seq<Point>)
    requires
        bin.len() > 0,
    ensures
        nan(bin[0].v) ==> lowest(bin) == bin[0].v && highest(bin) == bin[0].v,
        !nan(bin[0].v) ==> {
            &&& !nan(lowest(bin)) && !nan(highest(bin))
            &&& exists|i: int| 0 <= i < bin.len() && (#[trigger] bin[i]).v == lowest(bin)
            &&& exists|i: int| 0 <= i < bin.len() && (#[trigger] bin[i]).v == highest(bin)
            &&& forall|i: int|
                0 <= i < bin.len() && !nan((#[trigger] bin[i]).v) ==> at_most(lowest(bin), bin[i].v)
                    && at_most(bin[i].v, highest(bin))
        },
    decreases bin.len(),
{
    if bin.len() == 1 {
        assert(bin[0].v == lowest(bin));
    } else {
        let p = bin.drop_last();
        let n = p.len() as int;
        lemma_bin_numbers(p);
        assert(p[0] == bin[0] && bin[n] == bin.last());
        if !nan(bin[0].v) {
            let a = choose|i: int| 0 <= i < p.len() && (#[trigger] p[i]).v == lowest(p);
            let b = choose|i: int| 0 <= i < p.len() && (#[trigger] p[i]).v == highest(p);
            assert(bin[a] == p[a] && bin[b] == p[b]);
            assert(lowest(bin) == bin[a].v || lowest(bin) == bin[n].v);
            assert(highest(bin) == bin[b].v || highest(bin) == bin[n].v);
            assert forall|i: int| 0 <= i < bin.len() && !nan((#[trigger] bin[i]).v) implies at_most(
                lowest(bin),
                bin[i].v,
            ) && at_most(bin[i].v, highest(bin)) by {
                if i < n {
                    assert(p[i] == bin[i]);
                }
            }
        }
    }
}

/// Bars are those of runs of `stride` samples, one after the other, the last run
/// as long as samples are left.  Each stands at the first instant of its run, and
/// reaches from the least to the greatest value in it.  A NaN is passed over, but
/// for one with which a run begins, which is then all that is shown of it.
pub proof fn law_bars(points: Seq<Point>, stride: nat, k: int)
    requires
        stride > 0,
        0 <= k < bars(points, stride).len(),
    ensures
        ({
            let all = bars(points, stride);
            let (b, s, n) = (all[k], stride as int, points.len() as int);
            &&& (all.len() - 1) * s < n <= all.len() * s
            &&& 0 <= k * s < n
            &&& b.t == points[k * s].t
            &&& exists|i: int| k * s <= i < n && i < k * s + s && (#[trigger] points[i]).v == b.low
            &&& exists|i: int| k * s <= i < n && i < k * s + s && (#[trigger] points[i]).v == b.high
            &&& nan(points[k * s].v) ==> b.low == points[k * s].v && b.high == points[k * s].v
            &&& !nan(points[k * s].v) ==> !nan(b.low) && !nan(b.high) && forall|i: int|
                k * s <= i < n && i < k * s + s && !nan((#[trigger] points[i]).v) ==> at_most(
                    b.low,
                    points[i].v,
                ) && at_most(points[i].v, b.high)
        }),
{
    let all = bars(points, stride);
    let (s, n) = (stride as int, points.len() as int);
    lemma_bars(points, stride);
    if n == 0 {
        lemma_rounded_up(n, s);
    }
    lemma_rounded_up_by_one(n, s);
    lemma_fundamental_div_mod(n - 1, s);
    assert((all.len() - 1) * s < n <= all.len() * s) by (nonlinear_arith)
        requires
            n - 1 == s * ((n - 1) / s) + (n - 1) % s,
            0 <= (n - 1) % s < s,
            all.len() == (n - 1) / s + 1,
    ;
    lemma_bar_at(points, stride, k);
    assert((k + 1) * s == k * s + s) by (nonlinear_arith);
    let from = k * s;
    let to = if (k + 1) * s < n {
        (k + 1) * s
    } else {
        n
    };
    let bin = points.subrange(from, to);
    lemma_bin_numbers(bin);
    assert(bin[0] == points[from]);
    if nan(bin[0].v) {
        assert(points[from].v == lowest(bin) && points[from].v == highest(bin));
    } else {
        let a = choose|i: int| 0 <= i < bin.len() && (#[trigger] bin[i]).v == lowest(bin);
        let c = choose|i: int| 0 <= i < bin.len() && (#[trigger] bin[i]).v == highest(bin);
        assert(points[from + a].v == lowest(bin) && points[from + c].v == highest(bin));
        assert forall|i: int|
            from <= i < n && i < from + s && !nan((#[trigger] points[i]).v) implies at_most(
            all[k].low,
            points[i].v,
        ) && at_most(points[i].v, all[k].high) by {
            assert(bin[i - from] == points[i]);
        }
    }
}

/// Bars are drawn one after the other, each with one point at its least value
/// and, where it is not flat, one more at its greatest value.
pub proof fn law_drawn(a: Seq<Bar>, b: Bar)
    ensures
        drawn(Seq::empty()).len() == 0,
        drawn(a.push(b)) == drawn(a) + if below(b.low, b.high) {
            seq![Point { t: b.t, v: b.low }, Point { t: b.t, v: b.high }]
        } else {
            seq![Point { t: b.t, v: b.low }]
        },
{
    assert(a.push(b).drop_last() =~= a);
}

/// Two bars as one reach as far as the two together, and stand where the first
/// one stands; with an odd number of bars the last one stays as it is.
pub proof fn law_paired(bars: Seq<Bar>, h: int)
    requires
        0 <= h < paired(bars).len(),
        forall|i: int|
            0 <= i < bars.len() ==> !nan((#[trigger] bars[i]).low) && !nan(bars[i].high),
    ensures
        bars.len() <= 2 * paired(bars).len() <= bars.len() + 1,
        2 * h < bars.len(),
        ({
            let (p, a) = (paired(bars)[h], bars[2 * h]);
            &&& p.t == a.t
            &&& 2 * h + 1 == bars.len() ==> p == a
            &&& 2 * h + 1 < bars.len() ==> {
                let b = bars[2 * h + 1];
                &&& at_most(p.low, a.low) && at_most(p.low, b.low)
                &&& at_most(a.high, p.high) && at_most(b.high, p.high)
                &&& p.low == a.low || p.low == b.low
                &&& p.high == a.high || p.high == b.high
            }
        }),
{
    assert(!nan(bars[2 * h].low) && !nan(bars[2 * h].high));
    if 2 * h + 1 < bars.len() {
        assert(!nan(bars[2 * h + 1].low) && !nan(bars[2 * h + 1].high));
    }
}

/// Thinning is even: of too many points every `step`-th one is kept from the
/// first one on, up to the end, with the least step that leaves no more than
/// wanted.
pub proof fn law_thinned_even(points: Seq<Point>, max_points: nat) -> (step: int)
    requires
        points.len() > max_points > 0,
    ensures
        ({
            let (out, n, m) = (thinned(points, max_points), points.len() as int, max_points as int);
            &&& step >= 1
            &&& (step - 1) * m < n <= step * m
            &&& (out.len() - 1) * step < n <= out.len() * step
            &&& forall|i: int| 0 <= i < out.len() ==> (#[trigger] out[i]) == points[i * step]
        }),
{
    let (out, n, m) = (thinned(points, max_points), points.len() as int, max_points as int);
    let step = rounded_up(n, m);
    lemma_rounded_up_by_one(n, m);
    lemma_fundamental_div_mod(n - 1, m);
    assert(step >= 1 && (step - 1) * m < n <= step * m) by (nonlinear_arith)
        requires
            n > m,
            m > 0,
            n - 1 == m * ((n - 1) / m) + (n - 1) % m,
            0 <= (n - 1) % m < m,
            step == (n - 1) / m + 1,
    ;
    lemma_rounded_up_by_one(n, step);
    lemma_rounded_up(n, step);
    lemma_fundamental_div_mod(n - 1, step);
    let l = rounded_up(n, step);
    assert((l - 1) * step < n <= l * step) by (nonlinear_arith)
        requires
            n - 1 == step * ((n - 1) / step) + (n - 1) % step,
            0 <= (n - 1) % step < step,
            l == (n - 1) / step + 1,
    ;
    assert(out.len() == l);
    step
}

/// Peaks are shown where they are: for every sample two points are shown, one
/// not above it and one not below it, at the instant of a sample less than two
/// strides before it or at its own; if two points or more are wanted and there
/// are no more samples than the rows that the stride was chosen for.
pub proof fn law_fitted_shows_peaks_nearby(points: Seq<Point>, rows: int, max_points: nat, i: int)
    requires
        max_points >= 2,
        points.len() <= rows,
        forall|k: int| 0 <= k < points.len() ==> !nan((#[trigger] points[k]).v),
        0 <= i < points.len(),
    ensures
        ({
            let stride = stride_for(rows, max_points);
            let shown = fitted(bars(points, stride as nat), max_points);
            exists|j: int, a: int, b: int|
                #![trigger points[j], shown[a], shown[b]]
                0 <= j <= i && i < j + 2 * stride && 0 <= a < shown.len() && 0 <= b < shown.len()
                    && shown[a].t == points[j].t && shown[b].t == points[j].t && at_most(
                    shown[a].v,
                    points[i].v,
                ) && at_most(points[i].v, shown[b].v)
        }),
{
    let (n, bins) = (points.len() as int, bins_for(max_points));
    let stride = stride_for(rows, max_points);
    lemma_stride(rows, max_points);
    let all = bars(points, stride as nat);
    lemma_bars(points, stride as nat);
    lemma_drawn_len(all);
    lemma_rounded_up_least(n, stride, 2 * bins - 1);
    let k = i / stride;
    lemma_fundamental_div_mod(i, stride);
    assert(stride * k == k * stride) by (nonlinear_arith);
    lemma_rounded_up_by_one(n, stride);
    assert(k <= (n - 1) / stride) by {
        lemma_fundamental_div_mod(n - 1, stride);
        assert(k <= (n - 1) / stride) by (nonlinear_arith)
            requires
                stride * k <= n - 1,
                n - 1 < stride * ((n - 1) / stride) + stride,
                stride >= 1,
        ;
    }
    assert(k >= 0) by (nonlinear_arith)
        requires
            i == stride * k + i % stride,
            0 <= i % stride < stride,
            i >= 0,
            stride >= 1,
    ;
    law_bars(points, stride as nat, k);
    assert(spans(all[k], points[i].v));
    if drawn(all).len() <= max_points {
        law_fitted_bounded(all, max_points);
        lemma_drawn_at(all, k, points[i].v);
        let (a, b) = choose|a: int, b: int|
            #![trigger drawn(all)[a], drawn(all)[b]]
            0 <= a < drawn(all).len() && 0 <= b < drawn(all).len() && drawn(all)[a].t == all[k].t
                && drawn(all)[b].t == all[k].t && at_most(drawn(all)[a].v, points[i].v) && at_most(
                points[i].v,
                drawn(all)[b].v,
            );
        let shown = fitted(all, max_points);
        assert(shown[a] == drawn(all)[a] && shown[b] == drawn(all)[b]);
        assert(points[k * stride].t == all[k].t);
    } else {
        assert(drawn(all).len() % max_points != 0) by {
            let (d, m) = (drawn(all).len() as int, max_points as int);
            lemma_fundamental_div_mod_converse(d, m, 1, d - m);
        }
        let halves = paired(all);
        lemma_rounded_up_least(all.len() as int, 2, bins);
        lemma_drawn_len(halves);
        law_thinned_bounded(drawn(halves), max_points);
        let h = k / 2;
        lemma_rounded_up(all.len() as int, 2);
        assert forall|m: int| 0 <= m < all.len() implies !nan((#[trigger] all[m]).low) && !nan(
            all[m].high,
        ) by {
            law_bars(points, stride as nat, m);
        }
        law_paired(all, h);
        assert(spans(halves[h], points[i].v));
        lemma_drawn_at(halves, h, points[i].v);
        law_bars(points, stride as nat, 2 * h);
        let j = 2 * h * stride;
        assert((k - 2 * h) * stride == k * stride - j) by (nonlinear_arith)
            requires
                j == 2 * h * stride,
        ;
        assert(0 <= k - 2 * h <= 1);
        assert((k - 2 * h) * stride <= stride && (k - 2 * h) * stride >= 0) by (nonlinear_arith)
            requires
                0 <= k - 2 * h <= 1,
                stride >= 1,
        ;
        let (a, b) = choose|a: int, b: int|
            #![trigger drawn(halves)[a], drawn(halves)[b]]
            0 <= a < drawn(halves).len() && 0 <= b < drawn(halves).len() && drawn(halves)[a].t
                == halves[h].t && drawn(halves)[b].t == halves[h].t && at_most(
                drawn(halves)[a].v,
                points[i].v,
            ) && at_most(points[i].v, drawn(halves)[b].v);
        let shown = fitted(all, max_points);
        assert(shown == drawn(halves));
        assert(shown[a] == drawn(halves)[a] && shown[b] == drawn(halves)[b]);
        assert(points[j].t == halves[h].t);
    }
}

/// The points of a bar that spans a value stand at the bar, on both sides of the
/// value.
proof fn lemma_drawn_at(bars: Seq<Bar>, k: int, v: Sample)
    requires
        0 <= k < bars.len(),
        spans(bars[k], v),
    ensures
        exists|a: int, b: int|
            #![trigger drawn(bars)[a], drawn(bars)[b]]
            0 <= a < drawn(bars).len() && 0 <= b < drawn(bars).len() && drawn(bars)[a].t == bars[k].t
                && drawn(bars)[b].t == bars[k].t && at_most(drawn(bars)[a].v, v) && at_most(
                v,
                drawn(bars)[b].v,
            ),
    decreases bars.len(),
{
    let head = bars.drop_last();
    let before = drawn(head);
    let all = drawn(bars);
    let n = before.len() as int;
    if k < head.len() {
        assert(head[k] == bars[k]);
        lemma_drawn_at(head, k, v);
        let (a, b) = choose|a: int, b: int|
            #![trigger before[a], before[b]]
            0 <= a < before.len() && 0 <= b < before.len() && before[a].t == head[k].t
                && before[b].t == head[k].t && at_most(before[a].v, v) && at_most(v, before[b].v);
        assert(all[a] == before[a] && all[b] == before[b]);
    } else {
        let b = bars[k];
        assert(all[n] == Point { t: b.t, v: b.low });
        if below(b.low, b.high) {
            assert(all[n + 1] == Point { t: b.t, v: b.high });
        }
    }
}

// ---------------------------------------------------------------------------
// Building envelopes
// ---------------------------------------------------------------------------

/// How often a divisor has to be taken to reach a number that is not zero.
pub proof fn lemma_rounded_up_by_one(n: int, d: int)
    requires
        n > 0,
        d > 0,
    ensures
        rounded_up(n, d) == (n - 1) / d + 1,
{
    let q = (n - 1) / d;
    lemma_fundamental_div_mod(n - 1, d);
    lemma_mul_is_distributive_add_other_way(d, q, 1);
    assert(d * q == q * d) by (nonlinear_arith);
    lemma_fundamental_div_mod_converse(n + d - 1, d, q + 1, (n - 1) % d);
}

/// The samples per bin, for a number of rows and the points wanted.
pub fn choose_stride(rows: u128, max_points: usize) -> (stride: u128)
    ensures
        stride == stride_for(rows as int, max_points as nat),
        stride >= 1,
{
    let bins: u128 = if max_points < 2 {
        1
    } else {
        max_points as u128 / 2
    };
    proof {
        lemma_stride(rows as int, max_points as nat);
    }
    if rows > bins {
        rows / bins
    } else {
        1
    }
}

/// Keeps every `step`-th point where there are more than wanted.
pub fn thin(points: Vec<Point>, max_points: usize) -> (out: Vec<Point>)
    requires
        max_points > 0 || points@.len() == 0,
    ensures
        out@ == thinned(points@, max_points as nat),
        out@.len() <= max_points,
{
    if points.len() <= max_points {
        return points;
    }
    let n: usize = points.len();
    proof {
        lemma_rounded_up_by_one(n as int, max_points as int);
        lemma_rounded_up(n as int, max_points as int);
    }
    let step: usize = (n - 1) / max_points + 1;
    let last: usize = (n - 1) / step;
    let ghost s = step as int;
    proof {
        lemma_fundamental_div_mod(n - 1, s);
        assert(s * last == last * s) by (nonlinear_arith);
        lemma_rounded_up_by_one(n as int, s);
        law_thinned_bounded(points@, max_points as nat);
    }
    let mut out: Vec<Point> = Vec::new();
    out.push(points[0]);
    let mut at: usize = 0;
    let mut i: usize = 0;
    while i < last
        invariant
            i <= last,
            at == i * s,
            last * s < n,
            s == step,
            s >= 1,
            n == points@.len(),
            out@ == Seq::new((i + 1) as nat, |k: int| points@[k * s]),
        decreases last - i,
    {
        proof {
            lemma_mul_is_distributive_add_other_way(s, i as int, 1);
            lemma_mul_inequality(i + 1, last as int, s);
        }
        at += step;
        i += 1;
        out.push(points[at]);
        assert(out@ =~= Seq::new((i + 1) as nat, |k: int| points@[k * s]));
    }
    assert(out@ =~= every(points@, s));
    out
}

/// Draws several bars.
fn draw(bars: &Vec<Bar>) -> (out: Vec<Point>)
    ensures
        out@ == drawn(bars@),
{
    let mut out: Vec<Point> = Vec::new();
    let mut i: usize = 0;
    while i < bars.len()
        invariant
            i <= bars@.len(),
            out@ == drawn(bars@.take(i as int)),
        decreases bars@.len() - i,
    {
        let b: Bar = bars[i];
        let ghost before = out@;
        assert(bars@.take(i + 1).drop_last() =~= bars@.take(i as int));
        out.push(Point { t: b.t, v: b.low });
        if lt(b.low, b.high) {
            out.push(Point { t: b.t, v: b.high });
        }
        assert(out@ =~= before + bar_points(b));
        i += 1;
    }
    assert(bars@.take(i as int) =~= bars@);
    out
}

/// Takes neighbouring bars together two by two.
fn pair_bars(bars: &Vec<Bar>) -> (out: Vec<Bar>)
    ensures
        out@ == paired(bars@),
{
    let n: usize = bars.len();
    let mut out: Vec<Bar> = Vec::new();
    let mut i: usize = 0;
    while i < n
        invariant
            n == bars@.len(),
            i <= n,
            i == 2 * out@.len() || (i == n && i + 1 == 2 * out@.len()),
            out@.len() <= paired(bars@).len(),
            forall|k: int| 0 <= k < out@.len() ==> (#[trigger] out@[k]) == paired(bars@)[k],
        decreases n - i,
    {
        let a: Bar = bars[i];
        if n - i >= 2 {
            let b: Bar = bars[i + 1];
            let low: Sample = if lt(b.low, a.low) {
                b.low
            } else {
                a.low
            };
            let high: Sample = if lt(a.high, b.high) {
                b.high
            } else {
                a.high
            };
            out.push(Bar { t: a.t, low, high });
            i += 2;
        } else {
            out.push(a);
            i += 1;
        }
    }
    assert(out@ =~= paired(bars@));
    out
}

/// Draws several bars with no more points than wanted.
pub fn fit(bars: &Vec<Bar>, max_points: usize) -> (out: Vec<Point>)
    requires
        max_points > 0 || bars@.len() == 0,
    ensures
        out@ == fitted(bars@, max_points as nat),
        out@.len() <= max_points,
{
    proof {
        law_fitted_bounded(bars@, max_points as nat);
    }
    let points: Vec<Point> = draw(bars);
    if points.len() <= max_points {
        return points;
    }
    if points.len() % max_points == 0 {
        thin(points, max_points)
    } else {
        let halves: Vec<Point> = draw(&pair_bars(bars));
        thin(halves, max_points)
    }
}

/// Builds the envelopes of several channels that share their instants, one row
/// at a time.
pub struct Envelope {
    x_min: Sample,
    x_max: Sample,
    stride: u128,
    bin_count: u128,
    bin_t: Sample,
    bin_min: Vec<Sample>,
    bin_max: Vec<Sample>,
    out: Vec<Vec<Bar>>,
    bins: Ghost<int>,
    seen: Ghost<Seq<Seq<Point>>>,
}

impl Envelope {
    /// The samples taken so far, by channel.
    pub closed spec fn seen(&self) -> Seq<Seq<Point>> {
        self.seen@
    }

    /// The samples per bin.
    pub closed spec fn stride(&self) -> u128 {
        self.stride
    }

    /// The first instant in view.
    pub closed spec fn x_min(&self) -> Sample {
        self.x_min
    }

    /// The last instant in view.
    pub closed spec fn x_max(&self) -> Sample {
        self.x_max
    }

    /// The samples in closed bins.
    spec fn full(&self) -> int {
        self.bins@ * self.stride
    }

    /// What holds of one channel.
    spec fn channel_ok(&self, j: int) -> bool {
        &&& self.seen@[j].len() == self.full() + self.bin_count
        &&& self.out@[j]@ == bars(self.seen@[j].take(self.full()), self.stride as nat)
        &&& self.bin_count > 0 ==> {
            let bin = self.seen@[j].skip(self.full());
            &&& self.bin_t == bin[0].t
            &&& self.bin_min@[j] == lowest(bin)
            &&& self.bin_max@[j] == highest(bin)
        }
    }

    /// What holds between the operations.
    pub closed spec fn wf(&self) -> bool {
        &&& self.stride >= 1
        &&& self.bin_count < self.stride
        &&& self.bins@ >= 0
        &&& self.bin_min@.len() == self.seen@.len()
        &&& self.bin_max@.len() == self.seen@.len()
        &&& self.out@.len() == self.seen@.len()
        &&& forall|j: int| 0 <= j < self.seen@.len() ==> #[trigger] self.channel_ok(j)
    }

    /// Starts the envelopes of `n` channels.
    pub fn new(n: usize, x_min: Sample, x_max: Sample, stride: u128) -> (e: Envelope)
        requires
            stride >= 1,
        ensures
            e.wf(),
            e.x_min() == x_min,
            e.x_max() == x_max,
            e.stride() == stride,
            e.seen() == Seq::new(n as nat, |j: int| Seq::<Point>::empty()),
    {
        let mut out: Vec<Vec<Bar>> = Vec::new();
        let mut bin_min: Vec<Sample> = Vec::new();
        let mut bin_max: Vec<Sample> = Vec::new();
        let mut j: usize = 0;
        while j < n
            invariant
                j <= n,
                out@.len() == j,
                bin_min@.len() == j,
                bin_max@.len() == j,
                forall|k: int| 0 <= k < j ==> (#[trigger] out@[k])@ == Seq::<Bar>::empty(),
            decreases n - j,
        {
            out.push(Vec::new());
            bin_min.push(NAN);
            bin_max.push(NAN);
            j += 1;
        }
        let e: Envelope = Envelope {
            x_min,
            x_max,
            stride,
            bin_count: 0,
            bin_t: 0,
            bin_min,
            bin_max,
            out,
            bins: Ghost(0),
            seen: Ghost(Seq::new(n as nat, |j: int| Seq::<Point>::empty())),
        };
        assert forall|j: int| 0 <= j < e.seen@.len() implies #[trigger] e.channel_ok(j) by {
            assert(e.full() == 0) by (nonlinear_arith)
                requires
                    e.full() == 0 * e.stride,
            ;
            assert(e.seen@[j].take(0) =~= Seq::<Point>::empty());
        }
        e
    }

    /// Takes one row that is in view.
    fn take_row(&mut self, t: Sample, columns: &Vec<Vec<Sample>>, picks: &Vec<usize>, i: usize)
        requires
            old(self).wf(),
            picks@.len() == old(self).seen().len(),
            forall|j: int| 0 <= j < picks@.len() ==> (#[trigger] picks@[j]) < columns@.len(),
        ensures
            final(self).wf(),
            final(self).x_min() == old(self).x_min(),
            final(self).x_max() == old(self).x_max(),
            final(self).stride() == old(self).stride(),
            final(self).seen() == Seq::new(
                old(self).seen().len(),
                |j: int|
                    old(self).seen()[j].push(
                        Point { t, v: value_or_nan(columns@[picks@[j] as int]@, i as int) },
                    ),
            ),
    {
        let ghost before = *self;
        let ghost n = self.seen@.len();
        let ghost taken = Seq::new(
            n,
            |j: int|
                before.seen()[j].push(
                    Point { t, v: value_or_nan(columns@[picks@[j] as int]@, i as int) },
                ),
        );
        let first: bool = self.bin_count == 0;
        if first {
            self.bin_t = t;
        }
        self.bin_count = self.bin_count + 1;
        let close: bool = self.bin_count >= self.stride;
        proof {
            assert(before.full() >= 0) by (nonlinear_arith)
                requires
                    before.full() == before.bins@ * before.stride,
                    before.bins@ >= 0,
            ;
            assert forall|k: int| 0 <= k < n implies self.bin_t == (#[trigger] taken[k]).skip(
                before.full(),
            )[0].t by {
                assert(before.channel_ok(k));
            }
        }
        let mut j: usize = 0;
        while j < picks.len()
            invariant
                j <= picks@.len(),
                picks@.len() == n,
                before.wf(),
                before.full() >= 0,
                n == before.seen@.len(),
                self.x_min == before.x_min,
                self.x_max == before.x_max,
                self.stride == before.stride,
                self.bins == before.bins,
                self.seen == before.seen,
                self.bin_count == before.bin_count + 1,
                first == (before.bin_count == 0),
                self.bin_t == (if first {
                    t
                } else {
                    before.bin_t
                }),
                close == (self.bin_count >= self.stride),
                self.bin_min@.len() == n,
                self.bin_max@.len() == n,
                self.out@.len() == n,
                forall|k: int| 0 <= k < picks@.len() ==> (#[trigger] picks@[k]) < columns@.len(),
                taken == Seq::new(
                    n,
                    |j: int|
                        before.seen()[j].push(
                            Point { t, v: value_or_nan(columns@[picks@[j] as int]@, i as int) },
                        ),
                ),
                forall|k: int| j <= k < n ==> (#[trigger] self.out@[k]) == before.out@[k],
                forall|k: int| j <= k < n ==> (#[trigger] self.bin_min@[k]) == before.bin_min@[k],
                forall|k: int| j <= k < n ==> (#[trigger] self.bin_max@[k]) == before.bin_max@[k],
                forall|k: int|
                    0 <= k < j ==> {
                        let bin = (#[trigger] taken[k]).skip(before.full());
                        &&& self.bin_min@[k] == lowest(bin)
                        &&& self.bin_max@[k] == highest(bin)
                        &&& self.out@[k]@ == (if close {
                            before.out@[k]@.push(bin_bar(bin))
                        } else {
                            before.out@[k]@
                        })
                    },
                forall|k: int|
                    0 <= k < n ==> self.bin_t == (#[trigger] taken[k]).skip(before.full())[0].t,
            decreases picks@.len() - j,
        {
            let column: &Vec<Sample> = &columns[picks[j]];
            let v: Sample = if i < column.len() {
                column[i]
            } else {
                NAN
            };
            let ghost old_bin = before.seen@[j as int].skip(before.full());
            let ghost bin = taken[j as int].skip(before.full());
            proof {
                assert(before.channel_ok(j as int));
                assert(bin =~= old_bin.push(Point { t, v }));
                assert(bin.drop_last() =~= old_bin);
            }
            if first {
                self.bin_min.set(j, v);
                self.bin_max.set(j, v);
            } else {
                if lt(v, self.bin_min[j]) {
                    self.bin_min.set(j, v);
                }
                if lt(self.bin_max[j], v) {
                    self.bin_max.set(j, v);
                }
            }
            if close {
                let low: Sample = self.bin_min[j];
                let high: Sample = self.bin_max[j];
                let bin_t: Sample = self.bin_t;
                self.out[j].push(Bar { t: bin_t, low, high });
                assert(self.out@[j as int]@ =~= before.out@[j as int]@.push(bin_bar(bin)));
            } else {
                assert(self.out@[j as int] == before.out@[j as int]);
            }
            j += 1;
        }
        self.seen = Ghost(taken);
        if close {
            self.bin_count = 0;
            self.bins = Ghost(before.bins@ + 1);
        }
        proof {
            let f = before.full();
            let stride = before.stride as nat;
            if close {
                lemma_mul_is_distributive_add_other_way(stride as int, before.bins@, 1);
                assert(self.full() == f + stride);
                lemma_last_bin(before.bins@, stride as int, stride);
            }
            assert forall|k: int| 0 <= k < n implies #[trigger] self.channel_ok(k) by {
                assert(before.channel_ok(k));
                assert(taken[k].take(f) =~= before.seen@[k].take(f));
                if close {
                    let all = taken[k];
                    assert(all.take(self.full()) =~= all);
                    assert(bars(all, stride) == bars(all.take(f), stride).push(
                        bin_bar(all.skip(f)),
                    ));
                }
            }
        }
    }

    /// Takes the rows of a chunk that are in view.  `columns[picks[j]]` holds
    /// the samples of channel `j`.
    pub fn scan(&mut self, times: &Vec<Sample>, columns: &Vec<Vec<Sample>>, picks: &Vec<usize>)
        requires
            old(self).wf(),
            picks@.len() == old(self).seen().len(),
            forall|j: int| 0 <= j < picks@.len() ==> (#[trigger] picks@[j]) < columns@.len(),
        ensures
            final(self).wf(),
            final(self).x_min() == old(self).x_min(),
            final(self).x_max() == old(self).x_max(),
            final(self).stride() == old(self).stride(),
            final(self).seen() == Seq::new(
                old(self).seen().len(),
                |j: int|
                    old(self).seen()[j] + visible(
                        times@,
                        columns@[picks@[j] as int]@,
                        old(self).x_min(),
                        old(self).x_max(),
                    ),
            ),
    {
        let ghost before = *self;
        let ghost rows = |i: int, j: int|
            visible(times@.take(i), columns@[picks@[j] as int]@, before.x_min(), before.x_max());
        let mut i: usize = 0;
        assert(self.seen() =~= Seq::new(self.seen().len(), |j: int| self.seen()[j] + rows(0, j)));
        while i < times.len()
            invariant
                i <= times@.len(),
                self.wf(),
                self.x_min() == before.x_min(),
                self.x_max() == before.x_max(),
                self.stride() == before.stride(),
                picks@.len() == before.seen().len(),
                self.seen().len() == before.seen().len(),
                forall|j: int| 0 <= j < picks@.len() ==> (#[trigger] picks@[j]) < columns@.len(),
                rows == (|i: int, j: int|
                    visible(
                        times@.take(i),
                        columns@[picks@[j] as int]@,
                        before.x_min(),
                        before.x_max(),
                    )),
                self.seen() == Seq::new(
                    before.seen().len(),
                    |j: int| before.seen()[j] + rows(i as int, j),
                ),
            decreases times@.len() - i,
        {
            let t: Sample = times[i];
            let ghost earlier = self.seen();
            assert(times@.take(i + 1).drop_last() =~= times@.take(i as int));
            if in_range(t, self.x_min, self.x_max) {
                self.take_row(t, columns, picks, i);
            }
            assert forall|j: int| 0 <= j < self.seen().len() implies #[trigger] self.seen()[j]
                == before.seen()[j] + rows(i + 1, j) by {
                assert(earlier[j] == before.seen()[j] + rows(i as int, j));
                assert(self.seen()[j] =~= before.seen()[j] + rows(i + 1, j));
            }
            assert(self.seen() =~= Seq::new(
                before.seen().len(),
                |j: int| before.seen()[j] + rows(i + 1, j),
            ));
            i += 1;
        }
        assert(times@.take(i as int) =~= times@);
        assert(self.seen() =~= Seq::new(
            before.seen().len(),
            |j: int|
                before.seen()[j] + visible(
                    times@,
                    columns@[picks@[j] as int]@,
                    before.x_min(),
                    before.x_max(),
                ),
        ));
    }

    /// Closes the last bin and gives the envelopes out, each with no more points
    /// than wanted.
    pub fn finish(self, max_points: usize) -> (results: Vec<Vec<Point>>)
        requires
            self.wf(),
            max_points > 0 || forall|j: int|
                0 <= j < self.seen().len() ==> (#[trigger] self.seen()[j]).len() == 0,
        ensures
            results@.len() == self.seen().len(),
            forall|j: int|
                0 <= j < results@.len() ==> (#[trigger] results@[j])@ == fitted(
                    bars(self.seen()[j], self.stride() as nat),
                    max_points as nat,
                ) && results@[j]@.len() <= max_points,
    {
        let ghost seen = self.seen@;
        let ghost n = seen.len();
        let ghost stride = self.stride as nat;
        let mut out: Vec<Vec<Bar>> = self.out;
        let mut results: Vec<Vec<Point>> = Vec::new();
        let mut j: usize = 0;
        proof {
            assert(self.full() >= 0) by (nonlinear_arith)
                requires
                    self.full() == self.bins@ * self.stride,
                    self.bins@ >= 0,
            ;
            assert(max_points > 0 || forall|k: int|
                0 <= k < n ==> (#[trigger] self.seen()[k]).len() == 0);
        }
        while j < out.len()
            invariant
                j <= out@.len(),
                out@.len() == n,
                n == self.seen@.len(),
                seen == self.seen@,
                results@.len() == j,
                self.full() >= 0,
                self.stride >= 1,
                stride == self.stride,
                self.bin_count < self.stride,
                self.bins@ >= 0,
                self.bin_min@.len() == n,
                self.bin_max@.len() == n,
                max_points > 0 || forall|k: int|
                    0 <= k < n ==> (#[trigger] self.seen()[k]).len() == 0,
                forall|k: int| 0 <= k < n ==> #[trigger] self.channel_ok(k),
                forall|k: int| j <= k < n ==> (#[trigger] out@[k]) == self.out@[k],
                forall|k: int|
                    0 <= k < j ==> (#[trigger] results@[k])@ == fitted(
                        bars(seen[k], stride),
                        max_points as nat,
                    ) && results@[k]@.len() <= max_points,
            decreases out@.len() - j,
        {
            let mut run: Vec<Bar> = Vec::new();
            std::mem::swap(&mut run, &mut out[j]);
            assert(self.channel_ok(j as int));
            let ghost all = seen[j as int];
            let ghost f = self.full();
            if self.bin_count > 0 {
                let low: Sample = self.bin_min[j];
                let high: Sample = self.bin_max[j];
                run.push(Bar { t: self.bin_t, low, high });
                proof {
                    lemma_last_bin(self.bins@, self.bin_count as int, stride);
                    assert(run@ =~= bars(all.take(f), stride).push(bin_bar(all.skip(f))));
                    assert(run@ == bars(all, stride));
                }
            } else {
                assert(all.take(f) =~= all);
            }
            assert(max_points > 0 || self.seen()[j as int].len() == 0);
            assert(max_points > 0 || run@.len() == 0);
            results.push(fit(&run, max_points));
            j += 1;
        }
        results
    }
}

/// A row without a sample in its column is shown as missing.
pub proof fn law_missing_sample(values: Seq<Sample>, i: int)
    ensures
        0 <= i < values.len() ==> value_or_nan(values, i) == values[i],
        i >= values.len() ==> value_or_nan(values, i) == 0x7ff8_0000_0000_0000u64,
{
}

/// Where thinning gives exactly as many points as wanted, it is all that is done:
/// every point kept stands as far after the one before as every other.
pub proof fn law_fitted_even(bars: Seq<Bar>, max_points: nat, i: int)
    requires
        max_points > 0,
        drawn(bars).len() > max_points,
        drawn(bars).len() % max_points == 0,
        0 <= i < max_points,
    ensures
        fitted(bars, max_points).len() == max_points,
        fitted(bars, max_points)[i] == drawn(bars)[i * (drawn(bars).len() as int
            / max_points as int)],
{
    let (n, m) = (drawn(bars).len() as int, max_points as int);
    let q = n / m;
    lemma_fundamental_div_mod(n, m);
    let step = law_thinned_even(drawn(bars), max_points);
    let out = fitted(bars, max_points);
    assert(q >= 1 && step == q) by (nonlinear_arith)
        requires
            n == m * q,
            (step - 1) * m < n <= step * m,
            n > m,
            m > 0,
    ;
    let l = out.len() as int;
    assert(l == m) by (nonlinear_arith)
        requires
            (l - 1) * q < m * q <= l * q,
            q >= 1,
    ;
}

} // verus!
