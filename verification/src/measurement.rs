//! Time-domain measurements: where a signal crosses its levels.

use crate::sample::{abs, at_most, below, finite, greater, is_finite, le, lesser, lt, magnitude};
use crate::sample::{max, min, nan, Point, Sample, INFINITY, NEG_INFINITY};
use crate::segments::positions;
use vstd::prelude::*;

verus! {

/// The most points that are looked at.
pub const MEASUREMENT_MAX_POINTS: usize = 200_000;

/// The fewest points that are measured.
pub const MEASUREMENT_MIN_POINTS: usize = 4;

// ---------------------------------------------------------------------------
// Extremes
// ---------------------------------------------------------------------------

/// The least and the greatest value; NaNs do not count.
pub open spec fn value_range(points: Seq<Point>) -> (Sample, Sample)
    decreases points.len(),
{
    if points.len() == 0 {
        (INFINITY, NEG_INFINITY)
    } else {
        let (lo, hi) = value_range(points.drop_last());
        (lesser(lo, points.last().v), greater(hi, points.last().v))
    }
}

/// The extremes bound every value that is not a NaN, and each is the value of
/// some point; without such a value they are infinite.
pub proof fn law_value_range(points: Seq<Point>)
    ensures
        ({
            let (lo, hi) = value_range(points);
            &&& forall|i: int|
                0 <= i < points.len() && !nan((#[trigger] points[i]).v) ==> at_most(lo, points[i].v)
                    && at_most(points[i].v, hi)
            &&& (exists|i: int| 0 <= i < points.len() && !nan((#[trigger] points[i]).v)) ==> (
            exists|i: int| 0 <= i < points.len() && (#[trigger] points[i]).v == lo) && (exists|
                i: int,
            |
                0 <= i < points.len() && (#[trigger] points[i]).v == hi)
            &&& (forall|i: int| 0 <= i < points.len() ==> nan((#[trigger] points[i]).v)) ==> lo
                == 0x7ff0_0000_0000_0000u64 && hi == 0xfff0_0000_0000_0000u64
            &&& !nan(lo) && !nan(hi)
        }),
    decreases points.len(),
{
    if points.len() > 0 {
        let p = points.drop_last();
        let n = p.len() as int;
        law_value_range(p);
        let (l, h) = value_range(p);
        let (lo, hi) = value_range(points);
        let v = points[n].v;
        assert forall|i: int| 0 <= i < points.len() && !nan((#[trigger] points[i]).v) implies at_most(
            lo,
            points[i].v,
        ) && at_most(points[i].v, hi) by {
            if i < n {
                assert(p[i] == points[i]);
            }
        }
        if forall|i: int| 0 <= i < n ==> nan((#[trigger] p[i]).v) {
            if !nan(v) {
                assert(points[n].v == lo && points[n].v == hi);
                assert forall|i: int| 0 <= i < points.len() && i < n implies nan(
                    (#[trigger] points[i]).v,
                ) by {
                    assert(p[i] == points[i]);
                }
            } else {
                assert forall|i: int| 0 <= i < points.len() implies nan((#[trigger] points[i]).v) by {
                    if i < n {
                        assert(p[i] == points[i]);
                    }
                }
            }
        } else {
            let w = choose|i: int| 0 <= i < n && !nan((#[trigger] p[i]).v);
            let a = choose|i: int| 0 <= i < n && (#[trigger] p[i]).v == l;
            let b = choose|i: int| 0 <= i < n && (#[trigger] p[i]).v == h;
            assert(points[a] == p[a] && points[b] == p[b] && points[w] == p[w]);
            assert(lo == points[a].v || lo == points[n].v);
            assert(hi == points[b].v || hi == points[n].v);
        }
    }
}

/// The least and the greatest value; NaNs do not count.
pub fn range_of_values(points: &[Point]) -> (r: (Sample, Sample))
    ensures
        r == value_range(points@),
{
    let mut lo: Sample = INFINITY;
    let mut hi: Sample = NEG_INFINITY;
    let mut i: usize = 0;
    while i < points.len()
        invariant
            i <= points@.len(),
            (lo, hi) == value_range(points@.take(i as int)),
        decreases points@.len() - i,
    {
        assert(points@.take(i + 1).drop_last() =~= points@.take(i as int));
        lo = min(lo, points[i].v);
        hi = max(hi, points[i].v);
        i += 1;
    }
    assert(points@.take(i as int) =~= points@);
    (lo, hi)
}

// ---------------------------------------------------------------------------
// Crossings of the middle level
// ---------------------------------------------------------------------------

/// The signal rises across a level before point `i`.
pub open spec fn rises(points: Seq<Point>, level: Sample, i: int) -> bool {
    at_most(points[i - 1].v, level) && below(level, points[i].v)
}

/// The signal falls across a level before point `i`.
pub open spec fn falls(points: Seq<Point>, level: Sample, i: int) -> bool {
    below(level, points[i - 1].v) && at_most(points[i].v, level)
}

/// The rises among the first `k` points.
pub open spec fn rises_in(points: Seq<Point>, level: Sample, k: int) -> Seq<int>
    decreases k,
{
    if k <= 1 {
        Seq::empty()
    } else if rises(points, level, k - 1) {
        rises_in(points, level, k - 1).push(k - 1)
    } else {
        rises_in(points, level, k - 1)
    }
}

/// The falls among the first `k` points.
pub open spec fn falls_in(points: Seq<Point>, level: Sample, k: int) -> Seq<int>
    decreases k,
{
    if k <= 1 {
        Seq::empty()
    } else if falls(points, level, k - 1) {
        falls_in(points, level, k - 1).push(k - 1)
    } else {
        falls_in(points, level, k - 1)
    }
}

/// Where a signal rises and where it falls across a level, each given by the
/// index of the point after the crossing.
pub fn level_crossings(points: &[Point], level: Sample) -> (r: (Vec<usize>, Vec<usize>))
    ensures
        positions(r.0@) == rises_in(points@, level, points@.len() as int),
        positions(r.1@) == falls_in(points@, level, points@.len() as int),
{
    let mut up: Vec<usize> = Vec::new();
    let mut down: Vec<usize> = Vec::new();
    let mut i: usize = 1;
    assert(positions(up@) =~= Seq::<int>::empty());
    assert(positions(down@) =~= Seq::<int>::empty());
    while i < points.len()
        invariant
            1 <= i,
            i <= points@.len() || i == 1,
            positions(up@) == rises_in(points@, level, i as int),
            positions(down@) == falls_in(points@, level, i as int),
        decreases points@.len() - i,
    {
        let prev: Sample = points[i - 1].v;
        let curr: Sample = points[i].v;
        let ghost (ups, downs) = (up@, down@);
        if le(prev, level) && lt(level, curr) {
            up.push(i);
            assert(positions(up@) =~= positions(ups).push(i as int));
        } else if lt(level, prev) && le(curr, level) {
            down.push(i);
            assert(positions(down@) =~= positions(downs).push(i as int));
        }
        i += 1;
    }
    proof {
        if points@.len() <= 1 {
            assert(rises_in(points@, level, points@.len() as int) =~= rises_in(points@, level, 1));
            assert(falls_in(points@, level, points@.len() as int) =~= falls_in(points@, level, 1));
        }
    }
    (up, down)
}

/// Every crossing is found, and nothing else: a point is among the rises if and
/// only if the signal is above the level there and was not above it at the point
/// before, and among the falls if and only if it is the other way round.  Both
/// are in order.
pub proof fn law_crossings_found(points: Seq<Point>, level: Sample, k: int)
    requires
        k <= points.len(),
    ensures
        ({
            let (up, down) = (rises_in(points, level, k), falls_in(points, level, k));
            &&& forall|i: int| #[trigger]
                up.contains(i) <==> 1 <= i < k && at_most(points[i - 1].v, level) && below(
                    level,
                    points[i].v,
                )
            &&& forall|i: int| #[trigger]
                down.contains(i) <==> 1 <= i < k && below(level, points[i - 1].v) && at_most(
                    points[i].v,
                    level,
                )
            &&& forall|a: int, b: int| 0 <= a < b < up.len() ==> up[a] < up[b]
            &&& forall|a: int, b: int| 0 <= a < b < down.len() ==> down[a] < down[b]
        }),
    decreases k,
{
    let (up, down) = (rises_in(points, level, k), falls_in(points, level, k));
    if k > 1 {
        law_crossings_found(points, level, k - 1);
        let (u, d) = (rises_in(points, level, k - 1), falls_in(points, level, k - 1));
        lemma_one_more(u, up, k - 1, rises(points, level, k - 1));
        lemma_one_more(d, down, k - 1, falls(points, level, k - 1));
    }
}

/// A list with one index more, or the same list.
pub proof fn lemma_one_more(earlier: Seq<int>, all: Seq<int>, i: int, hit: bool)
    requires
        all == if hit {
            earlier.push(i)
        } else {
            earlier
        },
        forall|x: int| #[trigger] earlier.contains(x) ==> x < i,
    ensures
        forall|x: int| #[trigger] all.contains(x) <==> earlier.contains(x) || (hit && x == i),
        (forall|a: int, b: int| 0 <= a < b < earlier.len() ==> earlier[a] < earlier[b]) ==> (
        forall|a: int, b: int| 0 <= a < b < all.len() ==> all[a] < all[b]),
{
    assert forall|x: int| #[trigger] all.contains(x) <==> earlier.contains(x) || (hit && x == i) by {
        if hit {
            if all.contains(x) {
                let a = choose|a: int| 0 <= a < all.len() && all[a] == x;
                if a < earlier.len() {
                    assert(earlier[a] == x);
                }
            }
            if earlier.contains(x) {
                let a = choose|a: int| 0 <= a < earlier.len() && earlier[a] == x;
                assert(all[a] == x);
            }
            assert(all[earlier.len() as int] == i);
        }
    }
    assert forall|a: int| 0 <= a < earlier.len() implies earlier[a] < i by {
        assert(earlier.contains(earlier[a]));
    }
}

/// Rises and falls take turns: counted from whether the signal begins above
/// the level, they tell whether it ends above it.
pub proof fn law_crossings_alternate(points: Seq<Point>, level: Sample, k: int)
    requires
        1 <= k <= points.len(),
        forall|i: int| 0 <= i < points.len() ==> !nan((#[trigger] points[i]).v),
        !nan(level),
    ensures
        ({
            let first_above: int = if below(level, points[0].v) {
                1
            } else {
                0
            };
            let last_above: int = if below(level, points[k - 1].v) {
                1
            } else {
                0
            };
            first_above + rises_in(points, level, k).len() - falls_in(points, level, k).len()
                == last_above
        }),
    decreases k,
{
    if k > 1 {
        law_crossings_alternate(points, level, k - 1);
        assert(!nan(points[k - 1].v));
        assert(!nan(points[k - 2].v));
    }
}

// ---------------------------------------------------------------------------
// The first edge
// ---------------------------------------------------------------------------

/// The signal reaches a threshold at point `i`, coming from the other side.
pub open spec fn reaches(points: Seq<Point>, level: Sample, rising: bool, i: int) -> bool {
    let (prev, curr) = (points[i - 1].v, points[i].v);
    if rising {
        below(prev, level) && at_most(level, curr)
    } else {
        below(level, prev) && at_most(curr, level)
    }
}

/// A threshold is reached exactly where the point before lies on the one side,
/// strictly, and the point itself at the threshold or on the other side.
pub proof fn law_reaches(points: Seq<Point>, level: Sample, i: int)
    ensures
        reaches(points, level, true, i) <==> below(points[i - 1].v, level) && at_most(
            level,
            points[i].v,
        ),
        reaches(points, level, false, i) <==> below(level, points[i - 1].v) && at_most(
            points[i].v,
            level,
        ),
{
}

/// On the way from a point strictly on the one side of a threshold to a point at
/// the threshold or beyond, it is reached at some point.
pub proof fn law_reach(points: Seq<Point>, level: Sample, rising: bool, a: int, b: int) -> (i: int)
    requires
        0 <= a < b < points.len(),
        forall|k: int| a <= k <= b ==> !nan((#[trigger] points[k]).v),
        if rising {
            below(points[a].v, level) && at_most(level, points[b].v)
        } else {
            below(level, points[a].v) && at_most(points[b].v, level)
        },
    ensures
        a < i <= b,
        reaches(points, level, rising, i),
    decreases b - a,
{
    assert(!nan(points[a + 1].v));
    if reaches(points, level, rising, a + 1) {
        a + 1
    } else {
        law_reach(points, level, rising, a + 1, b)
    }
}

/// The first point from an index on at which the signal reaches a threshold.
pub fn first_reach(points: &[Point], from: usize, level: Sample, rising: bool) -> (r: Option<usize>)
    requires
        from >= 1,
    ensures
        match r {
            Some(i) => from <= i < points@.len() && reaches(points@, level, rising, i as int)
                && forall|k: int| from <= k < i ==> !reaches(points@, level, rising, k),
            None => forall|k: int|
                from <= k < points@.len() ==> !reaches(points@, level, rising, k),
        },
{
    let mut i: usize = from;
    while i < points.len()
        invariant
            from <= i,
            from >= 1,
            forall|k: int| from <= k < i ==> !reaches(points@, level, rising, k),
        decreases points@.len() - i,
    {
        let prev: Sample = points[i - 1].v;
        let curr: Sample = points[i].v;
        let hit: bool = if rising {
            lt(prev, level) && le(level, curr)
        } else {
            lt(level, prev) && le(curr, level)
        };
        if hit {
            return Some(i);
        }
        i += 1;
    }
    None
}

/// The first edge of a signal: where it leaves the first threshold, and where
/// it then reaches the second one, which may be at the same point.  Only the
/// first edge is looked at.
pub fn find_edge(points: &[Point], from: Sample, to: Sample, rising: bool) -> (r: Option<
    (usize, usize),
>)
    ensures
        match r {
            Some((i, j)) => {
                &&& 1 <= i <= j < points@.len()
                &&& reaches(points@, from, rising, i as int)
                &&& forall|k: int| 1 <= k < i ==> !reaches(points@, from, rising, k)
                &&& reaches(points@, to, rising, j as int)
                &&& forall|k: int| i <= k < j ==> !reaches(points@, to, rising, k)
            },
            None => forall|i: int, j: int|
                1 <= i <= j < points@.len() && reaches(points@, from, rising, i) && (forall|k: int|
                    1 <= k < i ==> !reaches(points@, from, rising, k)) ==> !reaches(
                    points@,
                    to,
                    rising,
                    j,
                ),
        },
{
    assert(points@.len() == points.len());
    match first_reach(points, 1, from, rising) {
        Some(i) => match first_reach(points, i, to, rising) {
            Some(j) => Some((i, j)),
            None => {
                assert forall|a: int, j: int|
                    1 <= a <= j < points@.len() && reaches(points@, from, rising, a) && (forall|
                        k: int,
                    |
                        1 <= k < a ==> !reaches(points@, from, rising, k)) implies !reaches(
                    points@,
                    to,
                    rising,
                    j,
                ) by {
                    if a < i {
                        assert(!reaches(points@, from, rising, a));
                    }
                    if i < a {
                        assert(!reaches(points@, from, rising, i as int));
                    }
                }
                None
            },
        },
        None => None,
    }
}

// ---------------------------------------------------------------------------
// How values are shown
// ---------------------------------------------------------------------------

/// From which magnitude on a prefix is used: a thousandth less than its scale,
/// so that values just below the scale get it too.
pub open spec fn prefix_thresholds() -> Seq<Sample> {
    seq![
        0x426d_1321_48c0_0000,
        0x41cd_c5c3_e000_0000,
        0x412e_7cb0_0000_0000,
        0x408f_3800_0000_0000,
        0x3fef_f7ce_d916_872b,
        0x3f50_5e1c_1509_7c81,
        0x3eb0_c2ac_1dbb_e3d7,
        0x3e11_29a6_01c6_8b1a,
        0x3d71_9318_9546_303b,
    ]
}

/// How a value is shown.
#[derive(Clone, Copy, Debug, PartialEq, Eq, Structural)]
pub enum ValueStyle {
    /// Neither finite nor a number.
    Missing,
    Zero,
    /// With the prefix of that number, from tera down to pico.
    Prefixed(usize),
    /// Too small for a prefix.
    Scientific,
}

/// How a value is shown: with the first prefix whose threshold it reaches.
pub fn value_style(value: Sample) -> (style: ValueStyle)
    ensures
        match style {
            ValueStyle::Missing => !finite(value),
            ValueStyle::Zero => magnitude(value) == 0,
            ValueStyle::Prefixed(k) => finite(value) && magnitude(value) > 0 && k < 9 && at_most(
                prefix_thresholds()[k as int],
                magnitude(value) as Sample,
            ) && forall|j: int|
                0 <= j < k ==> !at_most(
                    #[trigger] prefix_thresholds()[j],
                    magnitude(value) as Sample,
                ),
            ValueStyle::Scientific => finite(value) && magnitude(value) > 0 && forall|j: int|
                0 <= j < 9 ==> !at_most(
                    #[trigger] prefix_thresholds()[j],
                    magnitude(value) as Sample,
                ),
        },
{
    if !is_finite(value) {
        return ValueStyle::Missing;
    }
    let a: Sample = abs(value);
    if a == 0 {
        return ValueStyle::Zero;
    }
    let thresholds: [Sample; 9] = [
        0x426d_1321_48c0_0000,
        0x41cd_c5c3_e000_0000,
        0x412e_7cb0_0000_0000,
        0x408f_3800_0000_0000,
        0x3fef_f7ce_d916_872b,
        0x3f50_5e1c_1509_7c81,
        0x3eb0_c2ac_1dbb_e3d7,
        0x3e11_29a6_01c6_8b1a,
        0x3d71_9318_9546_303b,
    ];
    assert(thresholds@ =~= prefix_thresholds());
    let mut k: usize = 0;
    while k < 9
        invariant
            k <= 9,
            thresholds@ == prefix_thresholds(),
            thresholds@.len() == 9,
            a == magnitude(value),
            a > 0,
            finite(value),
            forall|j: int| 0 <= j < k ==> !at_most(#[trigger] prefix_thresholds()[j], a),
        decreases 9 - k,
    {
        if le(thresholds[k], a) {
            return ValueStyle::Prefixed(k);
        }
        k += 1;
    }
    ValueStyle::Scientific
}

/// The letter of a prefix.
pub fn prefix_letter(k: usize) -> (s: &'static str)
    requires
        k < 9,
    ensures
        s@ == seq!["T"@, "G"@, "M"@, "k"@, ""@, "m"@, "u"@, "n"@, "p"@][k as int],
{
    match k {
        0 => "T",
        1 => "G",
        2 => "M",
        3 => "k",
        4 => "",
        5 => "m",
        6 => "u",
        7 => "n",
        _ => "p",
    }
}

/// The prefixes are those of 10^12, 10^9 and so on down to 10^-12, each used from
/// 0.999 of its scale on: with its mantissa and its exponent taken as integers,
/// each threshold is that number, exactly where it is a whole one and else but
/// for the last place.
pub proof fn law_prefix_thresholds()
    ensures
        ({
            let t = prefix_thresholds();
            let one = 0x10_0000_0000_0000int;
            let mantissa = |k: int| t[k] as int % one + one;
            let exponent = |k: int| t[k] as int / one;
            &&& t.len() == 9
            &&& exponent(0) == 1075 - 13 && mantissa(0) == 999_000_000_000 * 0x2000
            &&& exponent(1) == 1075 - 23 && mantissa(1) == 999_000_000 * 0x80_0000
            &&& exponent(2) == 1075 - 33 && mantissa(2) == 999_000 * 0x2_0000_0000
            &&& exponent(3) == 1075 - 43 && mantissa(3) == 999 * 0x800_0000_0000
            &&& exponent(4) == 1075 - 53 && -1_000 <= 1_000 * mantissa(4) - 999
                * 0x20_0000_0000_0000 <= 1_000
            &&& exponent(5) == 1075 - 62 && -1_000_000 <= 1_000_000 * mantissa(5) - 999
                * 0x4000_0000_0000_0000 <= 1_000_000
            &&& exponent(6) == 1075 - 72 && -1_000_000_000 <= 1_000_000_000 * mantissa(6) - 999
                * 0x100_0000_0000_0000_0000 <= 1_000_000_000
            &&& exponent(7) == 1075 - 82 && -1_000_000_000_000 <= 1_000_000_000_000 * mantissa(7)
                - 999 * 0x4_0000_0000_0000_0000_0000 <= 1_000_000_000_000
            &&& exponent(8) == 1075 - 92 && -1_000_000_000_000_000 <= 1_000_000_000_000_000
                * mantissa(8) - 999 * 0x1000_0000_0000_0000_0000_0000 <= 1_000_000_000_000_000
        }),
{
}

} // verus!
