//! Eye diagrams: trigger edges, the unit interval, and the density grid.
//!
//! Edges of the signal itself are found with hysteresis: after an edge the
//! signal has to come back across the other threshold before the next edge
//! counts, so that noise around a threshold triggers once.

use crate::measurement::lemma_one_more;
use crate::sample::{at_most, below, le, lt, Point, Sample, ZERO};
use crate::segments::positions;
use vstd::prelude::*;

verus! {

/// The fewest points for an eye diagram.
pub const MIN_EYE_POINTS: usize = 10;

/// The fewest rising edges from which a unit interval is found.
pub const MIN_CROSSINGS: usize = 3;

/// The fewest unit intervals shown.
pub const MIN_UI: usize = 2;

// ---------------------------------------------------------------------------
// Choices
// ---------------------------------------------------------------------------

/// How the density is coloured.
#[derive(Clone, Copy, Debug, PartialEq, Eq, Structural)]
pub enum EyeColorMode {
    Rainbow,
    Monochrome,
    Temperature,
    Grayscale,
    Phosphor,
    Viridis,
    Ironbow,
    CrtAmber,
}

impl EyeColorMode {
    /// All modes, in the order in which they are offered.
    pub fn all() -> (modes: &'static [EyeColorMode])
        ensures
            modes@ == seq![
                EyeColorMode::Monochrome,
                EyeColorMode::Rainbow,
                EyeColorMode::Temperature,
                EyeColorMode::Grayscale,
                EyeColorMode::Phosphor,
                EyeColorMode::Viridis,
                EyeColorMode::Ironbow,
                EyeColorMode::CrtAmber,
            ],
    {
        &[
            EyeColorMode::Monochrome,
            EyeColorMode::Rainbow,
            EyeColorMode::Temperature,
            EyeColorMode::Grayscale,
            EyeColorMode::Phosphor,
            EyeColorMode::Viridis,
            EyeColorMode::Ironbow,
            EyeColorMode::CrtAmber,
        ]
    }

    /// The name of the mode.
    pub fn label(&self) -> (s: &'static str)
        ensures
            s@ == (match *self {
                EyeColorMode::Rainbow => "Rainbow"@,
                EyeColorMode::Monochrome => "Monochrome"@,
                EyeColorMode::Temperature => "Temperature"@,
                EyeColorMode::Grayscale => "Grayscale"@,
                EyeColorMode::Phosphor => "Phosphor"@,
                EyeColorMode::Viridis => "Viridis"@,
                EyeColorMode::Ironbow => "Ironbow"@,
                EyeColorMode::CrtAmber => "CRT Amber"@,
            }),
    {
        match *self {
            EyeColorMode::Rainbow => "Rainbow",
            EyeColorMode::Monochrome => "Monochrome",
            EyeColorMode::Temperature => "Temperature",
            EyeColorMode::Grayscale => "Grayscale",
            EyeColorMode::Phosphor => "Phosphor",
            EyeColorMode::Viridis => "Viridis",
            EyeColorMode::Ironbow => "Ironbow",
            EyeColorMode::CrtAmber => "CRT Amber",
        }
    }
}

/// Which edges trigger.
#[derive(Clone, Copy, Debug, PartialEq, Eq, Structural)]
pub enum ClockPolarity {
    Rising,
    Falling,
    Both,
}

impl ClockPolarity {
    /// All polarities, in the order in which they are offered.
    pub fn all() -> (polarities: &'static [ClockPolarity])
        ensures
            polarities@ == seq![ClockPolarity::Rising, ClockPolarity::Falling, ClockPolarity::Both],
    {
        &[ClockPolarity::Rising, ClockPolarity::Falling, ClockPolarity::Both]
    }

    /// The name of the polarity.
    pub fn label(&self) -> (s: &'static str)
        ensures
            s@ == (match *self {
                ClockPolarity::Rising => "Rising"@,
                ClockPolarity::Falling => "Falling"@,
                ClockPolarity::Both => "Both"@,
            }),
    {
        match *self {
            ClockPolarity::Rising => "Rising",
            ClockPolarity::Falling => "Falling",
            ClockPolarity::Both => "Both",
        }
    }
}

/// What is to be computed once the controls were drawn.
#[derive(Clone, Copy, Debug, PartialEq, Eq, Structural)]
pub enum EyeWork {
    Nothing,
    /// The diagram, with the unit interval as it is.
    Diagram,
    /// The unit interval, and then the diagram.
    IntervalAndDiagram,
}

/// Decides what is to be computed.
pub fn eye_work(auto_requested: bool, recompute_requested: bool, outdated: bool) -> (work: EyeWork)
    ensures
        work == (if auto_requested {
            EyeWork::IntervalAndDiagram
        } else if recompute_requested || outdated {
            EyeWork::Diagram
        } else {
            EyeWork::Nothing
        }),
{
    if auto_requested {
        EyeWork::IntervalAndDiagram
    } else if recompute_requested || outdated {
        EyeWork::Diagram
    } else {
        EyeWork::Nothing
    }
}

// ---------------------------------------------------------------------------
// Edges with hysteresis
// ---------------------------------------------------------------------------

/// Whether the trigger is set after `k` points, and the edges so far.
pub struct TriggerState {
    pub set: bool,
    pub edges: Seq<int>,
}

/// Rising edges among the first `k` points.
pub open spec fn rising_state(points: Seq<Point>, hi: Sample, lo: Sample, k: int) -> TriggerState
    decreases k,
{
    if k <= 1 {
        TriggerState { set: false, edges: Seq::empty() }
    } else {
        let s = rising_state(points, hi, lo, k - 1);
        let (prev, curr) = (points[k - 2].v, points[k - 1].v);
        if !s.set && at_most(prev, hi) && below(hi, curr) {
            TriggerState { set: true, edges: s.edges.push(k - 1) }
        } else if s.set && below(curr, lo) {
            TriggerState { set: false, edges: s.edges }
        } else {
            s
        }
    }
}

/// Falling edges among the first `k` points.
pub open spec fn falling_state(points: Seq<Point>, hi: Sample, lo: Sample, k: int) -> TriggerState
    decreases k,
{
    if k <= 1 {
        TriggerState { set: false, edges: Seq::empty() }
    } else {
        let s = falling_state(points, hi, lo, k - 1);
        let (prev, curr) = (points[k - 2].v, points[k - 1].v);
        if !s.set && at_most(lo, prev) && below(curr, lo) {
            TriggerState { set: true, edges: s.edges.push(k - 1) }
        } else if s.set && below(hi, curr) {
            TriggerState { set: false, edges: s.edges }
        } else {
            s
        }
    }
}

/// Edges in both directions among the first `k` points.
pub open spec fn both_state(points: Seq<Point>, hi: Sample, lo: Sample, k: int) -> TriggerState
    decreases k,
{
    if k <= 1 {
        TriggerState { set: false, edges: Seq::empty() }
    } else {
        let s = both_state(points, hi, lo, k - 1);
        let curr = points[k - 1].v;
        if !s.set && below(hi, curr) {
            TriggerState { set: true, edges: s.edges.push(k - 1) }
        } else if s.set && below(curr, lo) {
            TriggerState { set: false, edges: s.edges.push(k - 1) }
        } else {
            s
        }
    }
}

/// The edges of a signal.
pub open spec fn edge_state(
    points: Seq<Point>,
    hi: Sample,
    lo: Sample,
    polarity: ClockPolarity,
    k: int,
) -> TriggerState {
    match polarity {
        ClockPolarity::Rising => rising_state(points, hi, lo, k),
        ClockPolarity::Falling => falling_state(points, hi, lo, k),
        ClockPolarity::Both => both_state(points, hi, lo, k),
    }
}

/// Finds the edges of a signal, each given by the index of the point after it.
pub fn find_signal_edges(points: &[Point], hi: Sample, lo: Sample, polarity: ClockPolarity) -> (edges:
    Vec<usize>)
    ensures
        positions(edges@) == edge_state(points@, hi, lo, polarity, points@.len() as int).edges,
{
    let mut edges: Vec<usize> = Vec::new();
    let mut set: bool = false;
    let mut i: usize = 1;
    assert(positions(edges@) =~= Seq::<int>::empty());
    while i < points.len()
        invariant
            1 <= i,
            i <= points@.len() || i == 1,
            set == edge_state(points@, hi, lo, polarity, i as int).set,
            positions(edges@) == edge_state(points@, hi, lo, polarity, i as int).edges,
        decreases points@.len() - i,
    {
        let prev: Sample = points[i - 1].v;
        let curr: Sample = points[i].v;
        let ghost before = edges@;
        let edge: bool = match polarity {
            ClockPolarity::Rising => !set && le(prev, hi) && lt(hi, curr),
            ClockPolarity::Falling => !set && le(lo, prev) && lt(curr, lo),
            ClockPolarity::Both => (!set && lt(hi, curr)) || (set && lt(curr, lo)),
        };
        if edge {
            edges.push(i);
            assert(positions(edges@) =~= positions(before).push(i as int));
            set = !set;
        } else {
            let back: bool = match polarity {
                ClockPolarity::Rising => set && lt(curr, lo),
                ClockPolarity::Falling => set && lt(hi, curr),
                ClockPolarity::Both => false,
            };
            if back {
                set = false;
            }
        }
        i += 1;
    }
    proof {
        if points@.len() <= 1 {
            assert(edge_state(points@, hi, lo, polarity, points@.len() as int).edges
                =~= edge_state(points@, hi, lo, polarity, 1).edges);
        }
    }
    edges
}

/// Rising edges are real and apart: each edge crosses the upper threshold, and
/// between two edges the signal was below the lower one.
pub proof fn law_rising_edges(points: Seq<Point>, hi: Sample, lo: Sample, k: int)
    requires
        0 <= k <= points.len(),
    ensures
        ({
            let s = rising_state(points, hi, lo, k);
            &&& forall|m: int|
                0 <= m < s.edges.len() ==> 1 <= (#[trigger] s.edges[m]) < k && at_most(
                    points[s.edges[m] - 1].v,
                    hi,
                ) && below(hi, points[s.edges[m]].v)
            &&& forall|m: int|
                #![trigger s.edges[m]]
                1 <= m < s.edges.len() ==> dipped(points, lo, s.edges[m - 1], s.edges[m])
            &&& s.set ==> s.edges.len() > 0
            &&& s.edges.len() > 0 && !s.set ==> dipped(points, lo, s.edges.last(), k)
        }),
    decreases k,
{
    if k > 1 {
        law_rising_edges(points, hi, lo, k - 1);
        let s = rising_state(points, hi, lo, k - 1);
        let t = rising_state(points, hi, lo, k);
        let (prev, curr) = (points[k - 2].v, points[k - 1].v);
        if !s.set && at_most(prev, hi) && below(hi, curr) {
            assert forall|m: int|
                #![trigger t.edges[m]]
                1 <= m < t.edges.len() implies dipped(points, lo, t.edges[m - 1], t.edges[m]) by {
                if m < s.edges.len() {
                    assert(t.edges[m] == s.edges[m] && t.edges[m - 1] == s.edges[m - 1]);
                    assert(dipped(points, lo, s.edges[m - 1], s.edges[m]));
                }
            }
        } else if s.set && below(curr, lo) {
            assert(s.edges.last() == s.edges[s.edges.len() - 1]);
            assert(dips(points, lo, k - 1));
        } else if s.edges.len() > 0 && !s.set {
            let i = choose|i: int| s.edges.last() < i < k - 1 && #[trigger] dips(points, lo, i);
            assert(dips(points, lo, i));
        }
    }
}

/// A point lies below a threshold.
pub open spec fn dips(points: Seq<Point>, lo: Sample, i: int) -> bool {
    below(points[i].v, lo)
}

/// Between two indices some point lies below a threshold.
pub open spec fn dipped(points: Seq<Point>, lo: Sample, a: int, b: int) -> bool {
    exists|i: int| a < i < b && #[trigger] dips(points, lo, i)
}

/// A point lies above a threshold.
pub open spec fn peaks(points: Seq<Point>, hi: Sample, i: int) -> bool {
    below(hi, points[i].v)
}

/// Between two indices some point lies above a threshold.
pub open spec fn peaked(points: Seq<Point>, hi: Sample, a: int, b: int) -> bool {
    exists|i: int| a < i < b && #[trigger] peaks(points, hi, i)
}

/// Falling edges are real and apart: each edge crosses the lower threshold, and
/// between two edges the signal was above the upper one.
pub proof fn law_falling_edges(points: Seq<Point>, hi: Sample, lo: Sample, k: int)
    requires
        0 <= k <= points.len(),
    ensures
        ({
            let s = falling_state(points, hi, lo, k);
            &&& forall|m: int|
                0 <= m < s.edges.len() ==> 1 <= (#[trigger] s.edges[m]) < k && at_most(
                    lo,
                    points[s.edges[m] - 1].v,
                ) && below(points[s.edges[m]].v, lo)
            &&& forall|m: int|
                #![trigger s.edges[m]]
                1 <= m < s.edges.len() ==> peaked(points, hi, s.edges[m - 1], s.edges[m])
            &&& s.set ==> s.edges.len() > 0
            &&& s.edges.len() > 0 && !s.set ==> peaked(points, hi, s.edges.last(), k)
        }),
    decreases k,
{
    if k > 1 {
        law_falling_edges(points, hi, lo, k - 1);
        let s = falling_state(points, hi, lo, k - 1);
        let t = falling_state(points, hi, lo, k);
        let (prev, curr) = (points[k - 2].v, points[k - 1].v);
        if !s.set && at_most(lo, prev) && below(curr, lo) {
            assert forall|m: int|
                #![trigger t.edges[m]]
                1 <= m < t.edges.len() implies peaked(points, hi, t.edges[m - 1], t.edges[m]) by {
                if m < s.edges.len() {
                    assert(t.edges[m] == s.edges[m] && t.edges[m - 1] == s.edges[m - 1]);
                    assert(peaked(points, hi, s.edges[m - 1], s.edges[m]));
                }
            }
        } else if s.set && below(hi, curr) {
            assert(s.edges.last() == s.edges[s.edges.len() - 1]);
            assert(peaks(points, hi, k - 1));
        } else if s.edges.len() > 0 && !s.set {
            let i = choose|i: int| s.edges.last() < i < k - 1 && #[trigger] peaks(points, hi, i);
            assert(peaks(points, hi, i));
        }
    }
}

/// Edges in both directions take turns: the first one rises, and each other one
/// goes the other way than the one before it.
pub proof fn law_both_edges_alternate(points: Seq<Point>, hi: Sample, lo: Sample, k: int)
    requires
        0 <= k <= points.len(),
    ensures
        ({
            let s = both_state(points, hi, lo, k);
            &&& s.set == (s.edges.len() % 2 == 1)
            &&& forall|m: int|
                0 <= m < s.edges.len() ==> 1 <= (#[trigger] s.edges[m]) < k && if m % 2 == 0 {
                    below(hi, points[s.edges[m]].v)
                } else {
                    below(points[s.edges[m]].v, lo)
                }
        }),
    decreases k,
{
    if k > 1 {
        law_both_edges_alternate(points, hi, lo, k - 1);
    }
}

/// Rising edges, and all of them.  Every edge is a point above the upper
/// threshold after one that is not; they are in order, and between two of them
/// the signal was below the lower threshold.  None is missed: wherever the signal
/// goes above the upper threshold there is an edge, unless it has not been below
/// the lower threshold since an earlier edge.
pub proof fn law_rising_edges_found(points: Seq<Point>, hi: Sample, lo: Sample, k: int)
    requires
        0 <= k <= points.len(),
    ensures
        ({
            let e = edge_state(points, hi, lo, ClockPolarity::Rising, k).edges;
            &&& forall|m: int|
                0 <= m < e.len() ==> 1 <= (#[trigger] e[m]) < k && at_most(points[e[m] - 1].v, hi)
                    && below(hi, points[e[m]].v)
            &&& forall|m: int, n: int|
                0 <= m < n < e.len() ==> (#[trigger] e[m]) < (#[trigger] e[n]) && exists|j: int|
                    e[m] < j < e[n] && below((#[trigger] points[j]).v, lo)
            &&& forall|i: int|
                1 <= i < k && at_most(points[i - 1].v, hi) && below(hi, (#[trigger] points[i]).v)
                    ==> e.contains(i) || exists|m: int|
                    0 <= m < e.len() && (#[trigger] e[m]) < i && forall|j: int|
                        e[m] < j < i ==> !below((#[trigger] points[j]).v, lo)
        }),
{
    let s = rising_state(points, hi, lo, k);
    let e = s.edges;
    law_rising_edges(points, hi, lo, k);
    let mark = |i: int| dips(points, lo, i);
    assert forall|m: int| 1 <= m < e.len() implies marked(mark, e[m - 1], #[trigger] e[m]) by {
        assert(dipped(points, lo, e[m - 1], e[m]));
        let i = choose|i: int| e[m - 1] < i < e[m] && #[trigger] dips(points, lo, i);
        assert(mark(i));
    }
    assert forall|m: int, n: int| 0 <= m < n < e.len() implies (#[trigger] e[m]) < (#[trigger] e[n])
        && exists|j: int| e[m] < j < e[n] && below((#[trigger] points[j]).v, lo) by {
        lemma_apart(e, mark, m, n);
        let j = choose|j: int| e[m] < j < e[n] && #[trigger] mark(j);
        assert(below(points[j].v, lo));
    }
    lemma_rising_complete(points, hi, lo, k);
}

/// Some place between two others is marked.
spec fn marked(mark: spec_fn(int) -> bool, a: int, b: int) -> bool {
    exists|i: int| a < i < b && #[trigger] mark(i)
}

/// Marked places between neighbours are between any two.
proof fn lemma_apart(e: Seq<int>, mark: spec_fn(int) -> bool, m: int, n: int)
    requires
        forall|m: int| 1 <= m < e.len() ==> marked(mark, e[m - 1], #[trigger] e[m]),
        0 <= m < n < e.len(),
    ensures
        e[m] < e[n],
        marked(mark, e[m], e[n]),
    decreases n - m,
{
    assert(marked(mark, e[n - 1], e[n]));
    let i = choose|i: int| e[n - 1] < i < e[n] && #[trigger] mark(i);
    if m < n - 1 {
        lemma_apart(e, mark, m, n - 1);
    }
    assert(mark(i));
}

/// No rising edge is missed, and where the trigger is set the signal has not
/// come back since the last one.
proof fn lemma_rising_complete(points: Seq<Point>, hi: Sample, lo: Sample, k: int)
    requires
        0 <= k <= points.len(),
    ensures
        ({
            let s = rising_state(points, hi, lo, k);
            let e = s.edges;
            &&& s.set ==> e.len() > 0 && e.last() < k && forall|j: int|
                e.last() < j < k ==> !below((#[trigger] points[j]).v, lo)
            &&& forall|i: int|
                1 <= i < k && at_most(points[i - 1].v, hi) && below(hi, (#[trigger] points[i]).v)
                    ==> e.contains(i) || exists|m: int|
                    0 <= m < e.len() && (#[trigger] e[m]) < i && forall|j: int|
                        e[m] < j < i ==> !below((#[trigger] points[j]).v, lo)
        }),
    decreases k,
{
    if k > 1 {
        let s = rising_state(points, hi, lo, k - 1);
        let t = rising_state(points, hi, lo, k);
        lemma_rising_complete(points, hi, lo, k - 1);
        let e = t.edges;
        assert forall|i: int|
            1 <= i < k && at_most(points[i - 1].v, hi) && below(hi, (#[trigger] points[i]).v) implies (
        e.contains(i) || exists|m: int|
            0 <= m < e.len() && (#[trigger] e[m]) < i && forall|j: int|
                e[m] < j < i ==> !below((#[trigger] points[j]).v, lo)) by {
            if i < k - 1 {
                if s.edges.contains(i) {
                    let m = choose|m: int| 0 <= m < s.edges.len() && s.edges[m] == i;
                    assert(e[m] == i);
                } else {
                    let m = choose|m: int|
                        0 <= m < s.edges.len() && (#[trigger] s.edges[m]) < i && forall|j: int|
                            s.edges[m] < j < i ==> !below((#[trigger] points[j]).v, lo);
                    assert(e[m] == s.edges[m]);
                }
            } else if s.set {
                let m = s.edges.len() - 1;
                assert(e[m] == s.edges[m]);
            } else {
                assert(e[e.len() - 1] == i);
            }
        }
    }
}

/// Falling edges, and all of them.  Every edge is a point below the lower
/// threshold after one that is not; they are in order, and between two of them
/// the signal was above the upper threshold.  None is missed: wherever the signal
/// goes below the lower threshold there is an edge, unless it has not been above
/// the upper threshold since an earlier edge.
pub proof fn law_falling_edges_found(points: Seq<Point>, hi: Sample, lo: Sample, k: int)
    requires
        0 <= k <= points.len(),
    ensures
        ({
            let e = edge_state(points, hi, lo, ClockPolarity::Falling, k).edges;
            &&& forall|m: int|
                0 <= m < e.len() ==> 1 <= (#[trigger] e[m]) < k && at_most(lo, points[e[m] - 1].v)
                    && below(points[e[m]].v, lo)
            &&& forall|m: int, n: int|
                0 <= m < n < e.len() ==> (#[trigger] e[m]) < (#[trigger] e[n]) && exists|j: int|
                    e[m] < j < e[n] && below(hi, (#[trigger] points[j]).v)
            &&& forall|i: int|
                1 <= i < k && at_most(lo, points[i - 1].v) && below((#[trigger] points[i]).v, lo)
                    ==> e.contains(i) || exists|m: int|
                    0 <= m < e.len() && (#[trigger] e[m]) < i && forall|j: int|
                        e[m] < j < i ==> !below(hi, (#[trigger] points[j]).v)
        }),
{
    let s = falling_state(points, hi, lo, k);
    let e = s.edges;
    law_falling_edges(points, hi, lo, k);
    let mark = |i: int| peaks(points, hi, i);
    assert forall|m: int| 1 <= m < e.len() implies marked(mark, e[m - 1], #[trigger] e[m]) by {
        assert(peaked(points, hi, e[m - 1], e[m]));
        let i = choose|i: int| e[m - 1] < i < e[m] && #[trigger] peaks(points, hi, i);
        assert(mark(i));
    }
    assert forall|m: int, n: int| 0 <= m < n < e.len() implies (#[trigger] e[m]) < (#[trigger] e[n])
        && exists|j: int| e[m] < j < e[n] && below(hi, (#[trigger] points[j]).v) by {
        lemma_apart(e, mark, m, n);
        let j = choose|j: int| e[m] < j < e[n] && #[trigger] mark(j);
        assert(below(hi, points[j].v));
    }
    lemma_falling_complete(points, hi, lo, k);
}

/// No falling edge is missed, and where the trigger is set the signal has not
/// come back since the last one.
proof fn lemma_falling_complete(points: Seq<Point>, hi: Sample, lo: Sample, k: int)
    requires
        0 <= k <= points.len(),
    ensures
        ({
            let s = falling_state(points, hi, lo, k);
            let e = s.edges;
            &&& s.set ==> e.len() > 0 && e.last() < k && forall|j: int|
                e.last() < j < k ==> !below(hi, (#[trigger] points[j]).v)
            &&& forall|i: int|
                1 <= i < k && at_most(lo, points[i - 1].v) && below((#[trigger] points[i]).v, lo)
                    ==> e.contains(i) || exists|m: int|
                    0 <= m < e.len() && (#[trigger] e[m]) < i && forall|j: int|
                        e[m] < j < i ==> !below(hi, (#[trigger] points[j]).v)
        }),
    decreases k,
{
    if k > 1 {
        let s = falling_state(points, hi, lo, k - 1);
        let t = falling_state(points, hi, lo, k);
        lemma_falling_complete(points, hi, lo, k - 1);
        let e = t.edges;
        assert forall|i: int|
            1 <= i < k && at_most(lo, points[i - 1].v) && below((#[trigger] points[i]).v, lo) implies (
        e.contains(i) || exists|m: int|
            0 <= m < e.len() && (#[trigger] e[m]) < i && forall|j: int|
                e[m] < j < i ==> !below(hi, (#[trigger] points[j]).v)) by {
            if i < k - 1 {
                if s.edges.contains(i) {
                    let m = choose|m: int| 0 <= m < s.edges.len() && s.edges[m] == i;
                    assert(e[m] == i);
                } else {
                    let m = choose|m: int|
                        0 <= m < s.edges.len() && (#[trigger] s.edges[m]) < i && forall|j: int|
                            s.edges[m] < j < i ==> !below(hi, (#[trigger] points[j]).v);
                    assert(e[m] == s.edges[m]);
                }
            } else if s.set {
                let m = s.edges.len() - 1;
                assert(e[m] == s.edges[m]);
            } else {
                assert(e[e.len() - 1] == i);
            }
        }
    }
}

/// Edges in both directions, and all of them.  They are in order and take turns,
/// the first one rising: a rising edge is a point above the upper threshold, a
/// falling one a point below the lower threshold.  None is missed: from an edge
/// up to the next one, or to the end, no point lies where the next one is looked
/// for, and neither does any before the first edge, but for the first point of
/// all.
pub proof fn law_both_edges_found(points: Seq<Point>, hi: Sample, lo: Sample, k: int)
    requires
        0 <= k <= points.len(),
    ensures
        ({
            let e = edge_state(points, hi, lo, ClockPolarity::Both, k).edges;
            &&& forall|m: int|
                0 <= m < e.len() ==> 1 <= (#[trigger] e[m]) < k && if m % 2 == 0 {
                    below(hi, points[e[m]].v)
                } else {
                    below(points[e[m]].v, lo)
                }
            &&& forall|m: int|
                1 <= m < e.len() ==> e[m - 1] < (#[trigger] e[m]) && forall|i: int|
                    e[m - 1] < i < e[m] ==> if m % 2 == 1 {
                        !below((#[trigger] points[i]).v, lo)
                    } else {
                        !below(hi, points[i].v)
                    }
            &&& e.len() > 0 ==> forall|i: int|
                e.last() < i < k ==> if e.len() % 2 == 1 {
                    !below((#[trigger] points[i]).v, lo)
                } else {
                    !below(hi, points[i].v)
                }
            &&& e.len() > 0 ==> forall|i: int|
                1 <= i < e[0] ==> !below(hi, (#[trigger] points[i]).v)
            &&& e.len() == 0 ==> forall|i: int|
                1 <= i < k ==> !below(hi, (#[trigger] points[i]).v)
        }),
    decreases k,
{
    law_both_edges_alternate(points, hi, lo, k);
    if k > 1 {
        law_both_edges_found(points, hi, lo, k - 1);
        law_both_edges_alternate(points, hi, lo, k - 1);
        let d = both_state(points, hi, lo, k - 1).edges;
        let e = both_state(points, hi, lo, k).edges;
        assert forall|m: int| 1 <= m < e.len() implies e[m - 1] < (#[trigger] e[m]) && forall|i: int|
            e[m - 1] < i < e[m] ==> if m % 2 == 1 {
                !below((#[trigger] points[i]).v, lo)
            } else {
                !below(hi, points[i].v)
            } by {
            assert(d[m - 1] == e[m - 1]);
            if m < d.len() {
                assert(d[m] == e[m]);
            } else {
                assert(d.last() == d[m - 1]);
            }
        }
        if d.len() > 0 {
            assert(d[0] == e[0]);
        }
    }
}

// ---------------------------------------------------------------------------
// Edges of a clock
// ---------------------------------------------------------------------------

/// Whether a clock crosses its middle level before point `i`.
pub open spec fn crosses(points: Seq<Point>, mid: Sample, polarity: ClockPolarity, i: int) -> bool {
    let (prev, curr) = (points[i - 1].v, points[i].v);
    let up = at_most(prev, mid) && below(mid, curr);
    let down = at_most(mid, prev) && below(curr, mid);
    match polarity {
        ClockPolarity::Rising => up,
        ClockPolarity::Falling => down,
        ClockPolarity::Both => up || down,
    }
}

/// The crossings among the first `k` points.
pub open spec fn crossings_in(
    points: Seq<Point>,
    mid: Sample,
    polarity: ClockPolarity,
    k: int,
) -> Seq<int>
    decreases k,
{
    if k <= 1 {
        Seq::empty()
    } else {
        let earlier = crossings_in(points, mid, polarity, k - 1);
        if crosses(points, mid, polarity, k - 1) {
            earlier.push(k - 1)
        } else {
            earlier
        }
    }
}

/// Finds where a clock crosses its middle level, each crossing given by the
/// index of the point after it.
pub fn find_clock_crossings(points: &[Point], mid: Sample, polarity: ClockPolarity) -> (crossings:
    Vec<usize>)
    ensures
        positions(crossings@) == crossings_in(points@, mid, polarity, points@.len() as int),
{
    let mut crossings: Vec<usize> = Vec::new();
    let mut i: usize = 1;
    assert(positions(crossings@) =~= Seq::<int>::empty());
    while i < points.len()
        invariant
            1 <= i,
            i <= points@.len() || i == 1,
            positions(crossings@) == crossings_in(points@, mid, polarity, i as int),
        decreases points@.len() - i,
    {
        let prev: Sample = points[i - 1].v;
        let curr: Sample = points[i].v;
        let ghost before = crossings@;
        let up: bool = le(prev, mid) && lt(mid, curr);
        let down: bool = le(mid, prev) && lt(curr, mid);
        let hit: bool = match polarity {
            ClockPolarity::Rising => up,
            ClockPolarity::Falling => down,
            ClockPolarity::Both => up || down,
        };
        if hit {
            crossings.push(i);
            assert(positions(crossings@) =~= positions(before).push(i as int));
        }
        i += 1;
    }
    proof {
        if points@.len() <= 1 {
            assert(crossings_in(points@, mid, polarity, points@.len() as int) =~= crossings_in(
                points@,
                mid,
                polarity,
                1,
            ));
        }
    }
    crossings
}

/// Every crossing is found, and nothing else, in order: the clock goes from its
/// middle level or below to above it, or from its middle level or above to below
/// it, according to the polarity.
pub proof fn law_clock_crossings_found(points: Seq<Point>, mid: Sample, k: int, i: int)
    requires
        0 <= k <= points.len(),
    ensures
        ({
            let up = 1 <= i < k && at_most(points[i - 1].v, mid) && below(mid, points[i].v);
            let down = 1 <= i < k && at_most(mid, points[i - 1].v) && below(points[i].v, mid);
            &&& crossings_in(points, mid, ClockPolarity::Rising, k).contains(i) == up
            &&& crossings_in(points, mid, ClockPolarity::Falling, k).contains(i) == down
            &&& crossings_in(points, mid, ClockPolarity::Both, k).contains(i) == (up || down)
        }),
        forall|p: ClockPolarity, a: int, b: int|
            0 <= a < b < crossings_in(points, mid, p, k).len() ==> (#[trigger] crossings_in(
                points,
                mid,
                p,
                k,
            )[a]) < #[trigger] crossings_in(points, mid, p, k)[b],
{
    lemma_crossings(points, mid, ClockPolarity::Rising, k);
    lemma_crossings(points, mid, ClockPolarity::Falling, k);
    lemma_crossings(points, mid, ClockPolarity::Both, k);
}

proof fn lemma_crossings(points: Seq<Point>, mid: Sample, p: ClockPolarity, k: int)
    requires
        0 <= k <= points.len(),
    ensures
        forall|i: int| #[trigger]
            crossings_in(points, mid, p, k).contains(i) <==> 1 <= i < k && crosses(
                points,
                mid,
                p,
                i,
            ),
        forall|a: int, b: int|
            0 <= a < b < crossings_in(points, mid, p, k).len() ==> (#[trigger] crossings_in(
                points,
                mid,
                p,
                k,
            )[a]) < #[trigger] crossings_in(points, mid, p, k)[b],
    decreases k,
{
    if k > 1 {
        lemma_crossings(points, mid, p, k - 1);
        lemma_one_more(
            crossings_in(points, mid, p, k - 1),
            crossings_in(points, mid, p, k),
            k - 1,
            crosses(points, mid, p, k - 1),
        );
    }
}

/// The first point from an index on that is not before an instant; the number
/// of points if there is none.
pub open spec fn first_from(points: Seq<Point>, from: int, t: Sample) -> int
    decreases points.len() - from,
{
    if from >= points.len() || !below(points[from].t, t) {
        from
    } else {
        first_from(points, from + 1, t)
    }
}

/// Finds the first point from an index on that is not before an instant.
pub fn advance_to(points: &[Point], from: usize, t: Sample) -> (i: usize)
    requires
        from <= points@.len(),
    ensures
        i == first_from(points@, from as int, t),
        from <= i <= points@.len(),
{
    let mut i: usize = from;
    while i < points.len() && lt(points[i].t, t)
        invariant
            from <= i <= points@.len(),
            first_from(points@, i as int, t) == first_from(points@, from as int, t),
        decreases points@.len() - i,
    {
        i += 1;
    }
    i
}

/// The point found is the first one that is not before the instant: all points
/// passed over are before it, and the one found, if there is one, is not.
pub proof fn law_first_from(points: Seq<Point>, from: int, t: Sample)
    requires
        0 <= from <= points.len(),
    ensures
        from <= first_from(points, from, t) <= points.len(),
        forall|i: int|
            from <= i < first_from(points, from, t) ==> below((#[trigger] points[i]).t, t),
        first_from(points, from, t) < points.len() ==> !below(
            points[first_from(points, from, t)].t,
            t,
        ),
    decreases points.len() - from,
{
    if from < points.len() && below(points[from].t, t) {
        law_first_from(points, from + 1, t);
    }
}

/// The points of one segment of the diagram: those from the trigger on that are
/// before the segment's end.  They lie side by side.
pub proof fn law_segment_is_a_run(points: Seq<Point>, from: int, t: Sample, i: int)
    requires
        0 <= from <= i < first_from(points, from, t),
    ensures
        i < points.len(),
        below(points[i].t, t),
    decreases points.len() - from,
{
    if from < points.len() && below(points[from].t, t) && from < i {
        law_segment_is_a_run(points, from + 1, t, i);
    }
}

/// The point at which a clock edge is looked for: the first one that is not
/// before it, or the last one.
pub fn edge_candidate(points: &[Point], from: usize, t: Sample) -> (i: usize)
    requires
        from < points@.len(),
    ensures
        ({
            let first = first_from(points@, from as int, t);
            i == if first < points@.len() {
                first
            } else {
                points@.len() - 1
            }
        }),
        from <= i < points@.len(),
{
    let i: usize = advance_to(points, from, t);
    if i < points.len() {
        i
    } else {
        points.len() - 1
    }
}

// ---------------------------------------------------------------------------
// The unit interval
// ---------------------------------------------------------------------------

/// The lower and the upper quartile of sorted samples.
pub fn quartiles(sorted: &[Sample]) -> (q: (Sample, Sample))
    requires
        0 < sorted@.len() <= usize::MAX / 3,
    ensures
        q == (sorted@[sorted@.len() as int / 4], sorted@[3 * sorted@.len() as int / 4]),
{
    let n: usize = sorted.len();
    (sorted[n / 4], sorted[3 * n / 4])
}

/// The durations that are greater than zero, in order.
pub open spec fn positive_of(durations: Seq<Sample>) -> Seq<Sample>
    decreases durations.len(),
{
    if durations.len() == 0 {
        Seq::empty()
    } else if below(ZERO, durations.last()) {
        positive_of(durations.drop_last()).push(durations.last())
    } else {
        positive_of(durations.drop_last())
    }
}

/// The durations kept are those greater than zero, in order.
pub proof fn law_positive_durations(durations: Seq<Sample>)
    ensures
        positive_of(durations) == durations.filter(|d: Sample| below(0u64, d)),
    decreases durations.len(),
{
    reveal(Seq::filter);
    if durations.len() > 0 {
        law_positive_durations(durations.drop_last());
    }
}

/// Keeps the durations that are greater than zero.
pub fn positive_durations(durations: &[Sample]) -> (out: Vec<Sample>)
    ensures
        out@ == positive_of(durations@),
{
    let mut out: Vec<Sample> = Vec::new();
    let mut i: usize = 0;
    while i < durations.len()
        invariant
            i <= durations@.len(),
            out@ == positive_of(durations@.take(i as int)),
        decreases durations@.len() - i,
    {
        assert(durations@.take(i + 1).drop_last() =~= durations@.take(i as int));
        if lt(ZERO, durations[i]) {
            out.push(durations[i]);
        }
        i += 1;
    }
    assert(durations@.take(i as int) =~= durations@);
    out
}

/// The length of the first cluster of sorted periods: `gaps` tells of each
/// period but the first whether it is much longer than the one before it.
pub fn cluster_len(gaps: &[bool]) -> (n: usize)
    ensures
        gaps@.len() == 0 ==> n == 0,
        gaps@.len() > 0 ==> 1 <= n <= gaps@.len(),
        forall|i: int| 1 <= i < n ==> !gaps@[i],
        gaps@.len() > 0 && n < gaps@.len() ==> gaps@[n as int],
{
    if gaps.len() == 0 {
        return 0;
    }
    let mut i: usize = 1;
    while i < gaps.len() && !gaps[i]
        invariant
            1 <= i <= gaps@.len(),
            forall|k: int| 1 <= k < i ==> !gaps@[k],
        decreases gaps@.len() - i,
    {
        i += 1;
    }
    i
}

/// Which of a number of sorted periods are averaged: all but a tenth at either
/// end, from the first index up to, and without, the second one.  `None` where
/// there is no period.
pub fn core_range(count: usize) -> (r: Option<(usize, usize)>)
    ensures
        r == (if count > 0 {
            Some(((count / 10) as usize, (count - count / 10) as usize))
        } else {
            None
        }),
        r matches Some(b) ==> b.0 < b.1 <= count,
{
    if count > 0 {
        Some((count / 10, count - count / 10))
    } else {
        None
    }
}

// ---------------------------------------------------------------------------
// The density grid
// ---------------------------------------------------------------------------

/// The cell of the grid at a column and a row; `None` outside the grid.  The
/// grid is stored column by column.
pub fn cell_index(x: i64, y: i64, grid_x: usize, grid_y: usize) -> (cell: Option<usize>)
    requires
        grid_x * grid_y <= usize::MAX,
    ensures
        match cell {
            Some(c) => 0 <= x < grid_x && 0 <= y < grid_y && c == x * grid_y + y && c < grid_x
                * grid_y,
            None => !(0 <= x < grid_x && 0 <= y < grid_y),
        },
{
    if x < 0 || y < 0 || x as u64 >= grid_x as u64 || y as u64 >= grid_y as u64 {
        return None;
    }
    proof {
        let (gx, gy, a, b) = (grid_x as int, grid_y as int, x as int, y as int);
        assert(a * gy + b < gx * gy && a * gy >= 0) by (nonlinear_arith)
            requires
                0 <= a < gx,
                0 <= b < gy,
        ;
    }
    Some(x as usize * grid_y + y as usize)
}

/// Different cells are stored apart.
pub proof fn law_cells_apart(x: int, y: int, u: int, v: int, grid_y: int)
    requires
        0 <= y < grid_y,
        0 <= v < grid_y,
        x * grid_y + y == u * grid_y + v,
    ensures
        x == u && y == v,
{
    assert(x == u && y == v) by (nonlinear_arith)
        requires
            0 <= y < grid_y,
            0 <= v < grid_y,
            x * grid_y + y == u * grid_y + v,
    ;
}

/// A picture stored row by row from one stored column by column.
pub fn rows_from_columns(cells: &[u32], grid_x: usize, grid_y: usize) -> (pixels: Vec<u32>)
    requires
        cells@.len() == grid_x * grid_y,
    ensures
        pixels@.len() == grid_x * grid_y,
        forall|x: int, y: int|
            0 <= x < grid_x && 0 <= y < grid_y ==> #[trigger] row_major(
                pixels@,
                grid_x as int,
                x,
                y,
            ) == cells@[x * grid_y + y],
{
    assert(cells@.len() == cells.len());
    let mut pixels: Vec<u32> = Vec::new();
    let mut y: usize = 0;
    assert(0 * grid_x == 0);
    while y < grid_y
        invariant
            y <= grid_y,
            cells@.len() == grid_x * grid_y,
            cells@.len() <= usize::MAX,
            pixels@.len() == y * grid_x,
            forall|a: int, b: int|
                0 <= a < grid_x && 0 <= b < y ==> #[trigger] row_major(
                    pixels@,
                    grid_x as int,
                    a,
                    b,
                ) == cells@[a * grid_y + b],
        decreases grid_y - y,
    {
        let ghost before = pixels@;
        let mut x: usize = 0;
        while x < grid_x
            invariant
                x <= grid_x,
                y < grid_y,
                cells@.len() == grid_x * grid_y,
                cells@.len() <= usize::MAX,
                before.len() == y * grid_x,
                pixels@.len() == y * grid_x + x,
                forall|k: int| 0 <= k < before.len() ==> pixels@[k] == before[k],
                forall|a: int|
                    0 <= a < x ==> #[trigger] pixels@[y * grid_x + a] == cells@[a * grid_y + y],
            decreases grid_x - x,
        {
            proof {
                let (gx, gy, a, b) = (grid_x as int, grid_y as int, x as int, y as int);
                assert(0 <= a * gy && a * gy + b < gx * gy) by (nonlinear_arith)
                    requires
                        0 <= a < gx,
                        0 <= b < gy,
                ;
            }
            pixels.push(cells[x * grid_y + y]);
            x += 1;
        }
        assert((y + 1) * grid_x == y * grid_x + grid_x) by (nonlinear_arith);
        assert forall|a: int, b: int| 0 <= a < grid_x && 0 <= b < y + 1 implies #[trigger] row_major(
            pixels@,
            grid_x as int,
            a,
            b,
        ) == cells@[a * grid_y + b] by {
            if b < y {
                assert(row_major(before, grid_x as int, a, b) == cells@[a * grid_y + b]);
                assert(0 <= b * grid_x + a < y * grid_x) by (nonlinear_arith)
                    requires
                        0 <= b < y,
                        0 <= a < grid_x,
                ;
            } else {
                assert(pixels@[y * grid_x + a] == cells@[a * grid_y + y]);
            }
        }
        y += 1;
    }
    assert(grid_y * grid_x == grid_x * grid_y) by (nonlinear_arith);
    pixels
}

/// A pixel of a picture that is stored row by row.
pub open spec fn row_major(pixels: Seq<u32>, width: int, x: int, y: int) -> u32 {
    pixels[y * width + x]
}

/// A picture stored row by row has its rows one after the other.
pub proof fn law_row_major(pixels: Seq<u32>, width: int, x: int, y: int)
    requires
        0 <= x < width,
    ensures
        row_major(pixels, width, x, y) == pixels[width * y + x],
{
    assert(width * y == y * width) by (nonlinear_arith);
}

} // verus!
