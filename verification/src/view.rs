//! The bookkeeping of the view: what is shown, what was shown before, and which
//! points are at hand for it.

use crate::cursor::{CursorMode, CursorState};
use crate::math_channel::{MathChannelDef, MathOp};
use crate::sample::{at_most, eq, greater, le, lesser, max, min, same, Point, Sample};
use crate::sample::{INFINITY, NEG_INFINITY};
use crate::text::{append_decimal, decimal};
use vstd::arithmetic::div_mod::lemma_fundamental_div_mod;
use vstd::prelude::*;
use vstd::string::*;

verus! {

/// The most points shown for a channel.
pub const MAX_DISPLAY_POINTS: usize = 200_000;

/// The points that are decoded at once for all channels together.
pub const DECODE_POINTS: usize = 1_500_000;

/// The fewest points that are decoded for a channel.
pub const MIN_DECODE_POINTS: usize = 20_000;

/// How many views are remembered.
pub const MAX_ZOOM_HISTORY: usize = 50;

/// How many colours channels take turns with.
pub const N_COLORS: usize = 8;

/// The size from which a file is not shown whole at first.
pub const INITIAL_VIEW_BYTES: u64 = 4_294_967_296;

// ---------------------------------------------------------------------------
// Zoom history
// ---------------------------------------------------------------------------

/// A rectangle of the plot.
#[derive(Clone, Copy, Debug, PartialEq, Eq, Structural)]
pub struct Bounds {
    pub x_min: Sample,
    pub y_min: Sample,
    pub x_max: Sample,
    pub y_max: Sample,
}

impl Bounds {
    /// The rectangle that holds nothing.
    pub open spec fn empty() -> Bounds {
        Bounds { x_min: INFINITY, y_min: INFINITY, x_max: NEG_INFINITY, y_max: NEG_INFINITY }
    }

    /// Two rectangles with the same sides.
    pub open spec fn alike(self, other: Bounds) -> bool {
        same(self.x_min, other.x_min) && same(self.y_min, other.y_min) && same(
            self.x_max,
            other.x_max,
        ) && same(self.y_max, other.y_max)
    }

    /// The rectangle that holds nothing.
    pub fn nothing() -> (b: Bounds)
        ensures
            b == Bounds::empty(),
    {
        Bounds { x_min: INFINITY, y_min: INFINITY, x_max: NEG_INFINITY, y_max: NEG_INFINITY }
    }

    /// Whether two rectangles have the same sides.
    pub fn is_like(&self, other: &Bounds) -> (b: bool)
        ensures
            b == self.alike(*other),
    {
        eq(self.x_min, other.x_min) && eq(self.y_min, other.y_min) && eq(self.x_max, other.x_max)
            && eq(self.y_max, other.y_max)
    }
}

/// The views shown before, the latest one last.
#[derive(Debug)]
pub struct ZoomHistory {
    pub views: Vec<Bounds>,
}

/// The views remembered once another one was left.
pub open spec fn remembered(views: Seq<Bounds>, b: Bounds) -> Seq<Bounds> {
    if b.alike(Bounds::empty()) {
        views
    } else if views.len() + 1 > MAX_ZOOM_HISTORY {
        views.push(b).skip(1)
    } else {
        views.push(b)
    }
}

impl ZoomHistory {
    /// No more views are remembered than there may be.
    pub open spec fn wf(&self) -> bool {
        self.views@.len() <= MAX_ZOOM_HISTORY
    }

    /// A history without views.
    pub fn new() -> (h: ZoomHistory)
        ensures
            h.wf(),
            h.views@ == Seq::<Bounds>::empty(),
    {
        ZoomHistory { views: Vec::new() }
    }

    /// Remembers a view that is about to be left.
    pub fn push_zoom_history(&mut self, b: Bounds)
        requires
            old(self).wf(),
        ensures
            final(self).wf(),
            final(self).views@ == remembered(old(self).views@, b),
    {
        if b.is_like(&Bounds::nothing()) {
            return;
        }
        let ghost before = self.views@;
        self.views.push(b);
        if self.views.len() > MAX_ZOOM_HISTORY {
            self.views.remove(0);
            assert(self.views@ =~= before.push(b).skip(1));
        }
    }

    /// The view to go back to, if there is one; it is forgotten then.
    pub fn undo_zoom(&mut self) -> (b: Option<Bounds>)
        requires
            old(self).wf(),
        ensures
            final(self).wf(),
            match b {
                Some(b) => old(self).views@.len() > 0 && b == old(self).views@.last()
                    && final(self).views@ == old(self).views@.drop_last(),
                None => old(self).views@.len() == 0 && final(self).views@ == old(self).views@,
            },
    {
        self.views.pop()
    }
}

/// Undoing goes back to the view that was left last, with the views before it
/// still there but for the oldest one of a full history.
pub proof fn law_undo_restores(views: Seq<Bounds>, b: Bounds)
    requires
        views.len() <= MAX_ZOOM_HISTORY,
        !b.alike(Bounds::empty()),
    ensures
        remembered(views, b).len() > 0,
        remembered(views, b).last() == b,
        remembered(views, b).drop_last() == if views.len() < MAX_ZOOM_HISTORY {
            views
        } else {
            views.skip(1)
        },
{
    assert(views.push(b).drop_last() =~= views);
    if views.len() > 0 {
        assert(views.push(b).skip(1).drop_last() =~= views.skip(1));
    }
}

// ---------------------------------------------------------------------------
// Points at hand
// ---------------------------------------------------------------------------

/// The points of a channel that are at hand, and what they were made for.
#[derive(Debug)]
pub struct StripCache {
    pub points: Vec<Point>,
    pub vis_x_min: Sample,
    pub vis_x_max: Sample,
    pub delay: Sample,
    pub ch_idx: usize,
    /// The points are a rough picture only.
    pub is_coarse: bool,
}

/// What is at hand of a channel.
#[verifier::ext_equal]
pub struct CacheView {
    pub points: Seq<Point>,
    pub vis_x_min: Sample,
    pub vis_x_max: Sample,
    pub delay: Sample,
    pub ch_idx: usize,
    pub is_coarse: bool,
}

impl View for StripCache {
    type V = CacheView;

    open spec fn view(&self) -> CacheView {
        CacheView {
            points: self.points@,
            vis_x_min: self.vis_x_min,
            vis_x_max: self.vis_x_max,
            delay: self.delay,
            ch_idx: self.ch_idx,
            is_coarse: self.is_coarse,
        }
    }
}

impl CacheView {
    /// The points can be shown: they are the channel's, with the same delay,
    /// and cover the range; `sharp` tells whether there are enough of them.
    pub open spec fn valid(
        self,
        x_min: Sample,
        x_max: Sample,
        delay: Sample,
        ch_idx: usize,
        sharp: bool,
    ) -> bool {
        &&& self.ch_idx == ch_idx
        &&& same(self.delay, delay)
        &&& at_most(self.vis_x_min, x_min)
        &&& at_most(x_max, self.vis_x_max)
        &&& sharp
    }
}

impl StripCache {
    /// Whether the points can be shown for a range.
    pub fn is_valid(
        &self,
        x_min: Sample,
        x_max: Sample,
        delay: Sample,
        ch_idx: usize,
        sharp: bool,
    ) -> (b: bool)
        ensures
            b == self@.valid(x_min, x_max, delay, ch_idx, sharp),
    {
        self.ch_idx == ch_idx && eq(self.delay, delay) && le(self.vis_x_min, x_min) && le(
            x_max,
            self.vis_x_max,
        ) && sharp
    }
}

/// What is known of a channel when its points are asked for: its delay, and
/// whether the points at hand are enough for the range.
#[derive(Clone, Copy, Debug, PartialEq, Eq, Structural)]
pub struct ChannelNeed {
    pub delay: Sample,
    pub sharp: bool,
}

/// Whether the points of a channel have to be decoded: it is a channel of the
/// file, and no valid points are at hand.
pub open spec fn stale(
    ch: usize,
    n_real: usize,
    needs: Seq<ChannelNeed>,
    caches: Seq<Option<StripCache>>,
    x_min: Sample,
    x_max: Sample,
) -> bool {
    ch < n_real && ch < needs.len() && ch < caches.len() && match caches[ch as int] {
        Some(c) => !c@.valid(x_min, x_max, needs[ch as int].delay, ch, needs[ch as int].sharp),
        None => true,
    }
}

/// The stale ones of some channels, in order.
pub open spec fn stale_of(
    channels: Seq<usize>,
    n_real: usize,
    needs: Seq<ChannelNeed>,
    caches: Seq<Option<StripCache>>,
    x_min: Sample,
    x_max: Sample,
) -> Seq<usize>
    decreases channels.len(),
{
    if channels.len() == 0 {
        Seq::empty()
    } else {
        let earlier = stale_of(channels.drop_last(), n_real, needs, caches, x_min, x_max);
        if stale(channels.last(), n_real, needs, caches, x_min, x_max) {
            earlier.push(channels.last())
        } else {
            earlier
        }
    }
}

/// Finds the channels whose points have to be decoded.
pub fn stale_channels(
    channels: &[usize],
    n_real: usize,
    needs: &[ChannelNeed],
    caches: &[Option<StripCache>],
    x_min: Sample,
    x_max: Sample,
) -> (out: Vec<usize>)
    ensures
        out@ == stale_of(channels@, n_real, needs@, caches@, x_min, x_max),
{
    let mut out: Vec<usize> = Vec::new();
    let mut i: usize = 0;
    while i < channels.len()
        invariant
            i <= channels@.len(),
            out@ == stale_of(channels@.take(i as int), n_real, needs@, caches@, x_min, x_max),
        decreases channels@.len() - i,
    {
        let ch: usize = channels[i];
        assert(channels@.take(i + 1).drop_last() =~= channels@.take(i as int));
        if ch < n_real && ch < needs.len() && ch < caches.len() {
            let fresh: bool = match &caches[ch] {
                Some(c) => c.is_valid(x_min, x_max, needs[ch].delay, ch, needs[ch].sharp),
                None => false,
            };
            if !fresh {
                out.push(ch);
            }
        }
        i += 1;
    }
    assert(channels@.take(i as int) =~= channels@);
    out
}

/// How many points are decoded for each of a number of channels: a share of a
/// fixed amount, but neither too few nor more than are shown.
pub fn decode_budget(n_channels: usize) -> (points: usize)
    requires
        n_channels > 0,
    ensures
        points == (if DECODE_POINTS / n_channels <= MIN_DECODE_POINTS {
            MIN_DECODE_POINTS as int
        } else if DECODE_POINTS / n_channels >= 2 * MAX_DISPLAY_POINTS {
            2 * MAX_DISPLAY_POINTS
        } else {
            (DECODE_POINTS / n_channels) as int
        }),
        20_000 <= points <= 400_000,
        points == 20_000 || n_channels * points <= 1_500_000,
        points == 400_000 || 1_500_000 < n_channels * (points + 1),
{
    let share: usize = DECODE_POINTS / n_channels;
    proof {
        let (n, d, q) = (1_500_000int, n_channels as int, share as int);
        lemma_fundamental_div_mod(n, d);
        assert(d * q <= n < d * (q + 1)) by (nonlinear_arith)
            requires
                n == d * q + n % d,
                0 <= n % d < d,
        ;
        assert(q <= 20_000 ==> d * (q + 1) <= d * 20_001) by (nonlinear_arith)
            requires
                d > 0,
        ;
        assert(q >= 400_000 ==> d * q >= d * 400_000) by (nonlinear_arith)
            requires
                d > 0,
        ;
    }
    if share <= MIN_DECODE_POINTS {
        MIN_DECODE_POINTS
    } else if share >= 2 * MAX_DISPLAY_POINTS {
        2 * MAX_DISPLAY_POINTS
    } else {
        share
    }
}

/// Points that were decoded for a channel.
#[derive(Debug)]
pub struct DecodedChannel {
    pub ch_idx: usize,
    pub points: Vec<Point>,
    pub delay: Sample,
}

/// What is at hand once the points of a channel were decoded.
pub open spec fn decoded_view(d: DecodedChannel, x_min: Sample, x_max: Sample) -> CacheView {
    CacheView {
        points: d.points@,
        vis_x_min: x_min,
        vis_x_max: x_max,
        delay: d.delay,
        ch_idx: d.ch_idx,
        is_coarse: false,
    }
}

/// Puts the points of a channel in their place.  A channel that is gone by now
/// is passed over.
pub fn install_decoded(
    caches: &mut Vec<Option<StripCache>>,
    decoded: DecodedChannel,
    x_min: Sample,
    x_max: Sample,
)
    ensures
        final(caches)@.len() == old(caches)@.len(),
        forall|c: int|
            0 <= c < old(caches)@.len() && c != decoded.ch_idx ==> (#[trigger] final(caches)@[c])
                == old(caches)@[c],
        decoded.ch_idx < old(caches)@.len() ==> (final(caches)@[decoded.ch_idx as int] matches Some(
            c,
        ) && c@ == decoded_view(decoded, x_min, x_max)),
{
    if decoded.ch_idx >= caches.len() {
        return;
    }
    let ch: usize = decoded.ch_idx;
    let cache: StripCache = StripCache {
        points: decoded.points,
        vis_x_min: x_min,
        vis_x_max: x_max,
        delay: decoded.delay,
        ch_idx: ch,
        is_coarse: false,
    };
    assert(cache@ =~= decoded_view(decoded, x_min, x_max));
    caches.set(ch, Some(cache));
}

/// Points that were just decoded are not stale for the range they were decoded
/// for: nothing is decoded over and over.
pub proof fn law_decoded_is_fresh(d: DecodedChannel, x_min: Sample, x_max: Sample, need: ChannelNeed)
    requires
        same(d.delay, need.delay),
        need.sharp,
        at_most(x_min, x_min),
        at_most(x_max, x_max),
    ensures
        decoded_view(d, x_min, x_max).valid(x_min, x_max, need.delay, d.ch_idx, need.sharp),
{
}

// ---------------------------------------------------------------------------
// Measurements, loading and channels
// ---------------------------------------------------------------------------

/// The range that is measured: the one in view or, where measurements are
/// gated, the part of it between the vertical cursors.
pub fn measurement_range(bounds: &Bounds, gated: bool, cursor: &CursorState) -> (r: (Sample, Sample))
    ensures
        r == (if gated && cursor.mode == CursorMode::Vertical {
            (
                greater(lesser(cursor.pos_a, cursor.pos_b), bounds.x_min),
                lesser(greater(cursor.pos_a, cursor.pos_b), bounds.x_max),
            )
        } else {
            (bounds.x_min, bounds.x_max)
        }),
{
    if gated && cursor.mode == CursorMode::Vertical {
        let a: Sample = min(cursor.pos_a, cursor.pos_b);
        let b: Sample = max(cursor.pos_a, cursor.pos_b);
        (max(a, bounds.x_min), min(b, bounds.x_max))
    } else {
        (bounds.x_min, bounds.x_max)
    }
}

/// How much of a file is read, in per cent.
pub fn load_percent(bytes: u64, total: u64) -> (percent: u64)
    ensures
        percent == (if total == 0 {
            0
        } else if bytes * 100 / total as int > 100 {
            100
        } else {
            bytes * 100 / total as int
        }),
{
    if total == 0 {
        return 0;
    }
    let percent: u128 = bytes as u128 * 100 / total as u128;
    if percent > 100 {
        100
    } else {
        percent as u64
    }
}

/// The size of a file that is too large to be shown whole at first.
pub fn oversized(total: Option<u64>) -> (r: Option<u64>)
    ensures
        match r {
            Some(n) => total == Some(n) && n > INITIAL_VIEW_BYTES,
            None => total matches Some(n) ==> n <= INITIAL_VIEW_BYTES,
        },
        r is Some <==> (total matches Some(n) && n > 0x1_0000_0000),
{
    match total {
        Some(n) => if n > INITIAL_VIEW_BYTES {
            Some(n)
        } else {
            None
        },
        None => None,
    }
}

/// What is drawn in place of the plots, if anything.
#[derive(Clone, Copy, Debug, PartialEq, Eq, Structural)]
pub enum ViewPhase {
    /// A file is being read.
    Loading,
    /// The first points are being decoded.
    Decoding,
    /// The plots are drawn.
    Ready,
}

/// Decides what is drawn.
pub fn view_phase(loading: bool, has_data: bool, decoding: bool, any_points: bool) -> (phase: ViewPhase)
    ensures
        phase == (if loading {
            ViewPhase::Loading
        } else if has_data && decoding && !any_points {
            ViewPhase::Decoding
        } else {
            ViewPhase::Ready
        }),
{
    if loading {
        ViewPhase::Loading
    } else if has_data && decoding && !any_points {
        ViewPhase::Decoding
    } else {
        ViewPhase::Ready
    }
}

/// The name of a new channel.
pub fn channel_label(i: usize) -> (name: String)
    requires
        i < usize::MAX,
    ensures
        name@ == "CH"@ + decimal((i + 1) as nat),
{
    let mut name: String = String::from_str("CH");
    append_decimal(&mut name, (i + 1) as u64);
    name
}

/// The colour of a new channel.
pub fn color_index(i: usize) -> (c: usize)
    ensures
        c == i % N_COLORS,
        c < N_COLORS,
        c == i % 8,
{
    i % N_COLORS
}

/// The computed channel that was chosen in the dialog.
pub fn chosen_channel(operation: MathOp, source_a: usize, source_b: usize) -> (def: MathChannelDef)
    ensures
        def.operation == operation,
        def.source_a == source_a,
        def.source_b == (if operation == MathOp::Add || operation == MathOp::Subtract || operation
            == MathOp::Multiply {
            Some(source_b)
        } else {
            None
        }),
{
    MathChannelDef {
        operation,
        source_a,
        source_b: if operation.needs_source_b() {
            Some(source_b)
        } else {
            None
        },
    }
}

/// A view is remembered unless it holds nothing, that is unless it begins at
/// infinity and ends at negative infinity; the others stay in their order, and
/// the oldest one goes once there are more than fifty.
pub proof fn law_views_remembered(views: Seq<Bounds>, b: Bounds)
    requires
        views.len() <= 50,
    ensures
        ({
            let (inf, neg) = (0x7ff0_0000_0000_0000u64, 0xfff0_0000_0000_0000u64);
            let nothing = b.x_min == inf && b.y_min == inf && b.x_max == neg && b.y_max == neg;
            let kept = remembered(views, b);
            &&& nothing ==> kept == views
            &&& !nothing && views.len() < 50 ==> kept == views.push(b)
            &&& !nothing && views.len() == 50 ==> kept.len() == 50 && kept == views.push(b).skip(1)
        }),
{
}

/// Points at hand are shown for what they were made for and for nothing else:
/// the same channel with the same delay, for a range inside theirs, and only if
/// there are enough of them.
pub proof fn law_valid_points(
    c: CacheView,
    x_min: Sample,
    x_max: Sample,
    delay: Sample,
    ch_idx: usize,
    sharp: bool,
)
    ensures
        c.valid(x_min, x_max, delay, ch_idx, sharp) <==> sharp && c.ch_idx == ch_idx && same(
            c.delay,
            delay,
        ) && at_most(c.vis_x_min, x_min) && at_most(x_max, c.vis_x_max),
{
}

/// The stale channels are those asked for, in their order, that exist in the file
/// and have no valid points at hand.
pub proof fn law_stale_channels(
    channels: Seq<usize>,
    n_real: usize,
    needs: Seq<ChannelNeed>,
    caches: Seq<Option<StripCache>>,
    x_min: Sample,
    x_max: Sample,
)
    ensures
        stale_of(channels, n_real, needs, caches, x_min, x_max) == channels.filter(
            |ch: usize|
                ch < n_real && ch < needs.len() && ch < caches.len() && !(caches[ch as int] matches Some(c) && c@.valid(
                    x_min,
                    x_max,
                    needs[ch as int].delay,
                    ch,
                    needs[ch as int].sharp,
                )),
        ),
    decreases channels.len(),
{
    reveal(Seq::filter);
    if channels.len() > 0 {
        law_stale_channels(channels.drop_last(), n_real, needs, caches, x_min, x_max);
    }
}

/// Rectangles are alike if and only if all their sides are the same.
pub proof fn law_alike(a: Bounds, b: Bounds)
    ensures
        a.alike(b) <==> same(a.x_min, b.x_min) && same(a.x_max, b.x_max) && same(a.y_min, b.y_min)
            && same(a.y_max, b.y_max),
        Bounds::empty().alike(Bounds::empty()),
{
}

/// Points that were decoded are at hand as they are, for the range and the channel
/// that they were decoded for, and are no rough picture.
pub proof fn law_decoded_view(d: DecodedChannel, x_min: Sample, x_max: Sample)
    ensures
        ({
            let v = decoded_view(d, x_min, x_max);
            &&& v.points == d.points@
            &&& v.vis_x_min == x_min && v.vis_x_max == x_max
            &&& v.delay == d.delay && v.ch_idx == d.ch_idx
            &&& !v.is_coarse
        }),
{
}

/// What is at hand of a channel is all that its cache holds.
pub proof fn law_cache_view(c: StripCache)
    ensures
        c@.points == c.points@,
        c@.vis_x_min == c.vis_x_min && c@.vis_x_max == c.vis_x_max,
        c@.delay == c.delay && c@.ch_idx == c.ch_idx && c@.is_coarse == c.is_coarse,
{
}

} // verus!
