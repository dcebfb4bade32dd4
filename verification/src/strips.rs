//! The strips of the view: which channels are drawn in which strip.

use crate::sample::{Sample, ZERO};
use vstd::prelude::*;

verus! {

/// How the range of values of a strip is chosen.
#[derive(Clone, Copy, Debug, PartialEq, Eq, Structural)]
pub enum YAxisMode {
    /// All strips share one range.
    Linked,
    /// The strip adjusts its own range.
    Auto,
    /// The range is set by hand.
    Manual,
}

/// A height in pixels: the bit pattern of a single-precision number.
pub type Height = u32;

/// The height of a new strip, 150 pixels.
pub const STRIP_HEIGHT: Height = 0x4316_0000;

/// The sample 1.
pub const ONE: Sample = 0x3ff0_0000_0000_0000;

/// The sample -1.
pub const MINUS_ONE: Sample = 0xbff0_0000_0000_0000;

/// One strip.
#[derive(Debug)]
pub struct Strip {
    pub channel_indices: Vec<usize>,
    pub height: Height,
    pub y_mode: YAxisMode,
    pub y_min: Sample,
    pub y_max: Sample,
    /// Shift of the waveform where the range is shared.
    pub y_offset: Sample,
}

/// What a strip holds.
#[verifier::ext_equal]
pub struct StripView {
    pub channels: Seq<usize>,
    pub height: Height,
    pub y_mode: YAxisMode,
    pub y_min: Sample,
    pub y_max: Sample,
    pub y_offset: Sample,
}

impl View for Strip {
    type V = StripView;

    open spec fn view(&self) -> StripView {
        StripView {
            channels: self.channel_indices@,
            height: self.height,
            y_mode: self.y_mode,
            y_min: self.y_min,
            y_max: self.y_max,
            y_offset: self.y_offset,
        }
    }
}

/// What a sequence of strips holds.
pub open spec fn strip_views(strips: Seq<Strip>) -> Seq<StripView> {
    Seq::new(strips.len(), |i: int| strips[i]@)
}

// ---------------------------------------------------------------------------
// The model
// ---------------------------------------------------------------------------

/// A new strip with one channel.
pub open spec fn fresh(ch: usize, height: Height) -> StripView {
    StripView {
        channels: seq![ch],
        height,
        y_mode: YAxisMode::Linked,
        y_min: MINUS_ONE,
        y_max: ONE,
        y_offset: ZERO,
    }
}

/// Channels without one of them.
pub open spec fn lacking(channels: Seq<usize>, ch: usize) -> Seq<usize>
    decreases channels.len(),
{
    if channels.len() == 0 {
        Seq::empty()
    } else if channels.last() == ch {
        lacking(channels.drop_last(), ch)
    } else {
        lacking(channels.drop_last(), ch).push(channels.last())
    }
}

/// A strip with other channels.
pub open spec fn holding(s: StripView, channels: Seq<usize>) -> StripView {
    StripView { channels, ..s }
}

/// Strips from which a channel was taken, but for strip `keep`.
pub open spec fn cleared_but(strips: Seq<StripView>, ch: usize, keep: int) -> Seq<StripView> {
    Seq::new(
        strips.len(),
        |i: int|
            if i == keep {
                strips[i]
            } else {
                holding(strips[i], lacking(strips[i].channels, ch))
            },
    )
}

/// The strips that hold a channel at all.
pub open spec fn occupied(strips: Seq<StripView>) -> Seq<StripView>
    decreases strips.len(),
{
    if strips.len() == 0 {
        Seq::empty()
    } else if strips.last().channels.len() == 0 {
        occupied(strips.drop_last())
    } else {
        occupied(strips.drop_last()).push(strips.last())
    }
}

/// How often a channel is listed.
pub open spec fn listed(channels: Seq<usize>, ch: usize) -> nat
    decreases channels.len(),
{
    if channels.len() == 0 {
        0
    } else {
        listed(channels.drop_last(), ch) + if channels.last() == ch {
            1nat
        } else {
            0nat
        }
    }
}

/// How often a channel is drawn.
pub open spec fn placed(strips: Seq<StripView>, ch: usize) -> nat
    decreases strips.len(),
{
    if strips.len() == 0 {
        0
    } else {
        placed(strips.drop_last(), ch) + listed(strips.last().channels, ch)
    }
}

/// Strips with a channel taken from where it was and added to one of them.
pub open spec fn merged_into(strips: Seq<StripView>, ch: usize, target: int) -> Seq<StripView> {
    let rest = cleared_but(strips, ch, -1);
    rest.update(target, holding(rest[target], rest[target].channels.push(ch)))
}

/// The strips after a channel was moved to a strip: it is merged with the strip,
/// and strips that are left without channels are gone.  Past the last strip it
/// is merged with the last one that is left, or gets one of its own.
pub open spec fn moved(strips: Seq<StripView>, ch: usize, target: usize) -> Seq<StripView> {
    let rest = occupied(cleared_but(strips, ch, -1));
    if target < strips.len() {
        occupied(merged_into(strips, ch, target as int))
    } else if rest.len() > 0 {
        rest.drop_last().push(holding(rest.last(), rest.last().channels.push(ch)))
    } else {
        seq![fresh(ch, STRIP_HEIGHT)]
    }
}

/// Where a channel ends up that is moved to a strip, once empty strips are
/// gone.
pub open spec fn landing(strips: Seq<StripView>, ch: usize, target: usize) -> int {
    let rest = cleared_but(strips, ch, -1);
    if target < strips.len() {
        occupied(rest.take(target as int)).len() as int
    } else if occupied(rest).len() > 0 {
        occupied(rest).len() - 1
    } else {
        0
    }
}

/// New strips for some channels, one for each.
pub open spec fn fresh_strips(channels: Seq<usize>, height: Height) -> Seq<StripView> {
    Seq::new(channels.len(), |i: int| fresh(channels[i], height))
}

/// The strips after a strip was split into one for each of its channels.
pub open spec fn split(strips: Seq<StripView>, s_idx: int) -> Seq<StripView> {
    let chs = strips[s_idx].channels;
    if s_idx >= strips.len() || chs.len() <= 1 {
        strips
    } else {
        strips.take(s_idx).push(holding(strips[s_idx], seq![chs[0]])) + fresh_strips(
            chs.skip(1),
            strips[s_idx].height,
        ) + strips.skip(s_idx + 1)
    }
}

/// The strips after a channel was laid over those of a strip.
pub open spec fn overlaid(strips: Seq<StripView>, s_idx: int, ch: usize) -> Seq<StripView> {
    if strips[s_idx].channels.contains(ch) {
        strips
    } else {
        occupied(
            cleared_but(
                strips.update(
                    s_idx,
                    holding(strips[s_idx], strips[s_idx].channels.push(ch)),
                ),
                ch,
                s_idx,
            ),
        )
    }
}

/// The strips after a channel was taken out of a strip.  A channel that no
/// other strip holds gets a strip of its own below.
pub open spec fn taken_out(strips: Seq<StripView>, s_idx: int, ch: usize) -> Seq<StripView> {
    let rest = strips.update(
        s_idx,
        holding(strips[s_idx], lacking(strips[s_idx].channels, ch)),
    );
    if placed(rest, ch) > 0 {
        occupied(rest)
    } else {
        occupied(rest.insert(s_idx + 1, fresh(ch, strips[s_idx].height)))
    }
}

/// A channel's number once another channel is gone.
pub open spec fn renumbered(ch: usize, gone: usize) -> usize {
    if ch > gone {
        (ch - 1) as usize
    } else {
        ch
    }
}

/// Channels renumbered once a channel is gone.
pub open spec fn all_renumbered(channels: Seq<usize>, gone: usize) -> Seq<usize> {
    Seq::new(channels.len(), |i: int| renumbered(channels[i], gone))
}

/// The strips after a channel was removed for good.
pub open spec fn without_channel(strips: Seq<StripView>, gone: usize) -> Seq<StripView> {
    let rest = occupied(cleared_but(strips, gone, -1));
    Seq::new(
        rest.len(),
        |i: int| holding(rest[i], all_renumbered(rest[i].channels, gone)),
    )
}

// ---------------------------------------------------------------------------
// Operations
// ---------------------------------------------------------------------------

/// Takes a channel out of a list of channels.
fn drop_channel(channels: &Vec<usize>, ch: usize) -> (out: Vec<usize>)
    ensures
        out@ == lacking(channels@, ch),
{
    let mut out: Vec<usize> = Vec::new();
    let mut i: usize = 0;
    while i < channels.len()
        invariant
            i <= channels@.len(),
            out@ == lacking(channels@.take(i as int), ch),
        decreases channels@.len() - i,
    {
        assert(channels@.take(i + 1).drop_last() =~= channels@.take(i as int));
        if channels[i] != ch {
            out.push(channels[i]);
        }
        i += 1;
    }
    assert(channels@.take(i as int) =~= channels@);
    out
}

/// Whether a list of channels holds one.
fn holds_channel(channels: &Vec<usize>, ch: usize) -> (b: bool)
    ensures
        b == channels@.contains(ch),
{
    let mut i: usize = 0;
    while i < channels.len()
        invariant
            i <= channels@.len(),
            forall|k: int| 0 <= k < i ==> channels@[k] != ch,
        decreases channels@.len() - i,
    {
        if channels[i] == ch {
            assert(channels@[i as int] == ch);
            return true;
        }
        i += 1;
    }
    false
}

/// Takes a channel out of all strips but one.
fn clear_channel(strips: &mut Vec<Strip>, ch: usize, keep: Option<usize>)
    ensures
        strip_views(final(strips)@) == cleared_but(
            strip_views(old(strips)@),
            ch,
            match keep {
                Some(k) => k as int,
                None => -1,
            },
        ),
{
    let ghost before = strips@;
    let ghost k: int = match keep {
        Some(k) => k as int,
        None => -1,
    };
    let n: usize = strips.len();
    let mut i: usize = 0;
    while i < n
        invariant
            i <= n,
            n == before.len(),
            strips@.len() == n,
            k == (match keep {
                Some(k) => k as int,
                None => -1,
            }),
            forall|j: int| i <= j < n ==> (#[trigger] strips@[j]) == before[j],
            forall|j: int|
                0 <= j < i ==> (#[trigger] strips@[j])@ == cleared_but(
                    strip_views(before),
                    ch,
                    k,
                )[j],
        decreases n - i,
    {
        let kept: bool = match keep {
            Some(k) => i == k,
            None => false,
        };
        let ghost old_strip = strips@[i as int];
        if !kept {
            let rest: Vec<usize> = drop_channel(&strips[i].channel_indices, ch);
            strips[i].channel_indices = rest;
        }
        assert(strips@[i as int]@ =~= cleared_but(strip_views(before), ch, k)[i as int]);
        i += 1;
    }
    assert(strip_views(strips@) =~= cleared_but(strip_views(before), ch, k));
}

/// Drops the strips that hold no channel.
fn drop_empty(strips: &mut Vec<Strip>)
    ensures
        strip_views(final(strips)@) == occupied(strip_views(old(strips)@)),
{
    let ghost before = strips@;
    let ghost views = strip_views(before);
    let mut all: Vec<Strip> = Vec::new();
    std::mem::swap(&mut all, strips);
    let mut i: usize = 0;
    let n: usize = all.len();
    assert(views.skip(0) =~= views);
    assert(strip_views(strips@) =~= Seq::empty());
    assert(strip_views(strips@) =~= occupied(views.take(0)));
    while i < n
        invariant
            i <= n,
            n == before.len(),
            all@ == before.skip(i as int),
            views == strip_views(before),
            strip_views(strips@) == occupied(views.take(i as int)),
        decreases n - i,
    {
        let ghost kept = strips@;
        let strip: Strip = all.remove(0);
        assert(all@ =~= before.skip(i + 1));
        assert(strip == before[i as int]);
        assert(views.take(i + 1).drop_last() =~= views.take(i as int));
        assert(views.take(i + 1).last() == strip@);
        if strip.channel_indices.len() > 0 {
            strips.push(strip);
            assert(strip_views(strips@) =~= strip_views(kept).push(strip@));
        }
        i += 1;
    }
    assert(views.take(i as int) =~= views);
}

fn fresh_strip(ch: usize, height: Height) -> (s: Strip)
    ensures
        s@ == fresh(ch, height),
{
    let mut channel_indices: Vec<usize> = Vec::new();
    channel_indices.push(ch);
    let s: Strip = Strip {
        channel_indices,
        height,
        y_mode: YAxisMode::Linked,
        y_min: MINUS_ONE,
        y_max: ONE,
        y_offset: ZERO,
    };
    assert(s@ =~= fresh(ch, height));
    s
}

/// One strip for each of a number of channels.
pub fn initial_strips(n: usize) -> (strips: Vec<Strip>)
    ensures
        strip_views(strips@) == Seq::new(n as nat, |i: int| fresh(i as usize, STRIP_HEIGHT)),
{
    let mut strips: Vec<Strip> = Vec::new();
    let mut i: usize = 0;
    while i < n
        invariant
            i <= n,
            strip_views(strips@) == Seq::new(i as nat, |k: int| fresh(k as usize, STRIP_HEIGHT)),
        decreases n - i,
    {
        let ghost before = strips@;
        strips.push(fresh_strip(i, STRIP_HEIGHT));
        assert(strip_views(strips@) =~= strip_views(before).push(fresh(i, STRIP_HEIGHT)));
        i += 1;
        assert(strip_views(strips@) =~= Seq::new(
            i as nat,
            |k: int| fresh(k as usize, STRIP_HEIGHT),
        ));
    }
    strips
}

/// Adds a strip for a new channel at the end.
pub fn add_strip(strips: &mut Vec<Strip>, ch: usize)
    ensures
        strip_views(final(strips)@) == strip_views(old(strips)@).push(fresh(ch, STRIP_HEIGHT)),
{
    let ghost before = strips@;
    strips.push(fresh_strip(ch, STRIP_HEIGHT));
    assert(strip_views(strips@) =~= strip_views(before).push(fresh(ch, STRIP_HEIGHT)));
}

/// Counts the strips before one that hold a channel.
fn count_occupied(strips: &Vec<Strip>, end: usize) -> (n: usize)
    requires
        end <= strips@.len(),
    ensures
        n == occupied(strip_views(strips@).take(end as int)).len(),
        n <= end,
{
    let ghost views = strip_views(strips@);
    let mut n: usize = 0;
    let mut i: usize = 0;
    while i < end
        invariant
            i <= end <= strips@.len(),
            views == strip_views(strips@),
            n == occupied(views.take(i as int)).len(),
            n <= i,
        decreases end - i,
    {
        assert(views.take(i + 1).drop_last() =~= views.take(i as int));
        assert(views[i as int] == strips@[i as int]@);
        if strips[i].channel_indices.len() > 0 {
            n += 1;
        }
        i += 1;
    }
    n
}

/// Adds a channel to a strip.
fn put_channel(strips: &mut Vec<Strip>, target: usize, ch: usize)
    requires
        target < old(strips)@.len(),
    ensures
        ({
            let before = strip_views(old(strips)@);
            let t = target as int;
            strip_views(final(strips)@) == before.update(
                t,
                holding(before[t], before[t].channels.push(ch)),
            )
        }),
{
    let ghost rest = strips@;
    strips[target].channel_indices.push(ch);
    assert(strips@[target as int]@ =~= holding(
        rest[target as int]@,
        rest[target as int]@.channels.push(ch),
    ));
    assert(strip_views(strips@) =~= strip_views(rest).update(
        target as int,
        holding(rest[target as int]@, rest[target as int]@.channels.push(ch)),
    ));
}

/// Moves a channel to a strip and tells which strip holds it then.
pub fn move_channel_to_strip(strips: &mut Vec<Strip>, ch_idx: usize, target_strip: usize) -> (target:
    usize)
    ensures
        strip_views(final(strips)@) == moved(strip_views(old(strips)@), ch_idx, target_strip),
        target == landing(strip_views(old(strips)@), ch_idx, target_strip),
{
    let ghost before = strip_views(strips@);
    clear_channel(strips, ch_idx, None);
    assert(strip_views(strips@).len() == strips@.len());
    if target_strip < strips.len() {
        let target: usize = count_occupied(strips, target_strip);
        put_channel(strips, target_strip, ch_idx);
        drop_empty(strips);
        return target;
    }
    drop_empty(strips);
    let ghost rest = strip_views(strips@);
    assert(rest.len() == strips@.len());
    let n: usize = strips.len();
    if n > 0 {
        put_channel(strips, n - 1, ch_idx);
        assert(strip_views(strips@) =~= rest.drop_last().push(
            holding(rest.last(), rest.last().channels.push(ch_idx)),
        ));
        n - 1
    } else {
        strips.push(fresh_strip(ch_idx, STRIP_HEIGHT));
        assert(strip_views(strips@) =~= seq![fresh(ch_idx, STRIP_HEIGHT)]);
        0
    }
}

/// Splits a strip into one for each of its channels; tells whether there was
/// anything to split.
pub fn split_strip(strips: &mut Vec<Strip>, s_idx: usize) -> (done: bool)
    ensures
        strip_views(final(strips)@) == split(strip_views(old(strips)@), s_idx as int),
        done == (s_idx < old(strips)@.len() && old(strips)@[s_idx as int].channel_indices@.len() > 1),
{
    let ghost before = strips@;
    let ghost views = strip_views(before);
    if s_idx >= strips.len() {
        return false;
    }
    assert(views[s_idx as int] == before[s_idx as int]@);
    if strips[s_idx].channel_indices.len() <= 1 {
        return false;
    }
    let height: Height = strips[s_idx].height;
    let mut chs: Vec<usize> = Vec::new();
    let mut first: Vec<usize> = Vec::new();
    first.push(strips[s_idx].channel_indices[0]);
    std::mem::swap(&mut chs, &mut strips[s_idx].channel_indices);
    strips[s_idx].channel_indices = first;
    let ghost channels = views[s_idx as int].channels;
    assert(chs@ == channels);
    let n: usize = strips.len();
    let ghost head = views.take(s_idx as int).push(
        holding(views[s_idx as int], seq![channels[0]]),
    );
    let ghost tail = views.skip(s_idx + 1);
    assert(strips@[s_idx as int]@ =~= holding(views[s_idx as int], seq![channels[0]]));
    assert(strip_views(strips@) =~= head + fresh_strips(channels.subrange(1, 1), height) + tail);
    let mut k: usize = 1;
    while k < chs.len()
        invariant
            1 <= k <= chs@.len(),
            chs@ == channels,
            head.len() == s_idx + 1,
            s_idx < n,
            strips@.len() == n + k - 1,
            strip_views(strips@) == head + fresh_strips(channels.subrange(1, k as int), height)
                + tail,
        decreases chs@.len() - k,
    {
        let ghost now = strips@;
        assert(strips@.len() == strips.len());
        let strip: Strip = fresh_strip(chs[k], height);
        strips.insert(s_idx + k, strip);
        assert(strip_views(strips@) =~= strip_views(now).insert(
            s_idx + k,
            fresh(channels[k as int], height),
        ));
        assert(fresh_strips(channels.subrange(1, k + 1), height) =~= fresh_strips(
            channels.subrange(1, k as int),
            height,
        ).push(fresh(channels[k as int], height)));
        assert(strip_views(strips@) =~= head + fresh_strips(channels.subrange(1, k + 1), height)
            + tail);
        k += 1;
    }
    assert(channels.subrange(1, k as int) =~= channels.skip(1));
    true
}

/// Lays a channel over those of a strip.
pub fn add_overlay(strips: &mut Vec<Strip>, s_idx: usize, ch_idx: usize)
    requires
        s_idx < old(strips)@.len(),
    ensures
        strip_views(final(strips)@) == overlaid(strip_views(old(strips)@), s_idx as int, ch_idx),
{
    let ghost before = strips@;
    let ghost views = strip_views(before);
    assert(views[s_idx as int] == before[s_idx as int]@);
    if holds_channel(&strips[s_idx].channel_indices, ch_idx) {
        return;
    }
    strips[s_idx].channel_indices.push(ch_idx);
    assert(strips@[s_idx as int]@ =~= holding(
        views[s_idx as int],
        views[s_idx as int].channels.push(ch_idx),
    ));
    assert(strip_views(strips@) =~= views.update(
        s_idx as int,
        holding(views[s_idx as int], views[s_idx as int].channels.push(ch_idx)),
    ));
    clear_channel(strips, ch_idx, Some(s_idx));
    drop_empty(strips);
}

/// Whether any strip holds a channel.
fn is_placed(strips: &Vec<Strip>, ch: usize) -> (b: bool)
    ensures
        b == (placed(strip_views(strips@), ch) > 0),
{
    let ghost views = strip_views(strips@);
    let mut i: usize = 0;
    assert(views.take(0) =~= Seq::<StripView>::empty());
    while i < strips.len()
        invariant
            i <= strips@.len(),
            views == strip_views(strips@),
            placed(views.take(i as int), ch) == 0,
        decreases strips@.len() - i,
    {
        proof {
            lemma_listed(strips@[i as int].channel_indices@, ch);
            assert(views.take(i + 1).drop_last() =~= views.take(i as int));
            assert(views.take(i + 1).last() == strips@[i as int]@);
        }
        if holds_channel(&strips[i].channel_indices, ch) {
            proof {
                lemma_placed_grows(views, i + 1, ch);
            }
            return true;
        }
        i += 1;
    }
    assert(views.take(i as int) =~= views);
    false
}

/// Takes a channel out of a strip.
pub fn remove_from_strip(strips: &mut Vec<Strip>, s_idx: usize, ch_idx: usize)
    requires
        s_idx < old(strips)@.len(),
    ensures
        strip_views(final(strips)@) == taken_out(strip_views(old(strips)@), s_idx as int, ch_idx),
{
    let ghost before = strips@;
    let ghost views = strip_views(before);
    assert(views[s_idx as int] == before[s_idx as int]@);
    let height: Height = strips[s_idx].height;
    let rest: Vec<usize> = drop_channel(&strips[s_idx].channel_indices, ch_idx);
    strips[s_idx].channel_indices = rest;
    assert(strips@[s_idx as int]@ =~= holding(
        views[s_idx as int],
        lacking(views[s_idx as int].channels, ch_idx),
    ));
    assert(strip_views(strips@) =~= views.update(
        s_idx as int,
        holding(views[s_idx as int], lacking(views[s_idx as int].channels, ch_idx)),
    ));
    if !is_placed(strips, ch_idx) {
        let ghost now = strips@;
        assert(strips@.len() == strips.len());
        let strip: Strip = fresh_strip(ch_idx, height);
        strips.insert(s_idx + 1, strip);
        assert(strip_views(strips@) =~= strip_views(now).insert(s_idx + 1, fresh(ch_idx, height)));
    }
    drop_empty(strips);
}

/// Removes a channel for good: it leaves the strips, and the channels after it
/// move down by one.
pub fn remove_channel(strips: &mut Vec<Strip>, ch_idx: usize)
    ensures
        strip_views(final(strips)@) == without_channel(strip_views(old(strips)@), ch_idx),
{
    clear_channel(strips, ch_idx, None);
    drop_empty(strips);
    let ghost rest = strips@;
    let n: usize = strips.len();
    let mut i: usize = 0;
    while i < n
        invariant
            i <= n,
            n == rest.len(),
            strips@.len() == n,
            forall|j: int| i <= j < n ==> (#[trigger] strips@[j]) == rest[j],
            forall|j: int|
                0 <= j < i ==> (#[trigger] strips@[j])@ == holding(
                    rest[j]@,
                    all_renumbered(rest[j]@.channels, ch_idx),
                ),
        decreases n - i,
    {
        let m: usize = strips[i].channel_indices.len();
        let mut channels: Vec<usize> = Vec::new();
        let mut c: usize = 0;
        while c < m
            invariant
                c <= m,
                i < n,
                n == rest.len(),
                strips@.len() == n,
                strips@[i as int] == rest[i as int],
                m == rest[i as int].channel_indices@.len(),
                channels@ == Seq::new(
                    c as nat,
                    |k: int| renumbered(rest[i as int].channel_indices@[k], ch_idx),
                ),
            decreases m - c,
        {
            let ch: usize = strips[i].channel_indices[c];
            channels.push(
                if ch > ch_idx {
                    ch - 1
                } else {
                    ch
                },
            );
            c += 1;
            assert(channels@ =~= Seq::new(
                c as nat,
                |k: int| renumbered(rest[i as int].channel_indices@[k], ch_idx),
            ));
        }
        assert(channels@ =~= all_renumbered(rest[i as int]@.channels, ch_idx));
        strips[i].channel_indices = channels;
        assert(strips@[i as int]@ =~= holding(
            rest[i as int]@,
            all_renumbered(rest[i as int]@.channels, ch_idx),
        ));
        i += 1;
    }
    assert(strip_views(strips@) =~= without_channel(strip_views(old(strips)@), ch_idx));
}

// ---------------------------------------------------------------------------
// What the operations keep
// ---------------------------------------------------------------------------

proof fn lemma_listed(channels: Seq<usize>, ch: usize)
    ensures
        listed(channels, ch) > 0 <==> channels.contains(ch),
    decreases channels.len(),
{
    if channels.len() > 0 {
        let p = channels.drop_last();
        lemma_listed(p, ch);
        let n = channels.len() - 1;
        assert(channels[n] == channels.last());
        if p.contains(ch) {
            let i = choose|i: int| 0 <= i < p.len() && p[i] == ch;
            assert(channels[i] == ch);
        }
        if channels.contains(ch) && channels.last() != ch {
            let i = choose|i: int| 0 <= i < channels.len() && channels[i] == ch;
            assert(p[i] == ch);
        }
    }
}

proof fn lemma_placed_grows(strips: Seq<StripView>, k: int, ch: usize)
    requires
        0 <= k <= strips.len(),
    ensures
        placed(strips.take(k), ch) <= placed(strips, ch),
    decreases strips.len(),
{
    if k == strips.len() {
        assert(strips.take(k) =~= strips);
    } else {
        lemma_placed_grows(strips.drop_last(), k, ch);
        assert(strips.drop_last().take(k) =~= strips.take(k));
    }
}

proof fn lemma_placed_join(a: Seq<StripView>, b: Seq<StripView>, ch: usize)
    ensures
        placed(a + b, ch) == placed(a, ch) + placed(b, ch),
    decreases b.len(),
{
    if b.len() == 0 {
        assert(a + b =~= a);
    } else {
        lemma_placed_join(a, b.drop_last(), ch);
        assert((a + b).drop_last() =~= a + b.drop_last());
        assert((a + b).last() == b.last());
    }
}

proof fn lemma_placed_update(strips: Seq<StripView>, i: int, s: StripView, ch: usize)
    requires
        0 <= i < strips.len(),
    ensures
        placed(strips.update(i, s), ch) + listed(strips[i].channels, ch) == placed(strips, ch)
            + listed(s.channels, ch),
    decreases strips.len(),
{
    let n = strips.len() - 1;
    assert(strips.last() == strips[n]);
    if i == n {
        assert(strips.update(i, s).drop_last() =~= strips.drop_last());
    } else {
        lemma_placed_update(strips.drop_last(), i, s, ch);
        assert(strips.update(i, s).drop_last() =~= strips.drop_last().update(i, s));
        assert(strips.update(i, s).last() == strips[n]);
        assert(strips.drop_last()[i] == strips[i]);
    }
}

proof fn lemma_lacking(channels: Seq<usize>, ch: usize, x: usize)
    ensures
        listed(lacking(channels, ch), x) == if x == ch {
            0
        } else {
            listed(channels, x)
        },
    decreases channels.len(),
{
    if channels.len() > 0 {
        lemma_lacking(channels.drop_last(), ch, x);
        let rest = lacking(channels.drop_last(), ch);
        if channels.last() != ch {
            assert(rest.push(channels.last()).drop_last() =~= rest);
        }
    }
}

proof fn lemma_pushed(channels: Seq<usize>, ch: usize, x: usize)
    ensures
        listed(channels.push(ch), x) == listed(channels, x) + if x == ch {
            1nat
        } else {
            0nat
        },
{
    assert(channels.push(ch).drop_last() =~= channels);
}

proof fn lemma_occupied(strips: Seq<StripView>, x: usize)
    ensures
        placed(occupied(strips), x) == placed(strips, x),
        forall|i: int|
            0 <= i < occupied(strips).len() ==> (#[trigger] occupied(strips)[i]).channels.len() > 0,
    decreases strips.len(),
{
    if strips.len() > 0 {
        let rest = occupied(strips.drop_last());
        lemma_occupied(strips.drop_last(), x);
        if strips.last().channels.len() > 0 {
            assert(rest.push(strips.last()).drop_last() =~= rest);
        }
    }
}

proof fn lemma_cleared(strips: Seq<StripView>, ch: usize, keep: int, x: usize)
    ensures
        x != ch ==> placed(cleared_but(strips, ch, keep), x) == placed(strips, x),
        x == ch && !(0 <= keep < strips.len()) ==> placed(cleared_but(strips, ch, keep), x) == 0,
        x == ch && 0 <= keep < strips.len() ==> placed(cleared_but(strips, ch, keep), x) == listed(
            strips[keep].channels,
            x,
        ),
    decreases strips.len(),
{
    if strips.len() > 0 {
        let c = cleared_but(strips, ch, keep);
        let n = strips.len() - 1;
        lemma_cleared(strips.drop_last(), ch, keep, x);
        assert(c.drop_last() =~= cleared_but(strips.drop_last(), ch, keep));
        lemma_lacking(strips[n].channels, ch, x);
        assert(strips.last() == strips[n]);
        if 0 <= keep < n {
            assert(strips.drop_last()[keep] == strips[keep]);
        }
        if keep == n {
            assert(placed(cleared_but(strips.drop_last(), ch, keep), ch) == 0 || x != ch);
        }
    }
}

/// No strip is empty.
pub open spec fn no_empty(strips: Seq<StripView>) -> bool {
    forall|i: int| 0 <= i < strips.len() ==> (#[trigger] strips[i]).channels.len() > 0
}

/// Moving a channel leaves it in exactly one strip, leaves the other channels
/// where they are drawn as often as before, and leaves no strip empty.
pub proof fn law_move_keeps_channels(strips: Seq<StripView>, ch: usize, target: usize, x: usize)
    ensures
        placed(moved(strips, ch, target), x) == if x == ch {
            1
        } else {
            placed(strips, x)
        },
        no_empty(moved(strips, ch, target)),
{
    let c = cleared_but(strips, ch, -1);
    let rest = occupied(c);
    lemma_cleared(strips, ch, -1, x);
    lemma_occupied(c, x);
    if target < strips.len() {
        let t = target as int;
        let s = holding(c[t], c[t].channels.push(ch));
        lemma_placed_update(c, t, s, x);
        lemma_pushed(c[t].channels, ch, x);
        lemma_occupied(merged_into(strips, ch, t), x);
    } else if rest.len() > 0 {
        let t = rest.len() - 1;
        let s = holding(rest[t], rest[t].channels.push(ch));
        lemma_placed_update(rest, t, s, x);
        lemma_pushed(rest[t].channels, ch, x);
        assert(moved(strips, ch, target) =~= rest.update(t, s));
    } else {
        lemma_fresh(ch, STRIP_HEIGHT, x);
        assert(seq![fresh(ch, STRIP_HEIGHT)].drop_last() =~= rest);
    }
}

proof fn lemma_occupied_join(a: Seq<StripView>, b: Seq<StripView>)
    ensures
        occupied(a + b) == occupied(a) + occupied(b),
    decreases b.len(),
{
    if b.len() == 0 {
        assert(a + b =~= a);
        assert(occupied(a) + occupied(b) =~= occupied(a));
    } else {
        lemma_occupied_join(a, b.drop_last());
        assert((a + b).drop_last() =~= a + b.drop_last());
        assert((a + b).last() == b.last());
        assert(occupied(a + b) =~= occupied(a) + occupied(b));
    }
}

/// A channel is merged with the strip that it is dropped onto: the strip where
/// it ends up is that strip, with the channel after its other channels.
pub proof fn law_move_merges(strips: Seq<StripView>, ch: usize, target: usize)
    requires
        target < strips.len(),
    ensures
        0 <= landing(strips, ch, target) < moved(strips, ch, target).len(),
        moved(strips, ch, target)[landing(strips, ch, target)] == holding(
            strips[target as int],
            lacking(strips[target as int].channels, ch).push(ch),
        ),
{
    let t = target as int;
    let c = cleared_but(strips, ch, -1);
    let all = merged_into(strips, ch, t);
    let (a, b) = (all.take(t), all.skip(t));
    assert(a + b =~= all);
    assert(a =~= c.take(t));
    lemma_occupied_join(a, b);
    let (one, rest) = (seq![all[t]], all.skip(t + 1));
    assert(b =~= one + rest);
    lemma_occupied_join(one, rest);
    assert(one.drop_last() =~= Seq::<StripView>::empty());
    assert(occupied(one.drop_last()) =~= Seq::<StripView>::empty());
    assert(occupied(one) =~= one);
    assert(moved(strips, ch, target)[occupied(a).len() as int] == all[t]);
}

proof fn lemma_fresh(ch: usize, height: Height, x: usize)
    ensures
        listed(fresh(ch, height).channels, x) == if x == ch {
            1nat
        } else {
            0nat
        },
{
    reveal_with_fuel(listed, 2);
    assert(seq![ch].drop_last() =~= Seq::<usize>::empty());
}

proof fn lemma_fresh_strips(channels: Seq<usize>, height: Height, x: usize)
    ensures
        placed(fresh_strips(channels, height), x) == listed(channels, x),
    decreases channels.len(),
{
    if channels.len() > 0 {
        lemma_fresh_strips(channels.drop_last(), height, x);
        assert(fresh_strips(channels, height).drop_last() =~= fresh_strips(
            channels.drop_last(),
            height,
        ));
        lemma_fresh(channels.last(), height, x);
    }
}

proof fn lemma_listed_join(a: Seq<usize>, b: Seq<usize>, x: usize)
    ensures
        listed(a + b, x) == listed(a, x) + listed(b, x),
    decreases b.len(),
{
    if b.len() == 0 {
        assert(a + b =~= a);
    } else {
        lemma_listed_join(a, b.drop_last(), x);
        assert((a + b).drop_last() =~= a + b.drop_last());
        assert((a + b).last() == b.last());
    }
}

/// Splitting a strip draws every channel as often as before and leaves no
/// strip empty that was not.
pub proof fn law_split_keeps_channels(strips: Seq<StripView>, s_idx: int, x: usize)
    requires
        0 <= s_idx < strips.len(),
    ensures
        placed(split(strips, s_idx), x) == placed(strips, x),
        no_empty(strips) ==> no_empty(split(strips, s_idx)),
{
    let chs = strips[s_idx].channels;
    if chs.len() > 1 {
        let height = strips[s_idx].height;
        let one = holding(strips[s_idx], seq![chs[0]]);
        let head = strips.take(s_idx).push(one);
        let middle = fresh_strips(chs.skip(1), height);
        let tail = strips.skip(s_idx + 1);
        lemma_placed_join(head + middle, tail, x);
        lemma_placed_join(head, middle, x);
        lemma_fresh_strips(chs.skip(1), height, x);
        assert(head.drop_last() =~= strips.take(s_idx));
        lemma_listed_join(seq![chs[0]], chs.skip(1), x);
        assert(seq![chs[0]] + chs.skip(1) =~= chs);
        let whole = strips.take(s_idx).push(strips[s_idx]);
        lemma_placed_join(whole, tail, x);
        assert(whole + tail =~= strips);
        assert(whole.drop_last() =~= strips.take(s_idx));
    }
}

/// Laying a channel over a strip that does not hold it leaves it in exactly
/// one strip, draws the others as often as before, and leaves no strip empty.
pub proof fn law_overlay_keeps_channels(strips: Seq<StripView>, s_idx: int, ch: usize, x: usize)
    requires
        0 <= s_idx < strips.len(),
        !strips[s_idx].channels.contains(ch),
    ensures
        placed(overlaid(strips, s_idx, ch), x) == if x == ch {
            1
        } else {
            placed(strips, x)
        },
        no_empty(overlaid(strips, s_idx, ch)),
{
    let s = holding(strips[s_idx], strips[s_idx].channels.push(ch));
    let u = strips.update(s_idx, s);
    let c = cleared_but(u, ch, s_idx);
    lemma_placed_update(strips, s_idx, s, x);
    lemma_pushed(strips[s_idx].channels, ch, x);
    lemma_cleared(u, ch, s_idx, x);
    lemma_occupied(c, x);
    lemma_listed(strips[s_idx].channels, ch);
}

/// A channel taken out of a strip is still drawn, the other channels are drawn
/// as often as before, and no strip is empty.
pub proof fn law_removal_keeps_channels(strips: Seq<StripView>, s_idx: int, ch: usize, x: usize)
    requires
        0 <= s_idx < strips.len(),
    ensures
        x != ch ==> placed(taken_out(strips, s_idx, ch), x) == placed(strips, x),
        placed(taken_out(strips, s_idx, ch), ch) >= 1,
        no_empty(taken_out(strips, s_idx, ch)),
{
    let s = holding(strips[s_idx], lacking(strips[s_idx].channels, ch));
    let rest = strips.update(s_idx, s);
    lemma_placed_update(strips, s_idx, s, x);
    lemma_lacking(strips[s_idx].channels, ch, x);
    if placed(rest, ch) > 0 {
        lemma_occupied(rest, x);
        lemma_occupied(rest, ch);
    } else {
        let f = fresh(ch, strips[s_idx].height);
        let grown = rest.insert(s_idx + 1, f);
        let (a, b) = (rest.take(s_idx + 1), rest.skip(s_idx + 1));
        assert(grown =~= a.push(f) + b);
        assert(rest =~= a + b);
        assert(a.push(f).drop_last() =~= a);
        lemma_placed_join(a.push(f), b, x);
        lemma_placed_join(a, b, x);
        lemma_placed_join(a.push(f), b, ch);
        lemma_placed_join(a, b, ch);
        lemma_fresh(ch, strips[s_idx].height, x);
        lemma_fresh(ch, strips[s_idx].height, ch);
        lemma_occupied(grown, x);
        lemma_occupied(grown, ch);
    }
}

proof fn lemma_renumbered(channels: Seq<usize>, gone: usize, x: usize)
    requires
        x < usize::MAX,
        !channels.contains(gone),
    ensures
        listed(all_renumbered(channels, gone), x) == listed(
            channels,
            if x < gone {
                x
            } else {
                (x + 1) as usize
            },
        ),
    decreases channels.len(),
{
    if channels.len() > 0 {
        let p = channels.drop_last();
        assert(channels[channels.len() - 1] == channels.last());
        if p.contains(gone) {
            let i = choose|i: int| 0 <= i < p.len() && p[i] == gone;
            assert(channels[i] == gone);
        }
        lemma_renumbered(p, gone, x);
        assert(all_renumbered(channels, gone).drop_last() =~= all_renumbered(p, gone));
    }
}

proof fn lemma_placed_renumbered(strips: Seq<StripView>, gone: usize, x: usize)
    requires
        x < usize::MAX,
        placed(strips, gone) == 0,
    ensures
        placed(
            Seq::new(
                strips.len(),
                |i: int| holding(strips[i], all_renumbered(strips[i].channels, gone)),
            ),
            x,
        ) == placed(
            strips,
            if x < gone {
                x
            } else {
                (x + 1) as usize
            },
        ),
    decreases strips.len(),
{
    if strips.len() > 0 {
        let p = strips.drop_last();
        lemma_placed_renumbered(p, gone, x);
        lemma_listed(strips.last().channels, gone);
        lemma_renumbered(strips.last().channels, gone, x);
        let all = Seq::new(
            strips.len(),
            |i: int| holding(strips[i], all_renumbered(strips[i].channels, gone)),
        );
        assert(all.drop_last() =~= Seq::new(
            p.len(),
            |i: int| holding(p[i], all_renumbered(p[i].channels, gone)),
        ));
    }
}

/// Removing a channel for good leaves the others drawn as often as before,
/// under their new numbers, and leaves no strip empty.
pub proof fn law_channel_removed(strips: Seq<StripView>, gone: usize, x: usize)
    requires
        x < usize::MAX,
    ensures
        placed(without_channel(strips, gone), x) == placed(
            strips,
            if x < gone {
                x
            } else {
                (x + 1) as usize
            },
        ),
        no_empty(without_channel(strips, gone)),
{
    let c = cleared_but(strips, gone, -1);
    let rest = occupied(c);
    let y = if x < gone {
        x
    } else {
        (x + 1) as usize
    };
    lemma_cleared(strips, gone, -1, gone);
    lemma_cleared(strips, gone, -1, y);
    lemma_occupied(c, gone);
    lemma_occupied(c, y);
    lemma_placed_renumbered(rest, gone, x);
    assert forall|i: int| 0 <= i < rest.len() implies (#[trigger] without_channel(
        strips,
        gone,
    )[i]).channels.len() > 0 by {
        assert(rest[i].channels.len() > 0);
    }
}

/// A channel is listed as often as it occurs, and drawn as often as it is listed
/// in the strips together.
pub proof fn law_placed(strips: Seq<StripView>, s: StripView, ch: usize)
    ensures
        placed(Seq::empty(), ch) == 0,
        placed(strips.push(s), ch) == placed(strips, ch) + s.channels.to_multiset().count(ch),
{
    assert(strips.push(s).drop_last() =~= strips);
    lemma_listed_counts(s.channels, ch);
}

proof fn lemma_listed_counts(channels: Seq<usize>, ch: usize)
    ensures
        listed(channels, ch) == channels.to_multiset().count(ch),
    decreases channels.len(),
{
    broadcast use vstd::seq_lib::group_to_multiset_ensures;

    if channels.len() > 0 {
        lemma_listed_counts(channels.drop_last(), ch);
        assert(channels =~= channels.drop_last().push(channels.last()));
    }
}

/// A new strip shows one channel, between -1 and 1, with the range that it shares
/// with the others and without a shift.
pub proof fn law_fresh(ch: usize, height: Height)
    ensures
        ({
            let s = fresh(ch, height);
            &&& s.channels.len() == 1 && s.channels[0] == ch
            &&& s.height == height
            &&& s.y_mode == YAxisMode::Linked
            &&& s.y_min == 0xbff0_0000_0000_0000u64 && s.y_max == 0x3ff0_0000_0000_0000u64
            &&& s.y_offset == 0u64
        }),
{
}

/// The channels other than one of them, in order.
pub open spec fn others(channels: Seq<usize>, ch: usize) -> Seq<usize> {
    channels.filter(|c: usize| c != ch)
}

proof fn lemma_lacking_filters(channels: Seq<usize>, ch: usize)
    ensures
        lacking(channels, ch) == others(channels, ch),
    decreases channels.len(),
{
    reveal(Seq::filter);
    if channels.len() > 0 {
        lemma_lacking_filters(channels.drop_last(), ch);
    }
}

proof fn lemma_occupied_filters(strips: Seq<StripView>)
    ensures
        occupied(strips) == strips.filter(|s: StripView| s.channels.len() > 0),
    decreases strips.len(),
{
    reveal(Seq::filter);
    if strips.len() > 0 {
        lemma_occupied_filters(strips.drop_last());
    }
}

/// The strips with every occurrence of a channel taken out, and the channel added
/// to one of them, if that is one of them.  Nothing else of a strip changes.
pub open spec fn rearranged(strips: Seq<StripView>, ch: usize, to: int) -> Seq<StripView> {
    Seq::new(
        strips.len(),
        |i: int|
            StripView {
                channels: if i == to {
                    others(strips[i].channels, ch).push(ch)
                } else {
                    others(strips[i].channels, ch)
                },
                ..strips[i]
            },
    )
}

/// Moving a channel to a strip takes it out of where it was and puts it after the
/// other channels of that strip; the strips stay in their order and are otherwise
/// as they were, and those without channels are gone.
pub proof fn law_moved_to_strip(strips: Seq<StripView>, ch: usize, target: usize)
    requires
        target < strips.len(),
    ensures
        moved(strips, ch, target) == rearranged(strips, ch, target as int).filter(
            |s: StripView| s.channels.len() > 0,
        ),
{
    let m = merged_into(strips, ch, target as int);
    assert forall|i: int| 0 <= i < strips.len() implies m[i] =~= rearranged(
        strips,
        ch,
        target as int,
    )[i] by {
        lemma_lacking_filters(strips[i].channels, ch);
    }
    assert(m =~= rearranged(strips, ch, target as int));
    lemma_occupied_filters(m);
}

/// Moving a channel past the last strip puts it after the channels of the last
/// strip that is left, or into a strip of its own where none is.
pub proof fn law_moved_past_the_end(strips: Seq<StripView>, ch: usize, target: usize)
    requires
        target >= strips.len(),
    ensures
        ({
            let rest = rearranged(strips, ch, -1).filter(|s: StripView| s.channels.len() > 0);
            let n = rest.len() as int;
            &&& n > 0 ==> moved(strips, ch, target) == rest.update(
                n - 1,
                StripView { channels: rest[n - 1].channels.push(ch), ..rest[n - 1] },
            ) && landing(strips, ch, target) == n - 1
            &&& n == 0 ==> moved(strips, ch, target) == seq![fresh(ch, 0x4316_0000u32)]
                && landing(strips, ch, target) == 0
        }),
{
    let m = cleared_but(strips, ch, -1);
    assert forall|i: int| 0 <= i < strips.len() implies m[i] =~= rearranged(strips, ch, -1)[i] by {
        lemma_lacking_filters(strips[i].channels, ch);
    }
    assert(m =~= rearranged(strips, ch, -1));
    lemma_occupied_filters(m);
    let rest = occupied(m);
    let n = rest.len() as int;
    if n > 0 {
        assert(moved(strips, ch, target) =~= rest.update(
            n - 1,
            StripView { channels: rest[n - 1].channels.push(ch), ..rest[n - 1] },
        ));
    }
}

/// Laying a channel over a strip does nothing where the strip holds it; else the
/// channel leaves the other strips and comes after the channels of this one.
pub proof fn law_overlaid(strips: Seq<StripView>, s_idx: int, ch: usize)
    requires
        0 <= s_idx < strips.len(),
    ensures
        strips[s_idx].channels.contains(ch) ==> overlaid(strips, s_idx, ch) == strips,
        !strips[s_idx].channels.contains(ch) ==> overlaid(strips, s_idx, ch) == rearranged(
            strips,
            ch,
            s_idx,
        ).filter(|s: StripView| s.channels.len() > 0),
{
    if !strips[s_idx].channels.contains(ch) {
        let added = strips.update(
            s_idx,
            holding(strips[s_idx], strips[s_idx].channels.push(ch)),
        );
        let m = cleared_but(added, ch, s_idx);
        assert forall|i: int| 0 <= i < strips.len() implies m[i] =~= rearranged(
            strips,
            ch,
            s_idx,
        )[i] by {
            lemma_lacking_filters(strips[i].channels, ch);
            if i == s_idx {
                lemma_lacking_none(strips[i].channels, ch);
            }
        }
        assert(m =~= rearranged(strips, ch, s_idx));
        lemma_occupied_filters(m);
    }
}

proof fn lemma_lacking_none(channels: Seq<usize>, ch: usize)
    requires
        !channels.contains(ch),
    ensures
        lacking(channels, ch) == channels,
    decreases channels.len(),
{
    if channels.len() > 0 {
        let p = channels.drop_last();
        assert(!p.contains(ch)) by {
            if p.contains(ch) {
                let i = choose|i: int| 0 <= i < p.len() && p[i] == ch;
                assert(channels[i] == ch);
            }
        }
        assert(channels[channels.len() - 1] == channels.last());
        lemma_lacking_none(p, ch);
        assert(lacking(channels, ch) =~= channels);
    } else {
        assert(lacking(channels, ch) =~= channels);
    }
}

/// Splitting a strip leaves its first channel in it and gives each other one a
/// new strip of the same height right below, in order; the other strips stay as
/// they are.
pub proof fn law_split(strips: Seq<StripView>, s_idx: int, i: int)
    requires
        0 <= s_idx < strips.len(),
        0 <= i < split(strips, s_idx).len(),
    ensures
        ({
            let (s, n) = (strips[s_idx], strips[s_idx].channels.len() as int);
            let out = split(strips, s_idx);
            if n <= 1 {
                out == strips
            } else {
                &&& out.len() == strips.len() + n - 1
                &&& i < s_idx ==> out[i] == strips[i]
                &&& i == s_idx ==> out[i] == (StripView { channels: seq![s.channels[0]], ..s })
                &&& s_idx < i < s_idx + n ==> out[i] == fresh(s.channels[i - s_idx], s.height)
                &&& s_idx + n <= i ==> out[i] == strips[i - n + 1]
            }
        }),
{
}

/// Taking a channel out of a strip leaves the other strips as they are.  Where no
/// other strip holds it, it gets a strip of its own right below, as high as the
/// one it was in; a strip that is left without channels is gone.
pub proof fn law_taken_out(strips: Seq<StripView>, s_idx: int, ch: usize)
    requires
        0 <= s_idx < strips.len(),
    ensures
        ({
            let rest = strips.update(
                s_idx,
                StripView {
                    channels: others(strips[s_idx].channels, ch),
                    ..strips[s_idx]
                },
            );
            let elsewhere = exists|i: int|
                0 <= i < strips.len() && i != s_idx && (#[trigger] strips[i]).channels.contains(ch);
            taken_out(strips, s_idx, ch) == if elsewhere {
                rest.filter(|s: StripView| s.channels.len() > 0)
            } else {
                rest.insert(s_idx + 1, fresh(ch, strips[s_idx].height)).filter(
                    |s: StripView| s.channels.len() > 0,
                )
            }
        }),
{
    let rest = strips.update(
        s_idx,
        holding(strips[s_idx], lacking(strips[s_idx].channels, ch)),
    );
    lemma_lacking_filters(strips[s_idx].channels, ch);
    lemma_lacking(strips[s_idx].channels, ch, ch);
    lemma_occupied_filters(rest);
    lemma_occupied_filters(rest.insert(s_idx + 1, fresh(ch, strips[s_idx].height)));
    lemma_placed_somewhere(rest, ch);
    if placed(rest, ch) > 0 {
        let i = choose|i: int| 0 <= i < rest.len() && listed((#[trigger] rest[i]).channels, ch) > 0;
        assert(i != s_idx);
        lemma_listed(rest[i].channels, ch);
        assert(strips[i].channels.contains(ch));
    } else {
        assert forall|i: int| 0 <= i < strips.len() && i != s_idx implies !(
        #[trigger] strips[i]).channels.contains(ch) by {
            assert(rest[i] == strips[i]);
            lemma_listed(rest[i].channels, ch);
        }
    }
}

proof fn lemma_placed_somewhere(strips: Seq<StripView>, ch: usize)
    ensures
        placed(strips, ch) > 0 <==> exists|i: int|
            0 <= i < strips.len() && listed((#[trigger] strips[i]).channels, ch) > 0,
    decreases strips.len(),
{
    if strips.len() > 0 {
        let p = strips.drop_last();
        let n = p.len() as int;
        lemma_placed_somewhere(p, ch);
        assert(strips[n] == strips.last());
        if placed(p, ch) > 0 {
            let i = choose|i: int| 0 <= i < p.len() && listed((#[trigger] p[i]).channels, ch) > 0;
            assert(strips[i] == p[i]);
        }
        if exists|i: int| 0 <= i < strips.len() && listed((#[trigger] strips[i]).channels, ch) > 0 {
            let i = choose|i: int|
                0 <= i < strips.len() && listed((#[trigger] strips[i]).channels, ch) > 0;
            if i < n {
                assert(p[i] == strips[i]);
            }
        }
    }
}

/// Removing a channel for good takes it out of all strips, drops the strips that
/// are left without channels, and lowers the numbers above its own by one; the
/// strips and their channels stay in their order.
pub proof fn law_removed_for_good(strips: Seq<StripView>, gone: usize)
    ensures
        without_channel(strips, gone) == rearranged(strips, gone, -1).filter(
            |s: StripView| s.channels.len() > 0,
        ).map_values(
            |s: StripView|
                StripView {
                    channels: s.channels.map_values(
                        |c: usize|
                            if c > gone {
                                (c - 1) as usize
                            } else {
                                c
                            },
                    ),
                    ..s
                },
        ),
{
    let m = cleared_but(strips, gone, -1);
    assert forall|i: int| 0 <= i < strips.len() implies m[i] =~= rearranged(strips, gone, -1)[i] by {
        lemma_lacking_filters(strips[i].channels, gone);
    }
    assert(m =~= rearranged(strips, gone, -1));
    lemma_occupied_filters(m);
    let rest = occupied(m);
    let lowered = |c: usize|
        if c > gone {
            (c - 1) as usize
        } else {
            c
        };
    assert forall|i: int| 0 <= i < rest.len() implies all_renumbered(rest[i].channels, gone)
        =~= rest[i].channels.map_values(lowered) by {}
    assert(without_channel(strips, gone) =~= rest.map_values(
        |s: StripView| StripView { channels: s.channels.map_values(lowered), ..s },
    ));
}

/// What a strip holds is all that it has, and strips are seen one by one.
pub proof fn law_strip_view(strips: Seq<Strip>, i: int)
    requires
        0 <= i < strips.len(),
    ensures
        strip_views(strips).len() == strips.len(),
        ({
            let (s, v) = (strips[i], strip_views(strips)[i]);
            &&& v.channels == s.channel_indices@
            &&& v.height == s.height && v.y_mode == s.y_mode
            &&& v.y_min == s.y_min && v.y_max == s.y_max && v.y_offset == s.y_offset
        }),
{
}

} // verus!
