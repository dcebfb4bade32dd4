//! Compressed storage of one channel.
//!
//! The instants of a regularly sampled channel differ by nearly constant
//! steps, and neighbouring values share their leading bits.  A channel is
//! therefore stored as the differences of differences of its instants and as
//! the exclusive ors of neighbouring values, each stream compressed with zstd:
//!
//! ```text
//! [8 bytes] first instant
//! [8 bytes] first value
//! [4 bytes] number of samples
//! [4 bytes] length of the compressed instants
//! [N bytes] compressed instants
//! [4 bytes] length of the compressed values
//! [N bytes] compressed values
//! ```
//!
//! All integers are little-endian.

use crate::le::{
    byte_of, bytes_to_words, bytes_words, lemma_u32_in, lemma_u32_read_back, lemma_u64_read_back,
    lemma_words_read_back, read_u32, read_u64, u32_at, u32_bytes, u64_at, u64_bytes, words_bytes,
    words_to_bytes, write_u32, write_u64,
};
use crate::sample::{Point, Sample};
use vstd::prelude::*;

verus! {

/// The zstd level at which streams are compressed.
pub const LEVEL: i32 = 3;

/// The length of a stored channel whose two streams are empty.
pub const FRAME_MIN: usize = 28;

// ---------------------------------------------------------------------------
// The compressor
// ---------------------------------------------------------------------------

/// What `zstd::encode_all` gives for some data at some level; `None` where it
/// reports an error.
pub uninterp spec fn zstd_encoded(data: Seq<u8>, level: i32) -> Option<Seq<u8>>;

/// What `zstd::decode_all` gives for some data; `None` where it reports an
/// error.
pub uninterp spec fn zstd_decoded(data: Seq<u8>) -> Option<Seq<u8>>;

/// Calls `zstd::encode_all`.  Compression is a function of the data and the
/// level, and what it gives is decompressed to the data again.  Nothing is
/// said of when it reports an error, nor of the length of its result.
#[verifier::external_body]
fn zstd_encode(data: &[u8], level: i32) -> (r: Option<Vec<u8>>)
    ensures
        match r {
            Some(out) => zstd_encoded(data@, level) == Some(out@),
            None => zstd_encoded(data@, level) is None,
        },
        r matches Some(out) ==> zstd_decoded(out@) == Some(data@),
{
    zstd::encode_all(data, level).ok()
}

/// Calls `zstd::decode_all`.  Decompression is a function of the data.
/// Nothing is said of which data it accepts.
#[verifier::external_body]
fn zstd_decode(data: &[u8]) -> (r: Option<Vec<u8>>)
    ensures
        match r {
            Some(out) => zstd_decoded(data@) == Some(out@),
            None => zstd_decoded(data@) is None,
        },
{
    zstd::decode_all(data).ok()
}

// ---------------------------------------------------------------------------
// The two transforms
// ---------------------------------------------------------------------------

/// The first difference of the instants, followed by the differences of
/// neighbouring differences, all modulo 2^64.
pub open spec fn second_differences(ts: Seq<Sample>) -> Seq<u64> {
    Seq::new(
        (ts.len() - 1) as nat,
        |i: int|
            if i == 0 {
                ts[1].wrapping_sub(ts[0])
            } else {
                ts[i + 1].wrapping_sub(ts[i]).wrapping_sub(ts[i].wrapping_sub(ts[i - 1]))
            },
    )
}

/// The step that leads to instant `i`: the sum of the first `i` entries.
pub open spec fn step_at(deltas: Seq<u64>, i: int) -> u64
    decreases i,
{
    if i <= 0 {
        0
    } else {
        step_at(deltas, i - 1).wrapping_add(deltas[i - 1])
    }
}

/// Instant `i`: the first one plus the first `i` steps.
pub open spec fn instant_at(first: Sample, deltas: Seq<u64>, i: int) -> Sample
    decreases i,
{
    if i <= 0 {
        first
    } else {
        instant_at(first, deltas, i - 1).wrapping_add(step_at(deltas, i))
    }
}

/// The instants that a first instant and its second differences describe.
pub open spec fn integrated(first: Sample, deltas: Seq<u64>) -> Seq<Sample> {
    Seq::new(deltas.len() + 1, |i: int| instant_at(first, deltas, i))
}

/// The exclusive ors of neighbouring values.
pub open spec fn xors(vs: Seq<Sample>) -> Seq<u64> {
    Seq::new((vs.len() - 1) as nat, |i: int| vs[i + 1] ^ vs[i])
}

/// Value `i`: the first one with the first `i` masks applied.
pub open spec fn value_at(first: Sample, masks: Seq<u64>, i: int) -> Sample
    decreases i,
{
    if i <= 0 {
        first
    } else {
        value_at(first, masks, i - 1) ^ masks[i - 1]
    }
}

/// The values that a first value and a sequence of masks describe.
pub open spec fn unmasked(first: Sample, masks: Seq<u64>) -> Seq<Sample> {
    Seq::new(masks.len() + 1, |i: int| value_at(first, masks, i))
}

/// Second differences determine the instants they were taken from.
pub proof fn lemma_integrated(ts: Seq<Sample>)
    requires
        ts.len() > 0,
    ensures
        integrated(ts[0], second_differences(ts)) == ts,
{
    let d = second_differences(ts);
    assert forall|i: int| 0 <= i < ts.len() implies instant_at(ts[0], d, i) == #[trigger] ts[i] by {
        lemma_instant(ts, i);
    }
    assert(integrated(ts[0], d) =~= ts);
}

proof fn lemma_instant(ts: Seq<Sample>, i: int)
    requires
        0 <= i < ts.len(),
    ensures
        instant_at(ts[0], second_differences(ts), i) == ts[i],
        i > 0 ==> step_at(second_differences(ts), i) == ts[i].wrapping_sub(ts[i - 1]),
    decreases i,
{
    if i > 0 {
        lemma_instant(ts, i - 1);
        let d = second_differences(ts);
        assert(step_at(d, i) == step_at(d, i - 1).wrapping_add(d[i - 1]));
        if i == 1 {
            assert(step_at(d, 0) == 0);
        }
    }
}

/// Masks determine the values they were taken from.
pub proof fn lemma_unmasked(vs: Seq<Sample>)
    requires
        vs.len() > 0,
    ensures
        unmasked(vs[0], xors(vs)) == vs,
{
    let m = xors(vs);
    assert forall|i: int| 0 <= i < vs.len() implies value_at(vs[0], m, i) == #[trigger] vs[i] by {
        lemma_value(vs, i);
    }
    assert(unmasked(vs[0], m) =~= vs);
}

proof fn lemma_value(vs: Seq<Sample>, i: int)
    requires
        0 <= i < vs.len(),
    ensures
        value_at(vs[0], xors(vs), i) == vs[i],
    decreases i,
{
    if i > 0 {
        lemma_value(vs, i - 1);
        let (a, b) = (vs[i - 1], vs[i]);
        assert(a ^ (b ^ a) == b) by (bit_vector);
    }
}

// ---------------------------------------------------------------------------
// The stored form
// ---------------------------------------------------------------------------

/// The stored form of a channel, given its two compressed streams.
pub open spec fn frame(
    first_t: Sample,
    first_v: Sample,
    n: u32,
    times: Seq<u8>,
    values: Seq<u8>,
) -> Seq<u8> {
    u64_bytes(first_t) + u64_bytes(first_v) + u32_bytes(n) + u32_bytes(times.len() as u32) + times
        + u32_bytes(values.len() as u32) + values
}

/// The bytes of a stream that may have failed to compress: none if it did.
pub open spec fn or_empty(stream: Option<Seq<u8>>) -> Seq<u8> {
    match stream {
        Some(s) => s,
        None => Seq::empty(),
    }
}

/// The compressed instants of a channel.
pub open spec fn compressed_times(ts: Seq<Sample>) -> Option<Seq<u8>> {
    zstd_encoded(words_bytes(second_differences(ts)), LEVEL)
}

/// The compressed values of a channel.
pub open spec fn compressed_values(vs: Seq<Sample>) -> Option<Seq<u8>> {
    zstd_encoded(words_bytes(xors(vs)), LEVEL)
}

/// The stored form of a channel.
pub open spec fn encoded_channel(ts: Seq<Sample>, vs: Seq<Sample>) -> Seq<u8> {
    if ts.len() == 0 {
        Seq::empty()
    } else {
        frame(
            ts[0],
            vs[0],
            ts.len() as u32,
            or_empty(compressed_times(ts)),
            or_empty(compressed_values(vs)),
        )
    }
}

/// Both streams compress, and the three lengths fit their fields.
pub open spec fn storable(ts: Seq<Sample>, vs: Seq<Sample>) -> bool {
    &&& ts.len() <= u32::MAX
    &&& compressed_times(ts) matches Some(t) && t.len() <= u32::MAX
    &&& compressed_values(vs) matches Some(v) && v.len() <= u32::MAX
}

/// The number of samples that a stored channel announces.
pub open spec fn announced(data: Seq<u8>) -> u32 {
    if data.len() < FRAME_MIN {
        0
    } else {
        u32_at(data, 16)
    }
}

/// Where the compressed values' length stands.
pub open spec fn values_at(data: Seq<u8>) -> int {
    24 + u32_at(data, 20)
}

/// Both streams lie inside the data.
pub open spec fn framed(data: Seq<u8>) -> bool {
    &&& values_at(data) + 4 <= data.len()
    &&& values_at(data) + 4 + u32_at(data, values_at(data)) <= data.len()
}

/// The compressed instants inside a stored channel.
pub open spec fn time_part(data: Seq<u8>) -> Seq<u8> {
    data.subrange(24, values_at(data))
}

/// The compressed values inside a stored channel.
pub open spec fn value_part(data: Seq<u8>) -> Seq<u8> {
    data.subrange(values_at(data) + 4, values_at(data) + 4 + u32_at(data, values_at(data)))
}

/// A decompressed stream consists of whole words.
pub open spec fn whole(plain: Option<Seq<u8>>) -> bool {
    plain matches Some(p) ==> p.len() % 8 == 0
}

/// The data hold a channel that can be taken apart: nothing is announced, or
/// both streams lie inside the data and, where they are used, consist of whole
/// words.
pub open spec fn decodable(data: Seq<u8>) -> bool {
    announced(data) > 0 ==> {
        &&& framed(data)
        &&& announced(data) > 1 ==> whole(zstd_decoded(time_part(data))) && whole(
            zstd_decoded(value_part(data)),
        )
    }
}

/// The instants of a channel, given what its first stream was decompressed to.
/// A stream that was not decompressed leaves the first instant alone.
pub open spec fn times_of(first: Sample, n: u32, plain: Option<Seq<u8>>) -> Seq<Sample> {
    if n > 1 && plain is Some {
        integrated(first, bytes_words(plain.unwrap()))
    } else {
        seq![first]
    }
}

/// The values of a channel, given what its second stream was decompressed to.
pub open spec fn values_of(first: Sample, n: u32, plain: Option<Seq<u8>>) -> Seq<Sample> {
    if n > 1 && plain is Some {
        unmasked(first, bytes_words(plain.unwrap()))
    } else {
        seq![first]
    }
}

/// The instants and values that a stored channel holds.
pub open spec fn decoded_channel(data: Seq<u8>) -> (Seq<Sample>, Seq<Sample>) {
    let n = announced(data);
    if n == 0 {
        (Seq::empty(), Seq::empty())
    } else {
        (
            times_of(u64_at(data, 0), n, zstd_decoded(time_part(data))),
            values_of(u64_at(data, 8), n, zstd_decoded(value_part(data))),
        )
    }
}

/// Instants and values paired up; the longer sequence is cut.
pub open spec fn zipped(ts: Seq<Sample>, vs: Seq<Sample>) -> Seq<Point> {
    Seq::new(
        if ts.len() <= vs.len() {
            ts.len()
        } else {
            vs.len()
        },
        |i: int| Point { t: ts[i], v: vs[i] },
    )
}

/// The parts of a stored channel are found again in its frame.
proof fn lemma_frame(first_t: Sample, first_v: Sample, n: u32, times: Seq<u8>, values: Seq<u8>)
    requires
        times.len() <= u32::MAX,
        values.len() <= u32::MAX,
    ensures
        ({
            let f = frame(first_t, first_v, n, times, values);
            &&& f.len() == 28 + times.len() + values.len()
            &&& u64_at(f, 0) == first_t
            &&& u64_at(f, 8) == first_v
            &&& announced(f) == n
            &&& framed(f)
            &&& time_part(f) == times
            &&& value_part(f) == values
        }),
{
    let f = frame(first_t, first_v, n, times, values);
    let tl = times.len() as u32;
    let vl = values.len() as u32;
    assert forall|k: int| 0 <= k < 8 implies #[trigger] f[0 + k] == byte_of(first_t, k) by {}
    lemma_u64_read_back(first_t, f, 0);
    assert forall|k: int| 0 <= k < 8 implies #[trigger] f[8 + k] == byte_of(first_v, k) by {}
    lemma_u64_read_back(first_v, f, 8);
    assert forall|k: int| 0 <= k < 4 implies #[trigger] f[16 + k] == byte_of(n as u64, k) by {}
    lemma_u32_read_back(n, f, 16);
    assert forall|k: int| 0 <= k < 4 implies #[trigger] f[20 + k] == byte_of(tl as u64, k) by {}
    lemma_u32_read_back(tl, f, 20);
    let p = 24 + times.len() as int;
    assert forall|k: int| 0 <= k < 4 implies #[trigger] f[p + k] == byte_of(vl as u64, k) by {}
    lemma_u32_read_back(vl, f, p);
    assert(time_part(f) =~= times);
    assert(value_part(f) =~= values);
}

/// Puts a channel's stored form together from its first sample, its length and
/// its two compressed streams.
pub fn frame_channel(first_t: Sample, first_v: Sample, n: u32, times: &[u8], values: &[u8]) -> (out:
    Vec<u8>)
    ensures
        out@ == frame(first_t, first_v, n, times@, values@),
{
    let mut out: Vec<u8> = Vec::new();
    write_u64(&mut out, first_t);
    write_u64(&mut out, first_v);
    write_u32(&mut out, n);
    write_u32(&mut out, times.len() as u32);
    out.extend_from_slice(times);
    write_u32(&mut out, values.len() as u32);
    out.extend_from_slice(values);
    assert(out@ =~= frame(first_t, first_v, n, times@, values@));
    out
}

/// The second differences of the instants.
pub fn time_differences(ts: &[Sample]) -> (out: Vec<u64>)
    requires
        ts@.len() > 0,
    ensures
        out@ == second_differences(ts@),
{
    let mut out: Vec<u64> = Vec::new();
    let n: usize = ts.len();
    if n > 1 {
        out.push(ts[1].wrapping_sub(ts[0]));
        let mut i: usize = 2;
        while i < n
            invariant
                2 <= i <= n,
                n == ts@.len(),
                out@ == second_differences(ts@).take(i - 1),
            decreases n - i,
        {
            let delta: u64 = ts[i].wrapping_sub(ts[i - 1]);
            let prev_delta: u64 = ts[i - 1].wrapping_sub(ts[i - 2]);
            out.push(delta.wrapping_sub(prev_delta));
            assert(out@ =~= second_differences(ts@).take(i as int));
            i += 1;
        }
    }
    assert(out@ =~= second_differences(ts@));
    out
}

/// The exclusive ors of neighbouring values.
pub fn value_masks(vs: &[Sample]) -> (out: Vec<u64>)
    requires
        vs@.len() > 0,
    ensures
        out@ == xors(vs@),
{
    let mut out: Vec<u64> = Vec::new();
    let n: usize = vs.len();
    let mut i: usize = 1;
    while i < n
        invariant
            1 <= i <= n,
            n == vs@.len(),
            out@ == xors(vs@).take(i - 1),
        decreases n - i,
    {
        out.push(vs[i] ^ vs[i - 1]);
        assert(out@ =~= xors(vs@).take(i as int));
        i += 1;
    }
    assert(out@ =~= xors(vs@));
    out
}

/// Stores a channel.
///
/// Where both streams compress and the lengths fit their fields, the stored
/// form holds exactly the instants and values that went in.
pub fn encode_channel(timestamps: &[Sample], values: &[Sample]) -> (out: Vec<u8>)
    requires
        timestamps@.len() == values@.len(),
    ensures
        out@ == encoded_channel(timestamps@, values@),
        timestamps@.len() == 0 || storable(timestamps@, values@) ==> decodable(out@)
            && decoded_channel(out@) == (timestamps@, values@),
{
    let n: usize = timestamps.len();
    if n == 0 {
        let out: Vec<u8> = Vec::new();
        assert(out@ =~= Seq::<u8>::empty());
        assert(timestamps@ =~= Seq::<Sample>::empty());
        assert(values@ =~= Seq::<Sample>::empty());
        return out;
    }
    let deltas: Vec<u64> = time_differences(timestamps);
    let time_bytes: Vec<u8> = words_to_bytes(&deltas);
    let times: Vec<u8> = match zstd_encode(&time_bytes, LEVEL) {
        Some(c) => c,
        None => Vec::new(),
    };
    let masks: Vec<u64> = value_masks(values);
    let value_bytes: Vec<u8> = words_to_bytes(&masks);
    let vals: Vec<u8> = match zstd_encode(&value_bytes, LEVEL) {
        Some(c) => c,
        None => Vec::new(),
    };
    let out: Vec<u8> = frame_channel(timestamps[0], values[0], n as u32, &times, &vals);
    proof {
        assert(times@ =~= or_empty(compressed_times(timestamps@)));
        assert(vals@ =~= or_empty(compressed_values(values@)));
        if storable(timestamps@, values@) {
            lemma_frame(timestamps@[0], values@[0], n as u32, times@, vals@);
            lemma_words_read_back(deltas@);
            lemma_words_read_back(masks@);
            lemma_integrated(timestamps@);
            lemma_unmasked(values@);
            if n == 1 {
                assert(seq![timestamps@[0]] =~= timestamps@);
                assert(seq![values@[0]] =~= values@);
            }
        }
    }
    out
}

/// Rebuilds the instants from the first one and the decompressed stream.
pub fn restore_times(first: Sample, n: u32, plain: &Option<Vec<u8>>) -> (ts: Vec<Sample>)
    requires
        n > 1 ==> (plain matches Some(p) ==> p@.len() % 8 == 0),
    ensures
        ts@ == times_of(
            first,
            n,
            match plain {
                Some(p) => Some(p@),
                None => None,
            },
        ),
{
    let mut ts: Vec<Sample> = Vec::new();
    ts.push(first);
    if n > 1 {
        if let Some(p) = plain {
            let deltas: Vec<u64> = bytes_to_words(p);
            let mut bits: u64 = first;
            let mut step: u64 = 0;
            let mut i: usize = 0;
            assert(ts@ =~= integrated(first, deltas@).take(1));
            while i < deltas.len()
                invariant
                    i <= deltas@.len(),
                    step == step_at(deltas@, i as int),
                    bits == instant_at(first, deltas@, i as int),
                    ts@ == integrated(first, deltas@).take(i + 1),
                decreases deltas@.len() - i,
            {
                step = step.wrapping_add(deltas[i]);
                bits = bits.wrapping_add(step);
                ts.push(bits);
                i += 1;
                assert(ts@ =~= integrated(first, deltas@).take(i + 1));
            }
            assert(ts@ =~= integrated(first, deltas@));
        }
    }
    assert(n <= 1 || plain is None ==> ts@ =~= seq![first]);
    ts
}

/// Rebuilds the values from the first one and the decompressed stream.
pub fn restore_values(first: Sample, n: u32, plain: &Option<Vec<u8>>) -> (vs: Vec<Sample>)
    requires
        n > 1 ==> (plain matches Some(p) ==> p@.len() % 8 == 0),
    ensures
        vs@ == values_of(
            first,
            n,
            match plain {
                Some(p) => Some(p@),
                None => None,
            },
        ),
{
    let mut vs: Vec<Sample> = Vec::new();
    vs.push(first);
    if n > 1 {
        if let Some(p) = plain {
            let masks: Vec<u64> = bytes_to_words(p);
            let mut bits: u64 = first;
            let mut i: usize = 0;
            assert(vs@ =~= unmasked(first, masks@).take(1));
            while i < masks.len()
                invariant
                    i <= masks@.len(),
                    bits == value_at(first, masks@, i as int),
                    vs@ == unmasked(first, masks@).take(i + 1),
                decreases masks@.len() - i,
            {
                bits = bits ^ masks[i];
                vs.push(bits);
                i += 1;
                assert(vs@ =~= unmasked(first, masks@).take(i + 1));
            }
            assert(vs@ =~= unmasked(first, masks@));
        }
    }
    assert(n <= 1 || plain is None ==> vs@ =~= seq![first]);
    vs
}

/// Whether both streams lie inside the data of a channel that announces
/// samples.
fn is_framed(data: &[u8]) -> (b: bool)
    requires
        data@.len() >= FRAME_MIN,
    ensures
        b == framed(data@),
{
    let times_len: usize = match read_u32(data, 20) {
        Some(l) => l as usize,
        None => 0,
    };
    let rest: usize = data.len() - 24;
    if rest < 4 || rest - 4 < times_len {
        return false;
    }
    let values_len: usize = match read_u32(data, 24 + times_len) {
        Some(l) => l as usize,
        None => 0,
    };
    rest - 4 - times_len >= values_len
}

/// Cuts the two compressed streams out of a stored channel.
fn split_streams(data: &[u8]) -> (parts: (&[u8], &[u8]))
    requires
        data@.len() >= FRAME_MIN,
        framed(data@),
    ensures
        parts.0@ == time_part(data@),
        parts.1@ == value_part(data@),
{
    assert(data@.len() == data.len());
    let times_len: usize = match read_u32(data, 20) {
        Some(l) => l as usize,
        None => 0,
    };
    let at: usize = 24 + times_len;
    let values_len: usize = match read_u32(data, at) {
        Some(l) => l as usize,
        None => 0,
    };
    let times: &[u8] = vstd::slice::slice_subrange(data, 24, at);
    let values: &[u8] = vstd::slice::slice_subrange(data, at + 4, at + 4 + values_len);
    (times, values)
}

/// The number of samples that a stored channel announces; none if the data are
/// too short to hold a channel.
pub fn announced_samples(data: &[u8]) -> (n: u32)
    ensures
        n == announced(data@),
{
    if data.len() < FRAME_MIN {
        return 0;
    }
    match read_u32(data, 16) {
        Some(n) => n,
        None => 0,
    }
}

fn whole_words(plain: &Option<Vec<u8>>) -> (b: bool)
    ensures
        b == (plain matches Some(p) ==> p@.len() % 8 == 0),
{
    match plain {
        Some(p) => p.len() % 8 == 0,
        None => true,
    }
}

/// Takes a stored channel apart if it can be: `None` stands for data whose
/// streams reach past the end or do not consist of whole words.
pub fn try_decode_channel(data: &[u8]) -> (r: Option<(Vec<Sample>, Vec<Sample>)>)
    ensures
        r is Some == decodable(data@),
        r matches Some(c) ==> (c.0@, c.1@) == decoded_channel(data@),
{
    let n: u32 = announced_samples(data);
    if n == 0 {
        let ts: Vec<Sample> = Vec::new();
        let vs: Vec<Sample> = Vec::new();
        assert(ts@ =~= Seq::<Sample>::empty() && vs@ =~= Seq::<Sample>::empty());
        return Some((ts, vs));
    }
    if !is_framed(data) {
        return None;
    }
    let first_t: Sample = match read_u64(data, 0) {
        Some(t) => t,
        None => 0,
    };
    let first_v: Sample = match read_u64(data, 8) {
        Some(v) => v,
        None => 0,
    };
    let (times, values) = split_streams(data);
    let plain_times: Option<Vec<u8>> = if n > 1 {
        zstd_decode(times)
    } else {
        None
    };
    let plain_values: Option<Vec<u8>> = if n > 1 {
        zstd_decode(values)
    } else {
        None
    };
    if !whole_words(&plain_times) || !whole_words(&plain_values) {
        return None;
    }
    let ts: Vec<Sample> = restore_times(first_t, n, &plain_times);
    let vs: Vec<Sample> = restore_values(first_v, n, &plain_values);
    Some((ts, vs))
}

/// Takes a stored channel apart into instants and values.  Data too short to
/// hold a channel, or that announce no sample, give none.
pub fn decode_channel(data: &[u8]) -> (r: (Vec<Sample>, Vec<Sample>))
    requires
        decodable(data@),
    ensures
        (r.0@, r.1@) == decoded_channel(data@),
{
    match try_decode_channel(data) {
        Some(channel) => channel,
        None => (Vec::new(), Vec::new()),
    }
}

/// Pairs instants and values up; the longer sequence is cut.
pub fn zip_points(ts: &[Sample], vs: &[Sample]) -> (out: Vec<Point>)
    ensures
        out@ == zipped(ts@, vs@),
{
    let n: usize = if ts.len() <= vs.len() {
        ts.len()
    } else {
        vs.len()
    };
    let mut out: Vec<Point> = Vec::new();
    let mut i: usize = 0;
    while i < n
        invariant
            i <= n,
            n <= ts@.len(),
            n <= vs@.len(),
            n == zipped(ts@, vs@).len(),
            out@ == zipped(ts@, vs@).take(i as int),
        decreases n - i,
    {
        out.push(Point { t: ts[i], v: vs[i] });
        i += 1;
        assert(out@ =~= zipped(ts@, vs@).take(i as int));
    }
    assert(out@ =~= zipped(ts@, vs@));
    out
}

/// Takes a stored channel apart into points.
pub fn decode_channel_points(data: &[u8]) -> (out: Vec<Point>)
    requires
        decodable(data@),
    ensures
        out@ == zipped(decoded_channel(data@).0, decoded_channel(data@).1),
{
    let (ts, vs) = decode_channel(data);
    zip_points(&ts, &vs)
}

/// Tells whether a stored channel can be taken apart.
pub fn is_decodable(data: &[u8]) -> (b: bool)
    ensures
        b == decodable(data@),
{
    match try_decode_channel(data) {
        Some(_) => true,
        None => false,
    }
}

/// Takes a stored channel apart into points if it can be.
pub fn try_decode_channel_points(data: &[u8]) -> (r: Option<Vec<Point>>)
    ensures
        r is Some == decodable(data@),
        r matches Some(out) ==> out@ == zipped(
            decoded_channel(data@).0,
            decoded_channel(data@).1,
        ),
{
    if is_decodable(data) {
        Some(decode_channel_points(data))
    } else {
        None
    }
}

/// Differences of differences: the first entry is the first step, and every other
/// one is what the step grew by, all modulo 2^64.  Instants at equal distances
/// therefore give zeros after the first entry.
pub proof fn law_second_differences(ts: Seq<Sample>, i: int)
    requires
        0 <= i < ts.len() - 1,
    ensures
        ({
            let (d, m) = (second_differences(ts), 0x1_0000_0000_0000_0000int);
            &&& d.len() == ts.len() - 1
            &&& i == 0 ==> (ts[0] + d[0]) % m == ts[1]
            &&& i > 0 ==> (ts[i] - ts[i - 1] + d[i]) % m == (ts[i + 1] - ts[i]) % m
            &&& i > 0 && ts[i + 1] - ts[i] == ts[i] - ts[i - 1] ==> d[i] == 0
        }),
{
}

/// A mask turns each value into the next one, and is zero where the two are the
/// same.
pub proof fn law_masks(vs: Seq<Sample>, i: int)
    requires
        0 <= i < vs.len() - 1,
    ensures
        xors(vs).len() == vs.len() - 1,
        vs[i] ^ xors(vs)[i] == vs[i + 1],
        xors(vs)[i] == 0 <==> vs[i] == vs[i + 1],
{
    let (a, b) = (vs[i], vs[i + 1]);
    assert(a ^ (b ^ a) == b && (b ^ a == 0 <==> a == b)) by (bit_vector);
}

/// Where the parts of a stored channel stand: the first instant, the first value,
/// the number of samples, and the two streams, each after its length.
pub proof fn law_frame_layout(
    first_t: Sample,
    first_v: Sample,
    n: u32,
    times: Seq<u8>,
    values: Seq<u8>,
)
    requires
        times.len() <= u32::MAX,
        values.len() <= u32::MAX,
    ensures
        ({
            let f = frame(first_t, first_v, n, times, values);
            let t = times.len() as int;
            &&& f.len() == 28 + t + values.len()
            &&& u64_at(f, 0) == first_t
            &&& u64_at(f, 8) == first_v
            &&& u32_at(f, 16) == n
            &&& u32_at(f, 20) == t
            &&& f.subrange(24, 24 + t) == times
            &&& u32_at(f, 24 + t) == values.len()
            &&& f.subrange(28 + t, 28 + t + values.len()) == values
        }),
{
    lemma_frame(first_t, first_v, n, times, values);
    let f = frame(first_t, first_v, n, times, values);
    let t = times.len() as int;
    assert(f.subrange(20, 24) =~= u32_bytes(times.len() as u32));
    lemma_u32_in(times.len() as u32, f, 20);
    assert(f.subrange(24, 24 + t) =~= times);
    assert(f.subrange(24 + t, 28 + t) =~= u32_bytes(values.len() as u32));
    lemma_u32_in(values.len() as u32, f, 24 + t);
    assert(f.subrange(28 + t, 28 + t + values.len()) =~= values);
}

/// Data too short for a channel hold no samples, and neither do data that
/// announce none.
pub proof fn law_no_samples(data: Seq<u8>)
    requires
        data.len() < 28 || u32_at(data, 16) == 0,
    ensures
        decodable(data),
        decoded_channel(data).0.len() == 0 && decoded_channel(data).1.len() == 0,
{
}

/// Instants and values are paired up one by one, as far as both go.
pub proof fn law_zipped(ts: Seq<Sample>, vs: Seq<Sample>, i: int)
    ensures
        zipped(ts, vs).len() <= ts.len() && zipped(ts, vs).len() <= vs.len(),
        zipped(ts, vs).len() == ts.len() || zipped(ts, vs).len() == vs.len(),
        0 <= i < ts.len() && i < vs.len() ==> zipped(ts, vs)[i].t == ts[i] && zipped(ts, vs)[i].v
            == vs[i],
{
}

/// A channel is taken apart into exactly the instants and values that were put
/// in, whatever their bit patterns: the number of samples fits its field, and so
/// do the lengths of the two streams, which are compressed with zstd at level 3
/// and decompressed to what they were.
pub proof fn law_channel_read_back(ts: Seq<Sample>, vs: Seq<Sample>, t: Seq<u8>, v: Seq<u8>)
    requires
        0 < ts.len() <= u32::MAX,
        vs.len() == ts.len(),
        zstd_encoded(words_bytes(second_differences(ts)), 3) == Some(t),
        zstd_encoded(words_bytes(xors(vs)), 3) == Some(v),
        t.len() <= u32::MAX,
        v.len() <= u32::MAX,
        zstd_decoded(t) == Some(words_bytes(second_differences(ts))),
        zstd_decoded(v) == Some(words_bytes(xors(vs))),
    ensures
        storable(ts, vs),
        encoded_channel(ts, vs) == frame(ts[0], vs[0], ts.len() as u32, t, v),
        decodable(encoded_channel(ts, vs)),
        decoded_channel(encoded_channel(ts, vs)) == (ts, vs),
{
    let n = ts.len() as u32;
    lemma_frame(ts[0], vs[0], n, t, v);
    lemma_words_read_back(second_differences(ts));
    lemma_words_read_back(xors(vs));
    lemma_integrated(ts);
    lemma_unmasked(vs);
    if n == 1 {
        assert(ts =~= seq![ts[0]]);
        assert(vs =~= seq![vs[0]]);
    }
}

/// Which data can be taken apart: those that announce no sample, and those whose
/// streams lie inside the data and, where more than one sample is announced,
/// decompress to whole words, as far as they decompress at all.
pub proof fn law_decodable(data: Seq<u8>)
    requires
        data.len() >= 28,
        u32_at(data, 16) > 0,
    ensures
        ({
            let n = u32_at(data, 16);
            let at = 24 + u32_at(data, 20);
            let end = at + 4 + u32_at(data, at);
            let (t, v) = (data.subrange(24, at), data.subrange(at + 4, end));
            decodable(data) <==> at + 4 <= data.len() && end <= data.len() && (n > 1 ==> (
            zstd_decoded(t) matches Some(p) ==> p.len() % 8 == 0) && (zstd_decoded(
                v,
            ) matches Some(p) ==> p.len() % 8 == 0))
        }),
{
}

/// Instants are restored from their differences: they begin with the first one,
/// and their differences of differences are the words of the stream.  A single
/// sample, or a stream that was not decompressed, leaves the first one alone.
pub proof fn law_times_restored(first: Sample, n: u32, plain: Option<Seq<u8>>)
    ensures
        n <= 1 || plain is None ==> times_of(first, n, plain) == seq![first],
        n > 1 && plain is Some ==> {
            let (ts, words) = (times_of(first, n, plain), bytes_words(plain.unwrap()));
            &&& ts.len() == words.len() + 1
            &&& ts[0] == first
            &&& second_differences(ts) == words
        },
{
    if n > 1 && plain is Some {
        let words = bytes_words(plain.unwrap());
        let ts = integrated(first, words);
        let d = second_differences(ts);
        assert forall|i: int| 0 <= i < words.len() implies #[trigger] d[i] == words[i] by {
            assert(ts[i + 1] == instant_at(first, words, i + 1));
            assert(ts[i] == instant_at(first, words, i));
            assert(step_at(words, i + 1) == step_at(words, i).wrapping_add(words[i]));
            if i > 0 {
                assert(ts[i - 1] == instant_at(first, words, i - 1));
            } else {
                assert(step_at(words, 0) == 0);
            }
        }
        assert(d =~= words);
    }
}

/// Values are restored from their masks: they begin with the first one, and each
/// mask turns a value into the next one.  A single sample, or a stream that was
/// not decompressed, leaves the first one alone.
pub proof fn law_values_restored(first: Sample, n: u32, plain: Option<Seq<u8>>)
    ensures
        n <= 1 || plain is None ==> values_of(first, n, plain) == seq![first],
        n > 1 && plain is Some ==> {
            let (vs, words) = (values_of(first, n, plain), bytes_words(plain.unwrap()));
            &&& vs.len() == words.len() + 1
            &&& vs[0] == first
            &&& forall|i: int| 0 <= i < words.len() ==> vs[i + 1] == vs[i] ^ (#[trigger] words[i])
        },
{
    if n > 1 && plain is Some {
        let words = bytes_words(plain.unwrap());
        let vs = unmasked(first, words);
        assert forall|i: int| 0 <= i < words.len() implies vs[i + 1] == vs[i] ^ (
        #[trigger] words[i]) by {
            assert(vs[i + 1] == value_at(first, words, i + 1));
            assert(vs[i] == value_at(first, words, i));
        }
    }
}

} // verus!
