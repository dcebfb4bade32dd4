//! Samples: IEEE 754 doubles carried as bit patterns.
//!
//! A double's bit pattern determines how it compares with every other double.
//! The sign bit splits the patterns in two halves; within each half the
//! remaining 63 bits, read as an integer, grow with the magnitude.  Patterns
//! whose magnitude lies above that of infinity are the NaNs, which compare
//! false with everything.

use vstd::prelude::*;

verus! {

/// The bit pattern of a double.
pub type Sample = u64;

/// A sample in time: the instant and the value measured there.
#[derive(Clone, Copy, Debug, PartialEq, Eq, Structural)]
pub struct Point {
    pub t: Sample,
    pub v: Sample,
}

/// The sign bit.
pub const SIGN: Sample = 0x8000_0000_0000_0000;

/// Positive zero.
pub const ZERO: Sample = 0;

/// Positive infinity.
pub const INFINITY: Sample = 0x7ff0_0000_0000_0000;

/// Negative infinity.
pub const NEG_INFINITY: Sample = 0xfff0_0000_0000_0000;

/// The quiet NaN that stands for a missing sample.
pub const NAN: Sample = 0x7ff8_0000_0000_0000;

/// The largest finite double.
pub const LARGEST: Sample = 0x7fef_ffff_ffff_ffff;

/// The smallest (most negative) finite double.
pub const SMALLEST: Sample = 0xffef_ffff_ffff_ffff;

/// The pattern without its sign bit.
pub open spec fn magnitude(a: Sample) -> int {
    if a >= SIGN {
        a - SIGN
    } else {
        a as int
    }
}

/// Not a number.
pub open spec fn nan(a: Sample) -> bool {
    magnitude(a) > INFINITY
}

/// Neither infinite nor a NaN.
pub open spec fn finite(a: Sample) -> bool {
    magnitude(a) < INFINITY
}

/// The position of a number on the line of all doubles.  Both zeros are at 0.
pub open spec fn place(a: Sample) -> int {
    if a >= SIGN {
        -magnitude(a)
    } else {
        magnitude(a)
    }
}

/// `a < b` as doubles.
pub open spec fn below(a: Sample, b: Sample) -> bool {
    !nan(a) && !nan(b) && place(a) < place(b)
}

/// `a <= b` as doubles.
pub open spec fn at_most(a: Sample, b: Sample) -> bool {
    !nan(a) && !nan(b) && place(a) <= place(b)
}

/// `a == b` as doubles.
pub open spec fn same(a: Sample, b: Sample) -> bool {
    !nan(a) && !nan(b) && place(a) == place(b)
}

/// `x_min <= t <= x_max` as doubles.
pub open spec fn within(t: Sample, x_min: Sample, x_max: Sample) -> bool {
    at_most(x_min, t) && at_most(t, x_max)
}

/// The lesser of two doubles; a NaN gives way to the other one.
pub open spec fn lesser(a: Sample, b: Sample) -> Sample {
    if nan(a) {
        b
    } else if below(b, a) {
        b
    } else {
        a
    }
}

/// The greater of two doubles; a NaN gives way to the other one.
pub open spec fn greater(a: Sample, b: Sample) -> Sample {
    if nan(a) {
        b
    } else if below(a, b) {
        b
    } else {
        a
    }
}

/// The double with the opposite sign bit.
pub open spec fn negated(a: Sample) -> Sample {
    if a >= SIGN {
        (a - SIGN) as Sample
    } else {
        (a + SIGN) as Sample
    }
}

fn magnitude_bits(a: Sample) -> (m: u64)
    ensures
        m == magnitude(a),
{
    if a >= SIGN {
        a - SIGN
    } else {
        a
    }
}

/// Whether the sample is a NaN.
pub fn is_nan(a: Sample) -> (b: bool)
    ensures
        b == nan(a),
{
    magnitude_bits(a) > INFINITY
}

/// Whether the sample is neither infinite nor a NaN.
pub fn is_finite(a: Sample) -> (b: bool)
    ensures
        b == finite(a),
{
    magnitude_bits(a) < INFINITY
}

/// `a < b` as doubles.
pub fn lt(a: Sample, b: Sample) -> (r: bool)
    ensures
        r == below(a, b),
{
    let ma: u64 = magnitude_bits(a);
    let mb: u64 = magnitude_bits(b);
    if ma > INFINITY || mb > INFINITY {
        false
    } else if a >= SIGN {
        if b >= SIGN {
            mb < ma
        } else {
            ma > 0 || mb > 0
        }
    } else if b >= SIGN {
        false
    } else {
        ma < mb
    }
}

/// `a <= b` as doubles.
pub fn le(a: Sample, b: Sample) -> (r: bool)
    ensures
        r == at_most(a, b),
{
    if is_nan(a) || is_nan(b) {
        false
    } else {
        !lt(b, a)
    }
}

/// `a == b` as doubles.
pub fn eq(a: Sample, b: Sample) -> (r: bool)
    ensures
        r == same(a, b),
{
    le(a, b) && le(b, a)
}

/// `x_min <= t <= x_max` as doubles.
pub fn in_range(t: Sample, x_min: Sample, x_max: Sample) -> (r: bool)
    ensures
        r == within(t, x_min, x_max),
{
    le(x_min, t) && le(t, x_max)
}

/// The lesser of two doubles; a NaN gives way to the other one.
pub fn min(a: Sample, b: Sample) -> (r: Sample)
    ensures
        r == lesser(a, b),
{
    if is_nan(a) || lt(b, a) {
        b
    } else {
        a
    }
}

/// The greater of two doubles; a NaN gives way to the other one.
pub fn max(a: Sample, b: Sample) -> (r: Sample)
    ensures
        r == greater(a, b),
{
    if is_nan(a) || lt(a, b) {
        b
    } else {
        a
    }
}

/// The double with the opposite sign bit.
pub fn neg(a: Sample) -> (r: Sample)
    ensures
        r == negated(a),
{
    if a >= SIGN {
        a - SIGN
    } else {
        a + SIGN
    }
}

/// The absolute value.
pub fn abs(a: Sample) -> (r: Sample)
    ensures
        r == magnitude(a),
        r < SIGN,
{
    magnitude_bits(a)
}

/// Negating twice gives the sample back, and turns the order around.
pub proof fn law_negation(a: Sample, b: Sample)
    ensures
        negated(negated(a)) == a,
        nan(negated(a)) == nan(a),
        below(negated(a), negated(b)) == below(b, a),
{
}

/// `below` orders the numbers that are not NaN: of any two, one is below the
/// other or they are the same.
pub proof fn law_order(a: Sample, b: Sample, c: Sample)
    ensures
        !below(a, a),
        below(a, b) && below(b, c) ==> below(a, c),
        !nan(a) && !nan(b) ==> (below(a, b) || same(a, b) || below(b, a)),
        at_most(a, b) == (below(a, b) || same(a, b)),
{
}

/// What the bit patterns say.  The exponent bits are all set in infinities and
/// NaNs, and a NaN has other bits set as well.  Numbers without the sign bit grow
/// with their patterns, numbers with it shrink, and every one with it is below
/// every one without it, but for the two zeros, which are the same.
pub proof fn law_bit_patterns(a: Sample, b: Sample)
    ensures
        nan(a) <==> 0x7ff0_0000_0000_0000 < a < 0x8000_0000_0000_0000 || 0xfff0_0000_0000_0000 < a,
        finite(a) <==> a < 0x7ff0_0000_0000_0000 || 0x8000_0000_0000_0000 <= a
            < 0xfff0_0000_0000_0000,
        !nan(a) && !nan(b) ==> {
            let (m, n) = (a >= 0x8000_0000_0000_0000, b >= 0x8000_0000_0000_0000);
            &&& !m && !n ==> below(a, b) == (a < b)
            &&& m && n ==> below(a, b) == (b < a)
            &&& m && !n ==> below(a, b) == !(a == 0x8000_0000_0000_0000 && b == 0)
            &&& !m && n ==> !below(a, b)
        },
        nan(a) || nan(b) ==> !below(a, b) && !at_most(a, b) && !same(a, b),
{
}

/// The lesser of two numbers is one of them and not above either, the greater
/// one of them and not below either; a NaN gives way to the other sample.
pub proof fn law_lesser_greater(a: Sample, b: Sample)
    ensures
        !nan(a) && !nan(b) ==> {
            &&& at_most(lesser(a, b), a) && at_most(lesser(a, b), b)
            &&& lesser(a, b) == a || lesser(a, b) == b
            &&& at_most(a, greater(a, b)) && at_most(b, greater(a, b))
            &&& greater(a, b) == a || greater(a, b) == b
        },
        nan(a) ==> lesser(a, b) == b && greater(a, b) == b,
        nan(b) && !nan(a) ==> lesser(a, b) == a && greater(a, b) == a,
{
}

/// Negating changes the sign bit and nothing else, and the absolute value is the
/// sample or its negative, whichever has no sign bit.
pub proof fn law_sign(a: Sample)
    ensures
        negated(a) == a ^ 0x8000_0000_0000_0000,
        magnitude(a) == if a < 0x8000_0000_0000_0000 {
            a as int
        } else {
            negated(a) as int
        },
        magnitude(negated(a)) == magnitude(a),
        magnitude(a) < 0x8000_0000_0000_0000,
{
    assert(a >= 0x8000_0000_0000_0000 ==> a ^ 0x8000_0000_0000_0000 == a - 0x8000_0000_0000_0000)
        by (bit_vector);
    assert(a < 0x8000_0000_0000_0000 ==> a ^ 0x8000_0000_0000_0000 == a + 0x8000_0000_0000_0000)
        by (bit_vector);
}

} // verus!
