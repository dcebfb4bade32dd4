//! Lengths and choices of a spectrum analysis.

use vstd::prelude::*;

verus! {

/// The window applied before the transform.
#[derive(Clone, Copy, Debug, PartialEq, Eq, Structural)]
pub enum WindowType {
    Rectangle,
    Hanning,
    BlackmanHarris,
}

/// How magnitudes are shown.
#[derive(Clone, Copy, Debug, PartialEq, Eq, Structural)]
pub enum FftScale {
    /// In decibels.
    Db,
    /// As they are.
    Linear,
}

/// The most samples that are transformed.
pub const FFT_MAX_SAMPLES: usize = 131_072;

/// The fewest samples that are transformed.
pub const FFT_MIN_SAMPLES: usize = 4;

impl WindowType {
    /// The name of the window.
    pub fn label(&self) -> (s: &'static str)
        ensures
            s@ == (match *self {
                WindowType::Rectangle => "Rectangle"@,
                WindowType::Hanning => "Hanning"@,
                WindowType::BlackmanHarris => "Blackman-Harris"@,
            }),
    {
        match *self {
            WindowType::Rectangle => "Rectangle",
            WindowType::Hanning => "Hanning",
            WindowType::BlackmanHarris => "Blackman-Harris",
        }
    }
}

/// Two to some power.
pub open spec fn power_of_two(k: nat) -> nat
    decreases k,
{
    if k == 0 {
        1
    } else {
        2 * power_of_two((k - 1) as nat)
    }
}

/// How many of `n` samples are transformed; `None` where there are too few.
pub fn input_len(n: usize) -> (len: Option<usize>)
    ensures
        len == (if n < FFT_MIN_SAMPLES {
            None::<usize>
        } else if n > FFT_MAX_SAMPLES {
            Some(FFT_MAX_SAMPLES)
        } else {
            Some(n)
        }),
        len is None <==> n < 4,
        len matches Some(l) ==> l <= n && l <= 131_072 && (l == n || l == 131_072),
{
    if n < FFT_MIN_SAMPLES {
        None
    } else if n > FFT_MAX_SAMPLES {
        Some(FFT_MAX_SAMPLES)
    } else {
        Some(n)
    }
}

/// The length of a transform: samples are padded with zeros up to the next
/// power of two.
pub fn transform_len(n: usize) -> (len: usize)
    requires
        1 <= n <= FFT_MAX_SAMPLES,
    ensures
        exists|k: nat| len == power_of_two(k),
        n <= len < 2 * n,
{
    let mut len: usize = 1;
    let ghost mut k: nat = 0;
    while len < n
        invariant
            1 <= n <= FFT_MAX_SAMPLES,
            len == power_of_two(k),
            1 <= len < 2 * n,
        decreases 2 * n - len,
    {
        len = len * 2;
        proof {
            k = k + 1;
        }
    }
    len
}

/// How many frequencies a transform of some length gives: those from zero up to
/// half the sample rate.
pub fn spectrum_len(transform_len: usize) -> (n: usize)
    requires
        transform_len >= 2,
    ensures
        n == transform_len / 2 + 1,
{
    transform_len / 2 + 1
}

/// Twice as long with every step, from one on.
pub proof fn law_power_of_two(k: nat)
    ensures
        power_of_two(k) == vstd::arithmetic::power2::pow2(k),
    decreases k,
{
    if k == 0 {
        vstd::arithmetic::power2::lemma2_to64();
    } else {
        law_power_of_two((k - 1) as nat);
        vstd::arithmetic::power2::lemma_pow2_unfold(k);
    }
}

} // verus!
