//! Units in which times and voltages are entered.

use vstd::prelude::*;

verus! {

/// A unit of time.
#[derive(Clone, Copy, Debug, PartialEq, Eq, Structural)]
pub enum TimeUnit {
    Ps,
    Ns,
    Us,
    Ms,
    S,
}

impl TimeUnit {
    /// The abbreviation of the unit.
    pub fn suffix(&self) -> (s: &'static str)
        ensures
            s@ == (match *self {
                TimeUnit::Ps => "ps"@,
                TimeUnit::Ns => "ns"@,
                TimeUnit::Us => "μs"@,
                TimeUnit::Ms => "ms"@,
                TimeUnit::S => "s"@,
            }),
    {
        match *self {
            TimeUnit::Ps => "ps",
            TimeUnit::Ns => "ns",
            TimeUnit::Us => "μs",
            TimeUnit::Ms => "ms",
            TimeUnit::S => "s",
        }
    }

    /// All units, from the smallest to the largest.
    pub fn all() -> (units: &'static [TimeUnit])
        ensures
            units@ == seq![
                TimeUnit::Ps,
                TimeUnit::Ns,
                TimeUnit::Us,
                TimeUnit::Ms,
                TimeUnit::S,
            ],
    {
        &[TimeUnit::Ps, TimeUnit::Ns, TimeUnit::Us, TimeUnit::Ms, TimeUnit::S]
    }
}

/// A unit of voltage.
#[derive(Clone, Copy, Debug, PartialEq, Eq, Structural)]
pub enum VoltageUnit {
    V,
    Mv,
}

impl VoltageUnit {
    /// The abbreviation of the unit.
    pub fn suffix(&self) -> (s: &'static str)
        ensures
            s@ == (match *self {
                VoltageUnit::V => "V"@,
                VoltageUnit::Mv => "mV"@,
            }),
    {
        match *self {
            VoltageUnit::V => "V",
            VoltageUnit::Mv => "mV",
        }
    }

    /// All units.
    pub fn all() -> (units: &'static [VoltageUnit])
        ensures
            units@ == seq![VoltageUnit::V, VoltageUnit::Mv],
    {
        &[VoltageUnit::V, VoltageUnit::Mv]
    }
}

} // verus!
