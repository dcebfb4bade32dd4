//! Channels that are computed from one or two others.

use crate::sample::{
    abs, below, law_negation, law_sign, magnitude, neg, negated, Point, Sample,
};
use crate::text::texts;
use vstd::prelude::*;
use vstd::string::*;

verus! {

/// The operations that give a channel.
#[derive(Clone, Copy, Debug, PartialEq, Eq, Structural)]
pub enum MathOp {
    Add,
    Subtract,
    Multiply,
    Invert,
    Abs,
    Derivative,
    Integral,
}

impl MathOp {
    /// Whether the operation takes two channels.
    pub fn needs_source_b(&self) -> (b: bool)
        ensures
            b == (*self == MathOp::Add || *self == MathOp::Subtract || *self == MathOp::Multiply),
    {
        matches!(*self, MathOp::Add | MathOp::Subtract | MathOp::Multiply)
    }

    /// All operations, in the order in which they are offered.
    pub fn all() -> (ops: &'static [MathOp])
        ensures
            ops@ == seq![
                MathOp::Add,
                MathOp::Subtract,
                MathOp::Multiply,
                MathOp::Invert,
                MathOp::Abs,
                MathOp::Derivative,
                MathOp::Integral,
            ],
    {
        &[
            MathOp::Add,
            MathOp::Subtract,
            MathOp::Multiply,
            MathOp::Invert,
            MathOp::Abs,
            MathOp::Derivative,
            MathOp::Integral,
        ]
    }

    /// The name of the operation.
    pub open spec fn name(self) -> Seq<char> {
        match self {
            MathOp::Add => "Add"@,
            MathOp::Subtract => "Subtract"@,
            MathOp::Multiply => "Multiply"@,
            MathOp::Invert => "Invert"@,
            MathOp::Abs => "Abs"@,
            MathOp::Derivative => "Derivative"@,
            MathOp::Integral => "Integral"@,
        }
    }

    /// The name of the operation.
    pub fn label(&self) -> (s: &'static str)
        ensures
            s@ == self.name(),
    {
        match *self {
            MathOp::Add => "Add",
            MathOp::Subtract => "Subtract",
            MathOp::Multiply => "Multiply",
            MathOp::Invert => "Invert",
            MathOp::Abs => "Abs",
            MathOp::Derivative => "Derivative",
            MathOp::Integral => "Integral",
        }
    }
}

/// The name of a channel; a question mark if there is no such channel.
pub open spec fn name_or_unknown(names: Seq<Seq<char>>, i: int) -> Seq<char> {
    if 0 <= i < names.len() {
        names[i]
    } else {
        "?"@
    }
}

fn channel_name_at(names: &[String], i: usize) -> (name: &str)
    ensures
        name@ == name_or_unknown(texts(names@), i as int),
{
    if i < names.len() {
        names[i].as_str()
    } else {
        "?"
    }
}

/// Three operands of one row: the instant and the two values.
#[derive(Clone, Copy, Debug, PartialEq, Eq, Structural)]
pub struct Operands {
    pub t: Sample,
    pub a: Sample,
    pub b: Sample,
}

/// A channel that is computed from others.
#[derive(Clone, Copy, Debug, PartialEq, Eq, Structural)]
pub struct MathChannelDef {
    pub operation: MathOp,
    pub source_a: usize,
    pub source_b: Option<usize>,
}

impl MathChannelDef {
    /// The second channel; the first of all channels where none is given.
    pub open spec fn second(self) -> usize {
        match self.source_b {
            Some(b) => b,
            None => 0,
        }
    }

    /// The name of the channel, over the names of the channels it is computed
    /// from.
    pub open spec fn shown_name(self, names: Seq<Seq<char>>) -> Seq<char> {
        let a = name_or_unknown(names, self.source_a as int);
        let b = name_or_unknown(names, self.second() as int);
        match self.operation {
            MathOp::Add => a + "+"@ + b,
            MathOp::Subtract => a + "-"@ + b,
            MathOp::Multiply => a + "*"@ + b,
            MathOp::Invert => "-"@ + a,
            MathOp::Abs => "|"@ + a + "|"@,
            MathOp::Derivative => "d("@ + a + ")/dt"@,
            MathOp::Integral => "int("@ + a + ")"@,
        }
    }

    /// The second channel; the first of all channels where none is given.
    pub fn second_source(&self) -> (b: usize)
        ensures
            b == self.second(),
    {
        match self.source_b {
            Some(b) => b,
            None => 0,
        }
    }

    /// The name of the channel, such as `CH1+CH2` or `d(CH1)/dt`.
    pub fn display_name(&self, channel_names: &[String]) -> (name: String)
        ensures
            name@ == self.shown_name(texts(channel_names@)),
    {
        let a: &str = channel_name_at(channel_names, self.source_a);
        let b: &str = channel_name_at(channel_names, self.second_source());
        let mut name: String = String::new();
        match self.operation {
            MathOp::Add => {
                name.append(a);
                name.append("+");
                name.append(b);
            },
            MathOp::Subtract => {
                name.append(a);
                name.append("-");
                name.append(b);
            },
            MathOp::Multiply => {
                name.append(a);
                name.append("*");
                name.append(b);
            },
            MathOp::Invert => {
                name.append("-");
                name.append(a);
            },
            MathOp::Abs => {
                name.append("|");
                name.append(a);
                name.append("|");
            },
            MathOp::Derivative => {
                name.append("d(");
                name.append(a);
                name.append(")/dt");
            },
            MathOp::Integral => {
                name.append("int(");
                name.append(a);
                name.append(")");
            },
        }
        assert(name@ =~= self.shown_name(texts(channel_names@)));
        name
    }

    /// The operands of an operation on two channels: rows are paired up by
    /// their position, with the instants of the first channel, as far as both
    /// channels go.
    pub fn compute_binary(&self, pts_a: &[Point], pts_b: &[Point]) -> (rows: Vec<Operands>)
        ensures
            rows@ == Seq::new(
                if pts_a@.len() <= pts_b@.len() {
                    pts_a@.len()
                } else {
                    pts_b@.len()
                },
                |i: int| Operands { t: pts_a@[i].t, a: pts_a@[i].v, b: pts_b@[i].v },
            ),
    {
        let n: usize = if pts_a.len() <= pts_b.len() {
            pts_a.len()
        } else {
            pts_b.len()
        };
        let mut rows: Vec<Operands> = Vec::new();
        let mut i: usize = 0;
        while i < n
            invariant
                i <= n,
                n <= pts_a@.len(),
                n <= pts_b@.len(),
                rows@ == Seq::new(
                    i as nat,
                    |k: int| Operands { t: pts_a@[k].t, a: pts_a@[k].v, b: pts_b@[k].v },
                ),
            decreases n - i,
        {
            rows.push(Operands { t: pts_a[i].t, a: pts_a[i].v, b: pts_b[i].v });
            i += 1;
            assert(rows@ =~= Seq::new(
                i as nat,
                |k: int| Operands { t: pts_a@[k].t, a: pts_a@[k].v, b: pts_b@[k].v },
            ));
        }
        rows
    }

    /// The value that an operation on one channel gives for a sample; `None` for
    /// operations that need its neighbours too.  Operations on two channels leave
    /// the first one as it is.
    pub open spec fn mapped(self, v: Sample) -> Option<Sample> {
        match self.operation {
            MathOp::Invert => Some(negated(v)),
            MathOp::Abs => Some(magnitude(v) as Sample),
            MathOp::Derivative | MathOp::Integral => None,
            _ => Some(v),
        }
    }

    /// Whether an operation needs no neighbours of a sample.
    pub open spec fn sample_wise(self) -> bool {
        self.operation != MathOp::Derivative && self.operation != MathOp::Integral
    }

    /// An operation on one channel, sample by sample; `None` for operations that
    /// need neighbouring samples too.
    pub fn compute_unary(&self, pts: &[Point]) -> (out: Option<Vec<Point>>)
        ensures
            out is Some == self.sample_wise(),
            out matches Some(points) ==> points@ == Seq::new(
                pts@.len(),
                |i: int| Point { t: pts@[i].t, v: self.mapped(pts@[i].v).unwrap() },
            ),
    {
        if self.operation == MathOp::Derivative || self.operation == MathOp::Integral {
            return None;
        }
        let mut out: Vec<Point> = Vec::new();
        let mut i: usize = 0;
        while i < pts.len()
            invariant
                i <= pts@.len(),
                self.sample_wise(),
                out@ == Seq::new(
                    i as nat,
                    |k: int| Point { t: pts@[k].t, v: self.mapped(pts@[k].v).unwrap() },
                ),
            decreases pts@.len() - i,
        {
            let v: Sample = match self.operation {
                MathOp::Invert => neg(pts[i].v),
                MathOp::Abs => abs(pts[i].v),
                _ => pts[i].v,
            };
            out.push(Point { t: pts[i].t, v });
            i += 1;
            assert(out@ =~= Seq::new(
                i as nat,
                |k: int| Point { t: pts@[k].t, v: self.mapped(pts@[k].v).unwrap() },
            ));
        }
        Some(out)
    }
}

/// Inverting twice gives the samples back, and the absolute value of a sample
/// and of its inverse are the same.
pub proof fn law_inversion(v: Sample, invert: MathChannelDef, absolute: MathChannelDef)
    requires
        invert.operation == MathOp::Invert,
        absolute.operation == MathOp::Abs,
    ensures
        invert.mapped(invert.mapped(v).unwrap()) == Some(v),
        absolute.mapped(invert.mapped(v).unwrap()) == absolute.mapped(v),
        absolute.mapped(absolute.mapped(v).unwrap()) == absolute.mapped(v),
{
}

/// Inverting mirrors a waveform: what was below is above.  The absolute value is
/// the sample itself or its inverse, whichever is not below zero, and other
/// operations on a single sample leave it as it is.
pub proof fn law_mapped(op: MathChannelDef, v: Sample, w: Sample)
    ensures
        op.operation == MathOp::Invert ==> (op.mapped(v) matches Some(x) && op.mapped(w) matches Some(
            y,
        ) && below(x, y) == below(w, v) && x == v ^ 0x8000_0000_0000_0000),
        op.operation == MathOp::Abs ==> (op.mapped(v) matches Some(x) && !below(x, 0) && (x == v || x
            == v ^ 0x8000_0000_0000_0000)),
        op.operation == MathOp::Add || op.operation == MathOp::Subtract || op.operation
            == MathOp::Multiply ==> op.mapped(v) == Some(v),
        op.operation == MathOp::Derivative || op.operation == MathOp::Integral ==> op.mapped(
            v,
        ) is None,
{
    law_negation(v, w);
    law_sign(v);
    law_sign(w);
}

/// A computed channel is named after its operation and its sources, the first one
/// first; a source that does not exist is a question mark, and a second source
/// that is not given is the first channel of all.
pub proof fn law_shown_name(d: MathChannelDef, names: Seq<Seq<char>>)
    ensures
        ({
            let a = if d.source_a < names.len() {
                names[d.source_a as int]
            } else {
                seq!['?']
            };
            let k = match d.source_b {
                Some(k) => k as int,
                None => 0,
            };
            let b = if k < names.len() {
                names[k]
            } else {
                seq!['?']
            };
            d.shown_name(names) == match d.operation {
                MathOp::Add => a + seq!['+'] + b,
                MathOp::Subtract => a + seq!['-'] + b,
                MathOp::Multiply => a + seq!['*'] + b,
                MathOp::Invert => seq!['-'] + a,
                MathOp::Abs => seq!['|'] + a + seq!['|'],
                MathOp::Derivative => seq!['d', '('] + a + seq![')', '/', 'd', 't'],
                MathOp::Integral => seq!['i', 'n', 't', '('] + a + seq![')'],
            }
        }),
{
    reveal_strlit("?");
    reveal_strlit("+");
    reveal_strlit("-");
    reveal_strlit("*");
    reveal_strlit("|");
    reveal_strlit("d(");
    reveal_strlit(")/dt");
    reveal_strlit("int(");
    reveal_strlit(")");
    assert("?"@ =~= seq!['?'] && "+"@ =~= seq!['+'] && "-"@ =~= seq!['-'] && "*"@ =~= seq!['*']);
    assert("|"@ =~= seq!['|'] && "d("@ =~= seq!['d', '('] && ")"@ =~= seq![')']);
    assert(")/dt"@ =~= seq![')', '/', 'd', 't'] && "int("@ =~= seq!['i', 'n', 't', '(']);
}

} // verus!
