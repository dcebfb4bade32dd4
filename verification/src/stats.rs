//! Aggregates of a channel over a run of samples.

use crate::sample::{at_most, below, finite, is_finite, lt, nan, Sample, INFINITY, NEG_INFINITY};
use vstd::prelude::*;

verus! {

/// Aggregates of one channel over one chunk.
///
/// Only finite samples count.  Over no sample at all the least one is
/// infinity and the greatest one negative infinity, so that merging with other
/// aggregates is safe.  The sum and the sum of squares are carried along as
/// the bit patterns that their owner computed.
#[derive(Clone, Copy, Debug, PartialEq, Eq, Structural)]
pub struct ChannelStats {
    pub min: Sample,
    pub max: Sample,
    pub sum: Sample,
    pub sum_sq: Sample,
    pub count: u64,
}

/// The finite samples, in order.
pub open spec fn finite_samples(values: Seq<Sample>) -> Seq<Sample>
    decreases values.len(),
{
    if values.len() == 0 {
        Seq::empty()
    } else if finite(values.last()) {
        finite_samples(values.drop_last()).push(values.last())
    } else {
        finite_samples(values.drop_last())
    }
}

/// The first least sample; infinity if there is none.
pub open spec fn least(values: Seq<Sample>) -> Sample
    decreases values.len(),
{
    if values.len() == 0 {
        INFINITY
    } else {
        let m = least(values.drop_last());
        if below(values.last(), m) {
            values.last()
        } else {
            m
        }
    }
}

/// The first greatest sample; negative infinity if there is none.
pub open spec fn greatest(values: Seq<Sample>) -> Sample
    decreases values.len(),
{
    if values.len() == 0 {
        NEG_INFINITY
    } else {
        let m = greatest(values.drop_last());
        if below(m, values.last()) {
            values.last()
        } else {
            m
        }
    }
}

/// The aggregates of a run of samples, given the two sums.
pub open spec fn stats_of(values: Seq<Sample>, sum: Sample, sum_sq: Sample) -> ChannelStats {
    let f = finite_samples(values);
    ChannelStats { min: least(f), max: greatest(f), sum, sum_sq, count: f.len() as u64 }
}

/// Two aggregates taken together, given the two new sums.  An aggregate over
/// no sample changes nothing.
pub open spec fn merged(a: ChannelStats, b: ChannelStats, sum: Sample, sum_sq: Sample) -> ChannelStats {
    if b.count == 0 {
        a
    } else {
        ChannelStats {
            min: if below(b.min, a.min) {
                b.min
            } else {
                a.min
            },
            max: if below(a.max, b.max) {
                b.max
            } else {
                a.max
            },
            sum,
            sum_sq,
            count: (a.count + b.count) as u64,
        }
    }
}

/// Keeps the finite samples, in order.
pub fn finite_values(values: &[Sample]) -> (out: Vec<Sample>)
    ensures
        out@ == finite_samples(values@),
{
    let mut out: Vec<Sample> = Vec::new();
    let mut i: usize = 0;
    while i < values.len()
        invariant
            i <= values@.len(),
            out@ == finite_samples(values@.take(i as int)),
        decreases values@.len() - i,
    {
        assert(values@.take(i + 1).drop_last() =~= values@.take(i as int));
        if is_finite(values[i]) {
            out.push(values[i]);
        }
        i += 1;
    }
    assert(values@.take(i as int) =~= values@);
    out
}

impl ChannelStats {
    /// The aggregate over no sample, whose two sums are positive zero.
    pub open spec fn none() -> ChannelStats {
        ChannelStats { min: INFINITY, max: NEG_INFINITY, sum: 0, sum_sq: 0, count: 0 }
    }

    /// The aggregate over no sample.
    pub fn empty() -> (s: ChannelStats)
        ensures
            s == ChannelStats::none(),
            s == stats_of(Seq::empty(), 0, 0),
    {
        ChannelStats { min: INFINITY, max: NEG_INFINITY, sum: 0, sum_sq: 0, count: 0 }
    }

    /// Aggregates one chunk's column, skipping samples that are not finite.
    /// The sums over the finite samples are the caller's.
    pub fn from_values(values: &[Sample], sum: Sample, sum_sq: Sample) -> (s: ChannelStats)
        ensures
            s == stats_of(values@, sum, sum_sq),
    {
        assert(values@.len() == values.len());
        let mut min: Sample = INFINITY;
        let mut max: Sample = NEG_INFINITY;
        let mut count: u64 = 0;
        let mut i: usize = 0;
        while i < values.len()
            invariant
                i <= values@.len(),
                count <= i,
                i <= u64::MAX,
                min == least(finite_samples(values@.take(i as int))),
                max == greatest(finite_samples(values@.take(i as int))),
                count == finite_samples(values@.take(i as int)).len(),
            decreases values@.len() - i,
        {
            let v: Sample = values[i];
            let ghost before = finite_samples(values@.take(i as int));
            assert(values@.take(i + 1).drop_last() =~= values@.take(i as int));
            if is_finite(v) {
                assert(before.push(v).drop_last() =~= before);
                if lt(v, min) {
                    min = v;
                }
                if lt(max, v) {
                    max = v;
                }
                count += 1;
            }
            i += 1;
        }
        assert(values@.take(i as int) =~= values@);
        ChannelStats { min, max, sum, sum_sq, count }
    }

    /// Combines another aggregate into this one.  The sums of the two
    /// aggregates' sums are the caller's.
    pub fn merge(&mut self, other: &ChannelStats, sum: Sample, sum_sq: Sample)
        requires
            old(self).count + other.count <= u64::MAX,
        ensures
            *final(self) == merged(*old(self), *other, sum, sum_sq),
    {
        if other.count == 0 {
            return;
        }
        if lt(other.min, self.min) {
            self.min = other.min;
        }
        if lt(self.max, other.max) {
            self.max = other.max;
        }
        self.sum = sum;
        self.sum_sq = sum_sq;
        self.count = self.count + other.count;
    }
}

/// The finite samples of two runs, one after the other, are the finite samples
/// of the joined run.
pub proof fn lemma_finite_samples_join(a: Seq<Sample>, b: Seq<Sample>)
    ensures
        finite_samples(a + b) == finite_samples(a) + finite_samples(b),
    decreases b.len(),
{
    if b.len() == 0 {
        assert(a + b =~= a);
        assert(finite_samples(a) + finite_samples(b) =~= finite_samples(a));
    } else {
        lemma_finite_samples_join(a, b.drop_last());
        assert((a + b).drop_last() =~= a + b.drop_last());
        assert((a + b).last() == b.last());
        assert(finite_samples(a + b) =~= finite_samples(a) + finite_samples(b));
    }
}

/// The extremes of finite samples are among them, and bound all of them.
pub proof fn lemma_extremes(f: Seq<Sample>)
    requires
        forall|i: int| 0 <= i < f.len() ==> finite(#[trigger] f[i]),
    ensures
        f.len() > 0 ==> f.contains(least(f)) && f.contains(greatest(f)),
        f.len() == 0 ==> least(f) == INFINITY && greatest(f) == NEG_INFINITY,
        !nan(least(f)) && !nan(greatest(f)),
        forall|i: int|
            0 <= i < f.len() ==> at_most(least(f), #[trigger] f[i]) && at_most(f[i], greatest(f)),
    decreases f.len(),
{
    if f.len() > 0 {
        let p = f.drop_last();
        lemma_extremes(p);
        assert(forall|i: int| 0 <= i < p.len() ==> p[i] == f[i]);
        assert(f[f.len() - 1] == f.last());
        if least(f) != f.last() {
            assert(p.len() > 0);
            let k = choose|k: int| 0 <= k < p.len() && p[k] == least(p);
            assert(f[k] == least(f));
        }
        if greatest(f) != f.last() {
            assert(p.len() > 0);
            let k = choose|k: int| 0 <= k < p.len() && p[k] == greatest(p);
            assert(f[k] == greatest(f));
        }
        assert forall|i: int| 0 <= i < f.len() implies at_most(least(f), #[trigger] f[i])
            && at_most(f[i], greatest(f)) by {
            if i < p.len() {
                assert(at_most(least(p), p[i]) && at_most(p[i], greatest(p)));
            }
        }
    }
}

/// Every sample kept by `finite_samples` is finite.
pub proof fn lemma_finite_samples_finite(values: Seq<Sample>)
    ensures
        forall|i: int|
            0 <= i < finite_samples(values).len() ==> finite(#[trigger] finite_samples(values)[i]),
        finite_samples(values).len() <= values.len(),
    decreases values.len(),
{
    if values.len() > 0 {
        lemma_finite_samples_finite(values.drop_last());
    }
}

/// Aggregates of parts are the aggregate of the whole: merging the aggregates
/// of two runs gives the extremes and the count of the joined run.
pub proof fn law_merge_joins(
    a: Seq<Sample>,
    b: Seq<Sample>,
    sum_a: Sample,
    sq_a: Sample,
    sum_b: Sample,
    sq_b: Sample,
    sum: Sample,
    sum_sq: Sample,
)
    requires
        a.len() + b.len() <= u64::MAX,
    ensures
        ({
            let m = merged(stats_of(a, sum_a, sq_a), stats_of(b, sum_b, sq_b), sum, sum_sq);
            let whole = stats_of(a + b, sum, sum_sq);
            &&& m.min == whole.min
            &&& m.max == whole.max
            &&& m.count == whole.count
        }),
{
    lemma_finite_samples_join(a, b);
    lemma_finite_samples_finite(a);
    lemma_finite_samples_finite(b);
    let (fa, fb) = (finite_samples(a), finite_samples(b));
    lemma_extremes_join(fa, fb);
    if fb.len() == 0 {
        assert(fa + fb =~= fa);
    }
}

pub proof fn lemma_extremes_join(a: Seq<Sample>, b: Seq<Sample>)
    requires
        forall|i: int| 0 <= i < a.len() ==> finite(#[trigger] a[i]),
        forall|i: int| 0 <= i < b.len() ==> finite(#[trigger] b[i]),
    ensures
        least(a + b) == if below(least(b), least(a)) {
            least(b)
        } else {
            least(a)
        },
        greatest(a + b) == if below(greatest(a), greatest(b)) {
            greatest(b)
        } else {
            greatest(a)
        },
    decreases b.len(),
{
    lemma_extremes(a);
    lemma_extremes(b);
    if b.len() == 0 {
        assert(a + b =~= a);
    } else {
        let p = b.drop_last();
        assert(forall|i: int| 0 <= i < p.len() ==> p[i] == b[i]);
        lemma_extremes(p);
        lemma_extremes_join(a, p);
        assert((a + b).drop_last() =~= a + p);
        assert((a + b).last() == b.last());
        assert(finite(b[b.len() - 1]));
    }
}

/// The finite samples are those that are neither infinite nor a NaN, in order.
pub proof fn law_finite_samples(values: Seq<Sample>)
    ensures
        finite_samples(values) == values.filter(|v: Sample| finite(v)),
    decreases values.len(),
{
    reveal(Seq::filter);
    if values.len() > 0 {
        law_finite_samples(values.drop_last());
    }
}

/// Aggregates tell of the finite samples alone: how many there are, and a least
/// and a greatest one among them; over none they are infinite, the least one
/// above the greatest one.  The sums are handed on.
pub proof fn law_aggregates(values: Seq<Sample>, sum: Sample, sum_sq: Sample)
    requires
        values.len() <= u64::MAX,
    ensures
        ({
            let s = stats_of(values, sum, sum_sq);
            let f = values.filter(|v: Sample| finite(v));
            &&& s.count == f.len()
            &&& s.sum == sum && s.sum_sq == sum_sq
            &&& f.len() > 0 ==> f.contains(s.min) && f.contains(s.max)
            &&& f.len() == 0 ==> s.min == 0x7ff0_0000_0000_0000u64 && s.max
                == 0xfff0_0000_0000_0000u64
            &&& forall|i: int|
                0 <= i < values.len() && finite(#[trigger] values[i]) ==> at_most(s.min, values[i])
                    && at_most(values[i], s.max)
        }),
{
    law_finite_samples(values);
    lemma_finite_samples_finite(values);
    let f = finite_samples(values);
    lemma_extremes(f);
    assert forall|i: int| 0 <= i < values.len() && finite(#[trigger] values[i]) implies at_most(
        least(f),
        values[i],
    ) && at_most(values[i], greatest(f)) by {
        broadcast use vstd::seq_lib::group_filter_ensures;

        assert(values.contains(values[i]));
        assert(f.contains(values[i]));
        let j = choose|j: int| 0 <= j < f.len() && f[j] == values[i];
        assert(at_most(least(f), f[j]));
    }
}

/// An aggregate over no sample changes no other, and two aggregates over samples
/// count the samples of both.
pub proof fn law_merge_counts(a: ChannelStats, b: ChannelStats, sum: Sample, sum_sq: Sample)
    requires
        a.count + b.count <= u64::MAX,
    ensures
        b.count == 0 ==> merged(a, b, sum, sum_sq) == a,
        b.count > 0 ==> {
            let m = merged(a, b, sum, sum_sq);
            &&& m.count == a.count + b.count
            &&& m.sum == sum && m.sum_sq == sum_sq
            &&& m.min == a.min || m.min == b.min
            &&& m.max == a.max || m.max == b.max
            &&& !nan(a.min) && !nan(b.min) ==> at_most(m.min, a.min) && at_most(m.min, b.min)
            &&& !nan(a.max) && !nan(b.max) ==> at_most(a.max, m.max) && at_most(b.max, m.max)
        },
{
}

/// The least of several samples is one of them and not above any of them, the
/// greatest one not below any of them; NaNs do not count, and without a number
/// they are infinite.
pub proof fn law_least_greatest(values: Seq<Sample>)
    ensures
        ({
            let (l, g) = (least(values), greatest(values));
            &&& l == 0x7ff0_0000_0000_0000u64 || values.contains(l)
            &&& g == 0xfff0_0000_0000_0000u64 || values.contains(g)
            &&& !nan(l) && !nan(g)
            &&& forall|i: int|
                0 <= i < values.len() && !nan(#[trigger] values[i]) ==> at_most(l, values[i])
                    && at_most(values[i], g)
        }),
    decreases values.len(),
{
    if values.len() > 0 {
        let p = values.drop_last();
        let n = p.len() as int;
        law_least_greatest(p);
        let (l, g) = (least(values), greatest(values));
        assert forall|i: int| 0 <= i < values.len() && !nan(#[trigger] values[i]) implies at_most(
            l,
            values[i],
        ) && at_most(values[i], g) by {
            if i < n {
                assert(p[i] == values[i]);
            }
        }
        if p.contains(least(p)) {
            let a = choose|a: int| 0 <= a < n && p[a] == least(p);
            assert(values[a] == least(p));
        }
        if p.contains(greatest(p)) {
            let a = choose|a: int| 0 <= a < n && p[a] == greatest(p);
            assert(values[a] == greatest(p));
        }
        assert(values[n] == values.last());
    }
}

} // verus!
