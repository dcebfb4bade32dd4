//! Samples in ascending order.

use crate::sample::{at_most, lt, nan, Sample};
use vstd::prelude::*;

verus! {

/// No sample is a NaN.
pub open spec fn no_nan(values: Seq<Sample>) -> bool {
    forall|i: int| 0 <= i < values.len() ==> !nan(#[trigger] values[i])
}

/// Each sample is at most the ones after it.
pub open spec fn ascending(values: Seq<Sample>) -> bool {
    forall|i: int, j: int|
        0 <= i <= j < values.len() ==> at_most(#[trigger] values[i], #[trigger] values[j])
}

/// Merges two ascending runs into one.
fn merge_runs(a: &Vec<Sample>, b: &Vec<Sample>) -> (out: Vec<Sample>)
    requires
        no_nan(a@),
        no_nan(b@),
        ascending(a@),
        ascending(b@),
    ensures
        no_nan(out@),
        ascending(out@),
        out@.to_multiset() == a@.to_multiset().add(b@.to_multiset()),
        out@.len() == a@.len() + b@.len(),
{
    broadcast use vstd::seq_lib::group_to_multiset_ensures;

    let mut out: Vec<Sample> = Vec::new();
    let mut i: usize = 0;
    let mut j: usize = 0;
    assert(out@ =~= Seq::<Sample>::empty());
    assert(a@.take(0) =~= Seq::<Sample>::empty());
    assert(b@.take(0) =~= Seq::<Sample>::empty());
    assert(out@.to_multiset() =~= a@.take(0).to_multiset().add(b@.take(0).to_multiset()));
    while i < a.len() || j < b.len()
        invariant
            i <= a@.len(),
            j <= b@.len(),
            no_nan(a@),
            no_nan(b@),
            ascending(a@),
            ascending(b@),
            no_nan(out@),
            ascending(out@),
            out@.len() == i + j,
            out@.to_multiset() == a@.take(i as int).to_multiset().add(
                b@.take(j as int).to_multiset(),
            ),
            forall|k: int|
                0 <= k < out@.len() && i < a@.len() ==> at_most(#[trigger] out@[k], a@[i as int]),
            forall|k: int|
                0 <= k < out@.len() && j < b@.len() ==> at_most(#[trigger] out@[k], b@[j as int]),
        decreases a@.len() - i + b@.len() - j,
    {
        broadcast use vstd::seq_lib::group_to_multiset_ensures;

        let ghost before = out@;
        if j >= b.len() || (i < a.len() && !lt(b[j], a[i])) {
            out.push(a[i]);
            assert(out@ =~= before.push(a@[i as int]));
            assert(a@.take(i + 1) =~= a@.take(i as int).push(a@[i as int]));
            i += 1;
        } else {
            out.push(b[j]);
            assert(out@ =~= before.push(b@[j as int]));
            assert(b@.take(j + 1) =~= b@.take(j as int).push(b@[j as int]));
            j += 1;
        }
        assert(out@.to_multiset() =~= a@.take(i as int).to_multiset().add(
            b@.take(j as int).to_multiset(),
        ));
    }
    assert(a@.take(i as int) =~= a@);
    assert(b@.take(j as int) =~= b@);
    out
}

/// Sorts samples in ascending order.
pub fn sort_samples(values: &[Sample]) -> (out: Vec<Sample>)
    requires
        no_nan(values@),
    ensures
        ascending(out@),
        no_nan(out@),
        out@.to_multiset() == values@.to_multiset(),
        out@.len() == values@.len(),
    decreases values@.len(),
{
    broadcast use vstd::seq_lib::group_to_multiset_ensures;

    let n: usize = values.len();
    if n <= 1 {
        let mut out: Vec<Sample> = Vec::new();
        out.extend_from_slice(values);
        assert(out@ =~= values@);
        return out;
    }
    let half: usize = n / 2;
    let left: &[Sample] = vstd::slice::slice_subrange(values, 0, half);
    let right: &[Sample] = vstd::slice::slice_subrange(values, half, n);
    assert(left@ + right@ =~= values@);
    let a: Vec<Sample> = sort_samples(left);
    let b: Vec<Sample> = sort_samples(right);
    proof {
        vstd::seq_lib::lemma_multiset_commutative(left@, right@);
    }
    merge_runs(&a, &b)
}

/// In ascending samples no sample is above a later one, and none is a NaN.
pub proof fn law_ascending(values: Seq<Sample>, i: int, j: int)
    requires
        ascending(values),
        0 <= i <= j < values.len(),
    ensures
        at_most(values[i], values[j]),
        !nan(values[i]),
{
}

/// Samples are free of NaNs if and only if each of them is a number.
pub proof fn law_no_nan(values: Seq<Sample>)
    ensures
        no_nan(values) <==> forall|i: int| 0 <= i < values.len() ==> !nan(#[trigger] values[i]),
{
}

} // verus!
