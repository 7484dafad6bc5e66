//! Sums of integers, in which other modules state what their totals add up.
use vstd::prelude::*;

verus! {

/// The sum of `xs`.
pub open spec fn sum(xs: Seq<int>) -> int
    decreases xs.len(),
{
    if xs.len() == 0 {
        0
    } else {
        sum(xs.drop_last()) + xs.last()
    }
}

/// A sum is a sum: nothing sums to 0, one number to itself, and joined sequences to the sum of
/// their sums.
pub proof fn law_sum(a: Seq<int>, b: Seq<int>, x: int)
    ensures
        sum(Seq::empty()) == 0,
        sum(seq![x]) == x,
        sum(a + b) == sum(a) + sum(b),
    decreases b.len(),
{
    assert(seq![x].drop_last() =~= Seq::<int>::empty());
    assert(sum(Seq::empty()) == 0);
    if b.len() == 0 {
        assert(a + b =~= a);
    } else {
        law_sum(a, b.drop_last(), x);
        assert((a + b).drop_last() =~= a + b.drop_last());
    }
}

} // verus!
