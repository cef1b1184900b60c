//! Sums and extremes of sequences of numbers.

use vstd::prelude::*;

use crate::arithmetic::integer;
use crate::binary64::Binary64;

verus! {

/// The bit pattern of negative zero, which leaves every number unchanged when it is added.
pub const NEG_ZERO_BITS: u64 = 0x8000_0000_0000_0000;

pub const INFINITY_BITS: u64 = 0x7ff0_0000_0000_0000;

pub const NEG_INFINITY_BITS: u64 = 0xfff0_0000_0000_0000;

/// The sum of the elements, added from the left.
pub open spec fn sum(s: Seq<Binary64>) -> Binary64
    decreases s.len(),
{
    if s.len() == 0 {
        Binary64 { bits: NEG_ZERO_BITS }
    } else {
        sum(s.drop_last()).plus(s.last())
    }
}

/// The largest element that is not a NaN, or negative infinity.
pub open spec fn greatest(s: Seq<Binary64>) -> Binary64
    decreases s.len(),
{
    if s.len() == 0 {
        Binary64 { bits: NEG_INFINITY_BITS }
    } else {
        greatest(s.drop_last()).larger(s.last())
    }
}

/// The smallest element that is not a NaN, or infinity.
pub open spec fn least(s: Seq<Binary64>) -> Binary64
    decreases s.len(),
{
    if s.len() == 0 {
        Binary64 { bits: INFINITY_BITS }
    } else {
        least(s.drop_last()).smaller(s.last())
    }
}

/// The mean: the sum divided by the number of elements.
pub open spec fn mean(s: Seq<Binary64>) -> Binary64 {
    sum(s).over(integer(s.len()))
}

/// Adds up the elements.
pub fn sum_of(values: &[Binary64]) -> (r: Binary64)
    ensures
        r == sum(values@),
{
    let mut total: Binary64 = Binary64 { bits: NEG_ZERO_BITS };
    let mut i: usize = 0;
    assert(values@.take(0) =~= Seq::<Binary64>::empty());
    while i < values.len()
        invariant
            i <= values@.len(),
            total == sum(values@.take(i as int)),
        decreases values@.len() - i,
    {
        assert(values@.take(i + 1).drop_last() =~= values@.take(i as int));
        total = total.add(values[i]);
        i = i + 1;
    }
    assert(values@.take(i as int) =~= values@);
    total
}

/// The largest element, ignoring NaNs.
pub fn max_of(values: &[Binary64]) -> (r: Binary64)
    ensures
        r == greatest(values@),
{
    let mut best: Binary64 = Binary64 { bits: NEG_INFINITY_BITS };
    let mut i: usize = 0;
    assert(values@.take(0) =~= Seq::<Binary64>::empty());
    while i < values.len()
        invariant
            i <= values@.len(),
            best == greatest(values@.take(i as int)),
        decreases values@.len() - i,
    {
        assert(values@.take(i + 1).drop_last() =~= values@.take(i as int));
        best = best.max(values[i]);
        i = i + 1;
    }
    assert(values@.take(i as int) =~= values@);
    best
}

/// The smallest element, ignoring NaNs.
pub fn min_of(values: &[Binary64]) -> (r: Binary64)
    ensures
        r == least(values@),
{
    let mut best: Binary64 = Binary64 { bits: INFINITY_BITS };
    let mut i: usize = 0;
    assert(values@.take(0) =~= Seq::<Binary64>::empty());
    while i < values.len()
        invariant
            i <= values@.len(),
            best == least(values@.take(i as int)),
        decreases values@.len() - i,
    {
        assert(values@.take(i + 1).drop_last() =~= values@.take(i as int));
        best = best.min(values[i]);
        i = i + 1;
    }
    assert(values@.take(i as int) =~= values@);
    best
}

/// The mean of the elements.
pub fn mean_of(values: &[Binary64]) -> (r: Binary64)
    ensures
        r == mean(values@),
{
    sum_of(values).div(Binary64::from_usize(values.len()))
}

} // verus!
