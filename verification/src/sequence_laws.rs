//! Laws of sums and extremes.

use vstd::prelude::*;

use crate::arithmetic::{integer, one_in_units};
use crate::arithmetic_laws::{
    law_over_at_most, law_over_one, law_plus_at_most, law_plus_negative_zero, law_plus_nonnegative,
    lemma_value_zero,
};
use crate::binary64::{lemma_units_order, Binary64, EXPONENT_UNIT, INFINITY_MAGNITUDE};
use crate::sequences::{greatest, least, mean, sum, INFINITY_BITS, NEG_INFINITY_BITS, NEG_ZERO_BITS};

verus! {

/// Whether every number is finite.
pub open spec fn all_finite(s: Seq<Binary64>) -> bool {
    forall|i: int| 0 <= i < s.len() ==> (#[trigger] s[i]).finite()
}

/// No element is above the greatest.
pub proof fn law_greatest(s: Seq<Binary64>, i: int)
    requires
        0 <= i < s.len(),
    ensures
        !greatest(s).nan(),
        !s[i].nan() ==> greatest(s).at_least(s[i]),
    decreases s.len(),
{
    lemma_greatest_ordered(s.drop_last());
    if i < s.len() - 1 {
        law_greatest(s.drop_last(), i);
        assert(s.drop_last()[i] == s[i]);
    }
}

proof fn lemma_greatest_ordered(s: Seq<Binary64>)
    ensures
        !greatest(s).nan(),
    decreases s.len(),
{
    if s.len() > 0 {
        lemma_greatest_ordered(s.drop_last());
    }
}

/// No element is below the least.
pub proof fn law_least(s: Seq<Binary64>, i: int)
    requires
        0 <= i < s.len(),
    ensures
        !least(s).nan(),
        !s[i].nan() ==> s[i].at_least(least(s)),
    decreases s.len(),
{
    lemma_least_ordered(s.drop_last());
    if i < s.len() - 1 {
        law_least(s.drop_last(), i);
        assert(s.drop_last()[i] == s[i]);
    }
}

proof fn lemma_least_ordered(s: Seq<Binary64>)
    ensures
        !least(s).nan(),
    decreases s.len(),
{
    if s.len() > 0 {
        lemma_least_ordered(s.drop_last());
    }
}

/// The greatest is one of the elements, if there is one that is not a NaN.
pub proof fn law_greatest_attained(s: Seq<Binary64>, i: int)
    requires
        0 <= i < s.len(),
        !s[i].nan(),
    ensures
        s.contains(greatest(s)),
    decreases s.len(),
{
    let t = s.drop_last();
    lemma_greatest_ordered(t);
    assert(s[s.len() - 1] == s.last());
    if exists|j: int| 0 <= j < t.len() && !(#[trigger] t[j]).nan() {
        let j = choose|j: int| 0 <= j < t.len() && !(#[trigger] t[j]).nan();
        law_greatest_attained(t, j);
        let k = choose|k: int| 0 <= k < t.len() && t[k] == greatest(t);
        assert(s[k] == greatest(t));
    } else {
        if i < s.len() - 1 {
            assert(t[i] == s[i]);
        }
        lemma_greatest_of_none(t);
        lemma_infinities_extreme(s.last());
    }
}

proof fn lemma_greatest_of_none(s: Seq<Binary64>)
    requires
        forall|j: int| 0 <= j < s.len() ==> (#[trigger] s[j]).nan(),
    ensures
        greatest(s) == (Binary64 { bits: NEG_INFINITY_BITS }),
    decreases s.len(),
{
    if s.len() > 0 {
        let t = s.drop_last();
        assert forall|j: int| 0 <= j < t.len() implies (#[trigger] t[j]).nan() by {
            assert(t[j] == s[j]);
        }
        lemma_greatest_of_none(t);
        assert(s[s.len() - 1].nan());
    }
}

proof fn lemma_least_of_none(s: Seq<Binary64>)
    requires
        forall|j: int| 0 <= j < s.len() ==> (#[trigger] s[j]).nan(),
    ensures
        least(s) == (Binary64 { bits: INFINITY_BITS }),
    decreases s.len(),
{
    if s.len() > 0 {
        let t = s.drop_last();
        assert forall|j: int| 0 <= j < t.len() implies (#[trigger] t[j]).nan() by {
            assert(t[j] == s[j]);
        }
        lemma_least_of_none(t);
        assert(s[s.len() - 1].nan());
    }
}

/// Every number lies between the infinities, which are the only numbers at these ends.
proof fn lemma_infinities_extreme(x: Binary64)
    requires
        !x.nan(),
    ensures
        ({
            let low = Binary64 { bits: NEG_INFINITY_BITS };
            let high = Binary64 { bits: INFINITY_BITS };
            &&& low.larger(x) == x
            &&& high.smaller(x) == x
        }),
{
    let m = x.magnitude();
    lemma_units_order(m, INFINITY_MAGNITUDE as nat);
    lemma_units_order(0, INFINITY_MAGNITUDE as nat);
    lemma_units_order(0, m);
}

/// The least is one of the elements, if there is one that is not a NaN.
pub proof fn law_least_attained(s: Seq<Binary64>, i: int)
    requires
        0 <= i < s.len(),
        !s[i].nan(),
    ensures
        s.contains(least(s)),
    decreases s.len(),
{
    let t = s.drop_last();
    lemma_least_ordered(t);
    assert(s[s.len() - 1] == s.last());
    if exists|j: int| 0 <= j < t.len() && !(#[trigger] t[j]).nan() {
        let j = choose|j: int| 0 <= j < t.len() && !(#[trigger] t[j]).nan();
        law_least_attained(t, j);
        let k = choose|k: int| 0 <= k < t.len() && t[k] == least(t);
        assert(s[k] == least(t));
    } else {
        if i < s.len() - 1 {
            assert(t[i] == s[i]);
        }
        lemma_least_of_none(t);
        lemma_infinities_extreme(s.last());
    }
}

/// Of zeros the greatest is negative only if all of them are.
proof fn lemma_greatest_sign(s: Seq<Binary64>, i: int)
    requires
        0 <= i < s.len(),
        !s[i].nan(),
        s[i].value() == greatest(s).value(),
        greatest(s).negative(),
    ensures
        s[i].negative(),
    decreases s.len(),
{
    let t = s.drop_last();
    lemma_greatest_ordered(t);
    if i < s.len() - 1 {
        assert(t[i] == s[i]);
        law_greatest(t, i);
        lemma_greatest_sign(t, i);
    }
}

/// Of zeros the least is positive only if all of them are.
proof fn lemma_least_sign(s: Seq<Binary64>, i: int)
    requires
        0 <= i < s.len(),
        !s[i].nan(),
        s[i].value() == least(s).value(),
        !least(s).negative(),
    ensures
        !s[i].negative(),
    decreases s.len(),
{
    let t = s.drop_last();
    lemma_least_ordered(t);
    if i < s.len() - 1 {
        assert(t[i] == s[i]);
        law_least(t, i);
        lemma_least_sign(t, i);
    }
}

/// Sequences with the same elements, in whatever order and number, have the same greatest and
/// least, to the bit.
pub proof fn law_extremes_ignore_order(s: Seq<Binary64>, t: Seq<Binary64>)
    requires
        forall|x: Binary64| #[trigger] s.contains(x) <==> t.contains(x),
    ensures
        greatest(s) == greatest(t),
        least(s) == least(t),
{
    if exists|i: int| 0 <= i < s.len() && !(#[trigger] s[i]).nan() {
        let i = choose|i: int| 0 <= i < s.len() && !(#[trigger] s[i]).nan();
        assert(s.contains(s[i]));
        let j = choose|j: int| 0 <= j < t.len() && t[j] == s[i];
        law_greatest_attained(s, i);
        law_greatest_attained(t, j);
        law_least_attained(s, i);
        law_least_attained(t, j);
        lemma_extremes_alike(s, t);
        lemma_extremes_alike(t, s);
        lemma_units_order(greatest(s).magnitude(), greatest(t).magnitude());
        lemma_units_order(least(s).magnitude(), least(t).magnitude());
    } else {
        assert forall|j: int| 0 <= j < t.len() implies (#[trigger] t[j]).nan() by {
            assert(t.contains(t[j]));
            assert(s.contains(t[j]));
            let i = choose|i: int| 0 <= i < s.len() && s[i] == t[j];
            assert(s[i].nan());
        }
        lemma_greatest_of_none(s);
        lemma_greatest_of_none(t);
        lemma_least_of_none(s);
        lemma_least_of_none(t);
    }
}

/// Extremes of `s` that are among the elements of `t` do not go beyond those of `t`.
proof fn lemma_extremes_alike(s: Seq<Binary64>, t: Seq<Binary64>)
    requires
        t.contains(greatest(s)),
        t.contains(least(s)),
    ensures
        greatest(t).value() >= greatest(s).value(),
        greatest(t).value() == greatest(s).value() && greatest(t).negative()
            ==> greatest(s).negative(),
        least(t).value() <= least(s).value(),
        least(t).value() == least(s).value() && !least(t).negative() ==> !least(s).negative(),
{
    lemma_greatest_ordered(s);
    lemma_least_ordered(s);
    let i = choose|i: int| 0 <= i < t.len() && t[i] == greatest(s);
    law_greatest(t, i);
    let j = choose|j: int| 0 <= j < t.len() && t[j] == least(s);
    law_least(t, j);
    if greatest(t).value() == greatest(s).value() && greatest(t).negative() {
        lemma_greatest_sign(t, i);
    }
    if least(t).value() == least(s).value() && !least(t).negative() {
        lemma_least_sign(t, j);
    }
}

/// Zeros add up to zero.
pub proof fn lemma_sum_of_zeros(s: Seq<Binary64>)
    requires
        forall|i: int| 0 <= i < s.len() ==> (#[trigger] s[i]).zero(),
    ensures
        sum(s).zero(),
    decreases s.len(),
{
    if s.len() > 0 {
        let t = s.drop_last();
        assert forall|i: int| 0 <= i < t.len() implies (#[trigger] t[i]).zero() by {
            assert(t[i] == s[i]);
        }
        lemma_sum_of_zeros(t);
        assert(s[s.len() - 1].zero());
        lemma_value_zero(sum(t));
        lemma_value_zero(s.last());
    }
}

/// Numbers that are at least zero add up to a number that is at least zero.
pub proof fn lemma_sum_nonnegative(s: Seq<Binary64>)
    requires
        forall|i: int| 0 <= i < s.len() ==> !(#[trigger] s[i]).nan() && s[i].value() >= 0,
    ensures
        !sum(s).nan(),
        sum(s).value() >= 0,
    decreases s.len(),
{
    if s.len() > 0 {
        let t = s.drop_last();
        assert forall|i: int| 0 <= i < t.len() implies !(#[trigger] t[i]).nan() && t[i].value()
            >= 0 by {
            assert(t[i] == s[i]);
        }
        lemma_sum_nonnegative(t);
        assert(s[s.len() - 1] == s.last());
        law_plus_nonnegative(sum(t), s.last());
    }
}

/// The mean of a single number is that number.
pub proof fn law_mean_of_one(x: Binary64)
    requires
        !x.nan(),
    ensures
        mean(seq![x]) == x,
{
    let s = seq![x];
    assert(s.drop_last() =~= Seq::<Binary64>::empty());
    assert(sum(s.drop_last()) == (Binary64 { bits: NEG_ZERO_BITS }));
    law_plus_negative_zero(x);
    law_over_one(x);
}

/// Whether every number lies between zero and one.
pub open spec fn all_in_unit_range(s: Seq<Binary64>) -> bool {
    forall|i: int|
        0 <= i < s.len() ==> !(#[trigger] s[i]).nan() && 0 <= s[i].value() <= one_in_units()
}

proof fn lemma_sum_in_range(s: Seq<Binary64>)
    requires
        all_in_unit_range(s),
        s.len() < 2 * EXPONENT_UNIT,
    ensures
        !sum(s).nan(),
        0 <= sum(s).value() <= s.len() * one_in_units(),
    decreases s.len(),
{
    if s.len() == 0 {
        assert(0 * one_in_units() == 0);
    } else {
        let t = s.drop_last();
        assert forall|i: int| 0 <= i < t.len() implies !(#[trigger] t[i]).nan() && 0
            <= t[i].value() <= one_in_units() by {
            assert(t[i] == s[i]);
        }
        lemma_sum_in_range(t);
        assert(s[s.len() - 1] == s.last());
        law_plus_at_most(sum(t), s.last(), t.len());
    }
}

/// The mean of numbers between zero and one lies between zero and one.
pub proof fn law_mean_in_unit_range(s: Seq<Binary64>)
    requires
        all_in_unit_range(s),
        0 < s.len() < 2 * EXPONENT_UNIT,
    ensures
        !mean(s).nan(),
        0 <= mean(s).value() <= one_in_units(),
{
    lemma_sum_in_range(s);
    law_over_at_most(sum(s), s.len());
}

/// Whether `p` holds the running sums of `s`: from negative zero on, each sum is the one before
/// plus the next element.
pub open spec fn is_running_sum(p: Seq<Binary64>, s: Seq<Binary64>) -> bool {
    &&& p.len() == s.len() + 1
    &&& p[0].bits == 0x8000_0000_0000_0000
    &&& forall|i: int| 0 <= i < s.len() ==> p[i + 1] == p[i].plus(#[trigger] s[i])
}

/// A sum is the last of the running sums, and a mean is that over the number of elements.
pub proof fn law_running_sum(p: Seq<Binary64>, s: Seq<Binary64>)
    requires
        is_running_sum(p, s),
    ensures
        sum(s) == p[s.len() as int],
        mean(s) == p[s.len() as int].over(integer(s.len())),
    decreases s.len(),
{
    if s.len() > 0 {
        let n = s.len() - 1;
        let (q, t) = (p.drop_last(), s.drop_last());
        assert forall|i: int| 0 <= i < t.len() implies q[i + 1] == q[i].plus(#[trigger] t[i]) by {
            assert(t[i] == s[i]);
        }
        law_running_sum(q, t);
        assert(p[n + 1] == p[n].plus(s[n]));
    }
}

/// Every sequence has running sums.
pub proof fn law_running_sum_exists(s: Seq<Binary64>) -> (p: Seq<Binary64>)
    ensures
        is_running_sum(p, s),
    decreases s.len(),
{
    if s.len() == 0 {
        seq![Binary64 { bits: 0x8000_0000_0000_0000 }]
    } else {
        let n = s.len() - 1;
        let q = law_running_sum_exists(s.drop_last());
        let p = q.push(q[n].plus(s[n]));
        assert forall|i: int| 0 <= i < s.len() implies p[i + 1] == p[i].plus(#[trigger] s[i]) by {
            if i < n {
                assert(s.drop_last()[i] == s[i]);
            }
        }
        p
    }
}

/// Whether `high` is an element of `s` that no element is above. NaNs do not count; if there is
/// nothing else, `high` is negative infinity.
pub open spec fn is_maximum(high: Binary64, s: Seq<Binary64>) -> bool {
    if forall|i: int| 0 <= i < s.len() ==> (#[trigger] s[i]).nan() {
        high.infinite() && high.negative()
    } else {
        &&& !high.nan()
        &&& exists|i: int| 0 <= i < s.len() && #[trigger] s[i] == high
        &&& forall|i: int|
            0 <= i < s.len() && !(#[trigger] s[i]).nan() ==> s[i].value() <= high.value()
    }
}

/// Whether `low` is an element of `s` that no element is below. NaNs do not count; if there is
/// nothing else, `low` is infinity.
pub open spec fn is_minimum(low: Binary64, s: Seq<Binary64>) -> bool {
    if forall|i: int| 0 <= i < s.len() ==> (#[trigger] s[i]).nan() {
        low.infinite() && !low.negative()
    } else {
        &&& !low.nan()
        &&& exists|i: int| 0 <= i < s.len() && #[trigger] s[i] == low
        &&& forall|i: int|
            0 <= i < s.len() && !(#[trigger] s[i]).nan() ==> s[i].value() >= low.value()
    }
}

/// The greatest is the maximum and the least is the minimum.
pub proof fn law_extremes(s: Seq<Binary64>)
    ensures
        is_maximum(greatest(s), s),
        is_minimum(least(s), s),
{
    if forall|i: int| 0 <= i < s.len() ==> (#[trigger] s[i]).nan() {
        lemma_greatest_of_none(s);
        lemma_least_of_none(s);
    } else {
        let k = choose|k: int| 0 <= k < s.len() && !(#[trigger] s[k]).nan();
        law_greatest_attained(s, k);
        law_least_attained(s, k);
        let (i, j) = (
            choose|i: int| 0 <= i < s.len() && s[i] == greatest(s),
            choose|j: int| 0 <= j < s.len() && s[j] == least(s),
        );
        assert(s[i] == greatest(s) && s[j] == least(s));
        lemma_greatest_ordered(s);
        lemma_least_ordered(s);
        assert forall|i: int| 0 <= i < s.len() && !(#[trigger] s[i]).nan() implies s[i].value()
            <= greatest(s).value() && s[i].value() >= least(s).value() by {
            law_greatest(s, i);
            law_least(s, i);
        }
    }
}

} // verus!
