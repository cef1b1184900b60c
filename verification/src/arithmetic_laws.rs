//! Laws of the arithmetic.

use vstd::arithmetic::power2::{lemma_pow2_adds, lemma_pow2_pos, pow2};
use vstd::prelude::*;

use crate::arithmetic::{integer, one_in_units};
use crate::binary64::{
    lemma_units_of_scaled, lemma_units_order, signed_magnitude, units, Binary64, EXPONENT_UNIT,
    INFINITY_MAGNITUDE,
};
use crate::rounding::{
    lemma_rounded_at_least, lemma_rounded_at_most, lemma_rounded_exact, lemma_rounded_nearest,
    lemma_rounded_ordered, rounded, Exact,
};
use crate::sequences::NEG_ZERO_BITS;

verus! {

/// A rounded result has the given sign and is not a NaN.
proof fn lemma_rounded_parts(negative: bool, x: Exact)
    requires
        x.well_formed(),
    ensures
        rounded(x) <= INFINITY_MAGNITUDE,
        signed_magnitude(negative, rounded(x)).negative() == negative,
        signed_magnitude(negative, rounded(x)).magnitude() == rounded(x),
        !signed_magnitude(negative, rounded(x)).nan(),
{
    lemma_rounded_nearest(x);
}

proof fn lemma_one_positive()
    ensures
        one_in_units() > 0,
{
    lemma_pow2_pos(1074);
}

/// Only zeros have the value zero.
pub proof fn lemma_value_zero(x: Binary64)
    ensures
        x.value() == 0 <==> x.zero(),
        x.negative() && !x.zero() ==> x.value() < 0,
        !x.negative() && !x.zero() ==> x.value() > 0,
{
    lemma_units_order(0, x.magnitude());
}

/// Addition is commutative.
pub proof fn law_plus_commutes(a: Binary64, b: Binary64)
    ensures
        a.plus(b) == b.plus(a),
{
}

/// Multiplication is commutative.
pub proof fn law_times_commutes(a: Binary64, b: Binary64)
    ensures
        a.times(b) == b.times(a),
{
    let (u, v) = (units(a.magnitude()), units(b.magnitude()));
    assert(u * v == v * u) by (nonlinear_arith);
}

/// Adding negative zero changes no number.
pub proof fn law_plus_negative_zero(a: Binary64)
    requires
        !a.nan(),
    ensures
        a.plus(Binary64 { bits: NEG_ZERO_BITS }) == a,
        (Binary64 { bits: NEG_ZERO_BITS }).plus(a) == a,
{
    let z = Binary64 { bits: NEG_ZERO_BITS };
    law_plus_commutes(a, z);
    lemma_value_zero(a);
    if a.finite() && !a.zero() {
        let m = a.magnitude();
        let x = Exact::Ratio { dividend: units(m), divisor: 1 };
        assert(x.twice_against(2 * units(m)) == 0) by {
            assert(1 * (2 * units(m)) == 2 * units(m));
        }
        lemma_rounded_exact(x, m);
    }
}

/// Adding a zero of either sign changes no number's value.
pub proof fn law_plus_zero(a: Binary64, z: Binary64)
    requires
        !a.nan(),
        z.zero(),
    ensures
        a.plus(z).equals(a),
{
    lemma_value_zero(a);
    lemma_value_zero(z);
    if a.finite() && !a.zero() {
        let m = a.magnitude();
        let x = Exact::Ratio { dividend: units(m), divisor: 1 };
        assert(x.twice_against(2 * units(m)) == 0) by {
            assert(1 * (2 * units(m)) == 2 * units(m));
        }
        lemma_rounded_exact(x, m);
    }
}

/// Multiplying by one changes no number.
pub proof fn law_times_one(a: Binary64)
    requires
        !a.nan(),
    ensures
        a.times(integer(1)) == a,
{
    lemma_integer_exact(1);
    lemma_one_positive();
    if a.finite() {
        let m = a.magnitude();
        let one = one_in_units();
        let x = Exact::Ratio { dividend: units(m) * one, divisor: one };
        assert(2 * (units(m) * one) == one * (2 * units(m))) by (nonlinear_arith);
        lemma_rounded_exact(x, m);
        assert(units(integer(1).magnitude()) == one);
    }
}

/// Dividing by one changes no number.
pub proof fn law_over_one(a: Binary64)
    requires
        !a.nan(),
    ensures
        a.over(integer(1)) == a,
{
    lemma_integer_exact(1);
    lemma_one_positive();
    if a.finite() {
        let m = a.magnitude();
        let one = one_in_units();
        let x = Exact::Ratio { dividend: units(m) * one, divisor: one };
        assert(2 * (units(m) * one) == one * (2 * units(m))) by (nonlinear_arith);
        lemma_rounded_exact(x, m);
        assert(units(integer(1).magnitude()) == one);
    }
}

/// A finite number times zero is a zero.
pub proof fn law_times_zero(a: Binary64, z: Binary64)
    requires
        a.finite(),
        z.zero(),
    ensures
        a.times(z).zero(),
{
    let one = one_in_units();
    let x = Exact::Ratio { dividend: units(a.magnitude()) * units(0), divisor: one };
    lemma_one_positive();
    assert(units(a.magnitude()) * units(0) == 0) by (nonlinear_arith)
        requires
            units(0) == 0,
    ;
    assert(one * 0 == 0);
    lemma_rounded_exact(x, 0);
}

/// A finite number minus itself is positive zero.
pub proof fn law_minus_self(a: Binary64)
    requires
        a.finite(),
    ensures
        a.minus(a) == (Binary64 { bits: 0 }),
{
    let b = a.negated();
    assert(b.magnitude() == a.magnitude());
}

/// Turning a difference round changes its sign only.
pub proof fn law_minus_reversed(a: Binary64, b: Binary64)
    ensures
        a.minus(b).magnitude() == b.minus(a).magnitude(),
{
    let c = b.negated();
    let d = a.negated();
    assert(c.magnitude() == b.magnitude() && c.negative() == !b.negative());
    assert(d.magnitude() == a.magnitude() && d.negative() == !a.negative());
    assert(a.value() + c.value() == -(b.value() + d.value()));
    if a.finite() && b.finite() {
        let v = a.value() + c.value();
        let x = Exact::Ratio {
            dividend: (if v < 0 {
                -v
            } else {
                v
            }) as nat,
            divisor: 1,
        };
        lemma_rounded_parts(true, x);
        lemma_rounded_parts(false, x);
    }
}

/// Two differences of one magnitude have one square, which is not negative.
pub proof fn law_square(a: Binary64, b: Binary64)
    requires
        a.magnitude() == b.magnitude(),
    ensures
        a.times(a) == b.times(b),
        !a.times(a).negative(),
        !a.nan() ==> !a.times(a).nan(),
{
    let u = units(a.magnitude());
    lemma_one_positive();
    lemma_rounded_parts(false, Exact::Ratio { dividend: u * u, divisor: one_in_units() });
}

/// A finite difference of finite numbers, or an infinity: never a NaN.
pub proof fn law_minus_finite(a: Binary64, b: Binary64)
    requires
        a.finite(),
        b.finite(),
    ensures
        !a.minus(b).nan(),
{
    let c = b.negated();
    assert(c.magnitude() == b.magnitude());
    let v = a.value() + c.value();
    lemma_rounded_parts(true, Exact::Ratio { dividend: (-v) as nat, divisor: 1 });
    lemma_rounded_parts(false, Exact::Ratio { dividend: v as nat, divisor: 1 });
}

/// The sum of numbers that are at least zero is at least zero.
pub proof fn law_plus_nonnegative(a: Binary64, b: Binary64)
    requires
        !a.nan() && a.value() >= 0,
        !b.nan() && b.value() >= 0,
    ensures
        !a.plus(b).nan(),
        a.plus(b).value() >= 0,
{
    lemma_value_zero(a);
    lemma_value_zero(b);
    let v = a.value() + b.value();
    let x = Exact::Ratio { dividend: v as nat, divisor: 1 };
    lemma_rounded_parts(false, x);
    lemma_value_zero(a.plus(b));
}

/// The root of a number that is at least zero is at least zero.
pub proof fn law_root_nonnegative(a: Binary64)
    requires
        !a.nan() && a.value() >= 0,
    ensures
        !a.root().nan(),
        a.root().value() >= 0,
{
    lemma_value_zero(a);
    lemma_rounded_parts(
        false,
        Exact::Root { square: units(a.magnitude()) * one_in_units() },
    );
    lemma_value_zero(a.root());
}

/// Adding a number that is at least zero to another such number does not lower it.
pub proof fn law_plus_not_lower(a: Binary64, b: Binary64)
    requires
        !a.nan() && a.value() >= 0,
        !b.nan() && b.value() >= 0,
    ensures
        a.plus(b).at_least(a),
{
    law_plus_nonnegative(a, b);
    lemma_value_zero(a);
    lemma_value_zero(b);
    let v = a.value() + b.value();
    if a.finite() && b.finite() && v > 0 {
        let m = a.magnitude();
        let x = Exact::Ratio { dividend: v as nat, divisor: 1 };
        assert(1 * (2 * units(m)) == 2 * units(m));
        lemma_rounded_at_least(x, m);
        lemma_rounded_parts(false, x);
        lemma_units_order(rounded(x), m);
    } else if b.infinite() {
        lemma_units_order(a.magnitude(), b.magnitude());
    }
}

/// The root of a larger number is not lower.
pub proof fn law_root_ordered(a: Binary64, b: Binary64)
    requires
        !a.nan() && a.value() >= 0,
        b.at_least(a),
    ensures
        b.root().at_least(a.root()),
{
    law_root_nonnegative(a);
    law_root_nonnegative(b);
    lemma_value_zero(a);
    lemma_value_zero(b);
    let one = one_in_units();
    let (u, v) = (units(a.magnitude()), units(b.magnitude()));
    let (x, y) = (Exact::Root { square: u * one }, Exact::Root { square: v * one });
    lemma_rounded_parts(false, x);
    lemma_rounded_parts(false, y);
    if !a.zero() {
        lemma_units_order(a.magnitude(), b.magnitude());
        if b.finite() {
            assert(u * one <= v * one) by (nonlinear_arith)
                requires
                    u <= v,
            ;
            lemma_rounded_ordered(x, y);
            lemma_units_order(rounded(x), rounded(y));
        } else {
            lemma_units_order(a.root().magnitude(), b.root().magnitude());
        }
    }
}

/// Integers below 2^53 are represented exactly.
pub proof fn lemma_integer_exact(n: nat)
    requires
        n < 2 * EXPONENT_UNIT,
    ensures
        integer(n).value() == n * one_in_units(),
        integer(n).finite(),
        !integer(n).negative(),
{
    let x = Exact::Ratio { dividend: n * one_in_units(), divisor: 1 };
    let m = lemma_integer_magnitude(n);
    assert(x.twice_against(2 * units(m)) == 0) by {
        assert(1 * (2 * units(m)) == 2 * units(m));
    }
    lemma_rounded_exact(x, m);
}

/// The magnitude of an integer.
proof fn lemma_integer_magnitude(n: nat) -> (m: nat)
    requires
        n < 2 * EXPONENT_UNIT,
    ensures
        m < INFINITY_MAGNITUDE,
        units(m) == n * one_in_units(),
{
    vstd::arithmetic::power2::lemma2_to64();
    vstd::arithmetic::power2::lemma2_to64_rest();
    if n == 0 {
        assert(0 * one_in_units() == 0);
        0
    } else {
        let z = lemma_leading_zeros(n, 0);
        let s = n * pow2(z);
        let k = (1074 - z) as nat;
        lemma_units_of_scaled(k, s);
        lemma_pow2_adds(z, k);
        assert(s * pow2(k) == n * one_in_units()) by (nonlinear_arith)
            requires
                s == n * pow2(z),
                pow2(z) * pow2(k) == one_in_units(),
        ;
        k * (EXPONENT_UNIT as nat) + s
    }
}

/// How often `n` can be doubled within 53 digits, if it is doubled `z` times or more.
proof fn lemma_leading_zeros(n: nat, z: nat) -> (r: nat)
    requires
        n > 0,
        z <= 52,
        n * pow2(z) < 2 * EXPONENT_UNIT,
    ensures
        r <= 52,
        EXPONENT_UNIT <= n * pow2(r) < 2 * EXPONENT_UNIT,
    decreases 52 - z,
{
    vstd::arithmetic::power2::lemma2_to64_rest();
    if n * pow2(z) >= EXPONENT_UNIT {
        z
    } else {
        if z == 52 {
            assert(n * pow2(52) >= pow2(52)) by (nonlinear_arith)
                requires
                    n > 0,
            ;
        }
        vstd::arithmetic::power2::lemma_pow2_unfold(z + 1);
        assert(n * (2 * pow2(z)) == 2 * (n * pow2(z))) by (nonlinear_arith);
        lemma_leading_zeros(n, z + 1)
    }
}

/// Different integers below 2^53 are different numbers.
pub proof fn law_integers_distinct(m: nat, n: nat)
    requires
        m < 2 * EXPONENT_UNIT,
        n < 2 * EXPONENT_UNIT,
        integer(m) == integer(n),
    ensures
        m == n,
{
    lemma_integer_exact(m);
    lemma_integer_exact(n);
    lemma_one_positive();
    let one = one_in_units();
    assert(m == n) by (nonlinear_arith)
        requires
            m * one == n * one,
            one > 0,
    ;
}

/// Multiplying by a number between minus one and one does not enlarge.
pub proof fn law_times_shrinks(a: Binary64, b: Binary64)
    requires
        !a.nan(),
        -one_in_units() <= b.value() <= one_in_units(),
        b.finite(),
        !(a.infinite() && b.zero()),
    ensures
        !a.times(b).nan(),
        a.times(b).magnitude() <= a.magnitude(),
{
    let one = one_in_units();
    let m = a.magnitude();
    let (u, v) = (units(m), units(b.magnitude()));
    let x = Exact::Ratio { dividend: u * v, divisor: one };
    lemma_one_positive();
    lemma_rounded_parts(true, x);
    lemma_rounded_parts(false, x);
    assert(2 * (u * v) <= one * (2 * u)) by (nonlinear_arith)
        requires
            v <= one,
    ;
    lemma_rounded_at_most(x, m);
}

/// Adding a number of at most one to one of at most `k` gives at most `k + 1`.
pub proof fn law_plus_at_most(a: Binary64, b: Binary64, k: nat)
    requires
        k + 1 < 2 * EXPONENT_UNIT,
        !a.nan(),
        !b.nan(),
        0 <= a.value() <= k * one_in_units(),
        0 <= b.value() <= one_in_units(),
    ensures
        !a.plus(b).nan(),
        0 <= a.plus(b).value() <= (k + 1) * one_in_units(),
{
    let one = one_in_units();
    law_plus_nonnegative(a, b);
    lemma_value_zero(a);
    lemma_value_zero(b);
    lemma_integer_exact(k + 1);
    lemma_integer_exact(k);
    lemma_integer_exact(1);
    let m = integer(k + 1).magnitude();
    assert((k + 1) * one == k * one + one) by (nonlinear_arith);
    lemma_units_order(a.magnitude(), integer(k).magnitude());
    lemma_units_order(b.magnitude(), integer(1).magnitude());
    assert(1 * one == one);
    let v = a.value() + b.value();
    if v > 0 {
        let x = Exact::Ratio { dividend: v as nat, divisor: 1 };
        assert(1 * (2 * units(m)) == 2 * units(m));
        lemma_rounded_at_most(x, m);
        lemma_rounded_parts(false, x);
        lemma_units_order(rounded(x), m);
    }
}

/// A number between zero and `n`, divided by `n`, is between zero and one.
pub proof fn law_over_at_most(a: Binary64, n: nat)
    requires
        0 < n < 2 * EXPONENT_UNIT,
        !a.nan(),
        0 <= a.value() <= n * one_in_units(),
    ensures
        !a.over(integer(n)).nan(),
        0 <= a.over(integer(n)).value() <= one_in_units(),
{
    let one = one_in_units();
    let d = integer(n);
    lemma_one_positive();
    lemma_value_zero(a);
    lemma_integer_exact(n);
    lemma_integer_exact(1);
    let m = integer(1).magnitude();
    assert(1 * one == one);
    assert(n * one > 0) by (nonlinear_arith)
        requires
            n > 0,
            one > 0,
    ;
    lemma_value_zero(d);
    lemma_units_order(a.magnitude(), d.magnitude());
    let u = units(a.magnitude());
    let x = Exact::Ratio { dividend: u * one, divisor: units(d.magnitude()) };
    assert(2 * (u * one) <= (n * one) * (2 * one)) by (nonlinear_arith)
        requires
            u <= n * one,
            one > 0,
    ;
    lemma_rounded_at_most(x, m);
    lemma_rounded_parts(false, x);
    lemma_rounded_parts(true, x);
    lemma_units_order(rounded(x), m);
    let r = a.over(d);
    lemma_value_zero(r);
    if a.zero() {
        assert(0 * one == 0);
        assert(units(d.magnitude()) * 0 == 0);
        lemma_rounded_exact(x, 0);
    }
}

} // verus!
