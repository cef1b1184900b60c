//! What numbers are, bit by bit, and what each operation returns.

use vstd::arithmetic::power2::{lemma_pow2_adds, lemma_pow2_pos, lemma_pow2_unfold, pow2};
use vstd::prelude::*;

use crate::accuracy::{apart, lemma_root_error};
use crate::arithmetic::{integer, one_in_units};
use crate::arithmetic_laws::lemma_value_zero;
use crate::binary64::{
    lemma_units_increase, lemma_units_of_scaled, lemma_units_order, signed_magnitude, units,
    Binary64, EXPONENT_UNIT, INFINITY_MAGNITUDE,
};
use crate::rounding::{lemma_pow2_weakly_increases, lemma_rounded_nearest, rounded, Exact};

verus! {

/// A bit pattern is a sign, eleven bits of exponent and 52 bits of fraction. The value of a
/// finite number counts multiples of 2^-1074.
pub proof fn law_bits(x: Binary64, negative: bool, exponent: nat, fraction: nat)
    requires
        exponent < 2048,
        fraction < 0x10_0000_0000_0000,
        x.bits == (if negative {
            0x8000_0000_0000_0000int
        } else {
            0
        }) + exponent * 0x10_0000_0000_0000 + fraction,
    ensures
        x.negative() == negative,
        x.nan() <==> exponent == 2047 && fraction > 0,
        x.infinite() <==> exponent == 2047 && fraction == 0,
        x.finite() <==> exponent < 2047,
        x.zero() <==> exponent == 0 && fraction == 0,
        exponent == 0 ==> x.value() == if negative {
            -(fraction as int)
        } else {
            fraction as int
        },
        0 < exponent < 2047 ==> x.value() == (if negative {
            -1int
        } else {
            1
        }) * ((0x10_0000_0000_0000 + fraction) * pow2((exponent - 1) as nat)),
        x.negated().bits == (if negative {
            x.bits - 0x8000_0000_0000_0000
        } else {
            x.bits + 0x8000_0000_0000_0000
        }),
        one_in_units() == pow2(1074),
{
    let m = x.magnitude();
    assert(m == exponent * 0x10_0000_0000_0000 + fraction);
    if 0 < exponent < 2047 {
        let k = (exponent - 1) as nat;
        let s = (EXPONENT_UNIT + fraction) as nat;
        lemma_units_of_scaled(k, s);
        assert(m == k * (EXPONENT_UNIT as nat) + s);
        let u = s * pow2(k);
        assert(units(m) == u);
        assert(-1 * u == -u && 1 * u == u);
    }
}

/// An infinity lies beyond every finite number of its sign.
pub proof fn law_infinite_beyond(x: Binary64, y: Binary64)
    requires
        x.infinite(),
        y.finite(),
    ensures
        !x.negative() ==> y.value() < x.value(),
        x.negative() ==> x.value() < y.value(),
{
    lemma_units_order(y.magnitude(), x.magnitude());
    lemma_units_order(0, x.magnitude());
}

/// The order of numbers goes by their values; a NaN has no place in it.
pub proof fn law_order(x: Binary64, y: Binary64)
    ensures
        x.below(y) <==> !x.nan() && !y.nan() && x.value() < y.value(),
        x.at_least(y) <==> !x.nan() && !y.nan() && x.value() >= y.value(),
        x.equals(y) <==> !x.nan() && !y.nan() && x.value() == y.value(),
        x.equals(y) ==> x == y || (x.zero() && y.zero()),
{
    lemma_units_order(x.magnitude(), y.magnitude());
    lemma_value_zero(x);
    lemma_value_zero(y);
}

/// The larger and the smaller of two numbers are the two numbers, in order. A NaN gives way, and
/// of two zeros the positive one is the larger.
pub proof fn law_larger_smaller(x: Binary64, y: Binary64)
    ensures
        ({
            let (high, low) = (x.larger(y), x.smaller(y));
            &&& high == x || high == y
            &&& low == x || low == y
            &&& x.nan() ==> high == y && low == y
            &&& !x.nan() && y.nan() ==> high == x && low == x
            &&& !x.nan() && !y.nan() ==> {
                &&& (high == x && low == y) || (high == y && low == x)
                &&& high.value() >= low.value()
                &&& high.zero() && low.zero() && high.negative() ==> low.negative()
            }
        }),
{
    lemma_units_order(x.magnitude(), y.magnitude());
    lemma_value_zero(x);
    lemma_value_zero(y);
}

/// Whether `f * r` is as near to `x` as `f * y` is, and `r` is even if it is another number and
/// no nearer.
pub open spec fn as_near(r: Binary64, y: Binary64, f: int, x: int) -> bool {
    &&& apart(r.value() * f, x) <= apart(y.value() * f, x)
    &&& apart(r.value() * f, x) == apart(y.value() * f, x) && y.value() != r.value() ==> r.bits
        % 2 == 0
}

/// Twice the least size that is rounded to infinity: 2^1025 - 2^971, in units.
pub open spec fn twice_overflow() -> int {
    pow2(2099) - pow2(2045)
}

proof fn lemma_overflow_values()
    ensures
        units((INFINITY_MAGNITUDE - 1) as nat) + units(INFINITY_MAGNITUDE as nat)
            == twice_overflow(),
{
    let e = EXPONENT_UNIT as nat;
    let s = pow2(2045);
    vstd::arithmetic::power2::lemma2_to64_rest();
    lemma_units_of_scaled(2045, 2 * e);
    lemma_units_of_scaled(2045, (2 * e - 1) as nat);
    lemma_pow2_adds(53, 2045);
    lemma_pow2_unfold(2099);
    assert((2 * e - 1) * s == (2 * e) * s - s) by (nonlinear_arith);
}

/// A quotient is rounded to a magnitude that no other is nearer than.
proof fn lemma_ratio_nearest(n: nat, d: nat, k: nat)
    requires
        d > 0,
        k < INFINITY_MAGNITUDE,
    ensures
        ({
            let m = rounded(Exact::Ratio { dividend: n, divisor: d });
            let p = apart((units(m) * d) as int, n as int);
            let q = apart((units(k) * d) as int, n as int);
            &&& m <= INFINITY_MAGNITUDE
            &&& m == INFINITY_MAGNITUDE <==> 2 * n >= d * twice_overflow()
            &&& m < INFINITY_MAGNITUDE ==> p <= q && (p == q && k != m ==> m % 2 == 0)
        }),
{
    let x = Exact::Ratio { dividend: n, divisor: d };
    let m = rounded(x);
    let top = INFINITY_MAGNITUDE as nat;
    lemma_rounded_nearest(x);
    lemma_overflow_values();
    let last = (INFINITY_MAGNITUDE - 1) as nat;
    if m == top {
        assert(x.twice_against(units(last) + units(m)) >= 0);
    } else {
        let side = x.twice_against(units(m) + units(top));
        assert(side < 0 || (side == 0 && m % 2 == 0));
        if m < last {
            lemma_units_increase(m, last);
            let (near, far) = (units(m) + units(top), units(last) + units(top));
            assert(d * near < d * far) by (nonlinear_arith)
                requires
                    near < far,
                    d > 0,
            ;
        }
    }
    if m < top && k != m {
        lemma_units_order(k, m);
        let (u, v) = (units(k), units(m));
        assert(d * (u + v) == u * d + v * d) by (nonlinear_arith);
        if k < m {
            let side = x.twice_against(units(k) + units(m));
            assert(side > 0 || (side == 0 && m % 2 == 0));
            assert(u * d < v * d) by (nonlinear_arith)
                requires
                    u < v,
                    d > 0,
            ;
        } else {
            let side = x.twice_against(units(m) + units(k));
            assert(side < 0 || (side == 0 && m % 2 == 0));
            assert(v * d < u * d) by (nonlinear_arith)
                requires
                    v < u,
                    d > 0,
            ;
        }
    }
}

/// A rounded quotient with a sign.
proof fn lemma_signed_nearest(negative: bool, n: nat, d: nat, y: Binary64)
    requires
        d > 0,
        y.finite(),
    ensures
        ({
            let r = signed_magnitude(negative, rounded(Exact::Ratio { dividend: n, divisor: d }));
            let x = if negative {
                -(n as int)
            } else {
                n as int
            };
            &&& !r.nan()
            &&& r.negative() == negative
            &&& r.infinite() <==> 2 * n >= d * twice_overflow()
            &&& r.finite() ==> as_near(r, y, d as int, x)
        }),
{
    let m = rounded(Exact::Ratio { dividend: n, divisor: d });
    let r = signed_magnitude(negative, m);
    lemma_ratio_nearest(n, d, y.magnitude());
    lemma_ratio_nearest(n, d, 0);
    assert(r.magnitude() == m && r.negative() == negative);
    assert(r.bits % 2 == m % 2);
    let (u, v) = (units(m) as int, units(y.magnitude()) as int);
    let x = if negative {
        -(n as int)
    } else {
        n as int
    };
    lemma_units_order(m, y.magnitude());
    lemma_units_order(0, m);
    assert((-u) * d == -(u * d) && (-v) * d == -(v * d)) by (nonlinear_arith);
    assert(v * d >= 0 && u * d >= 0 && 0 * d == 0) by (nonlinear_arith)
        requires
            u >= 0,
            v >= 0,
    ;
    assert(v > 0 ==> v * d > 0) by (nonlinear_arith)
        requires
            d > 0,
    ;
    assert(u > 0 ==> u * d > 0) by (nonlinear_arith)
        requires
            d > 0,
    ;
    if r.finite() {
        assert(apart(r.value() * d, x) == apart(u * d, n as int));
        if y.negative() == negative || v == 0 {
            assert(apart(y.value() * d, x) == apart(v * d, n as int));
        } else {
            assert(apart(y.value() * d, x) == n + v * d);
        }
    }
}

/// A sum is the number nearest to the exact one. A sum of zero is negative only as the sum of two
/// negative zeros.
pub proof fn law_plus(a: Binary64, b: Binary64, y: Binary64)
    requires
        y.finite(),
    ensures
        ({
            let r = a.plus(b);
            let v = a.value() + b.value();
            let opposed = a.infinite() && b.infinite() && a.negative() != b.negative();
            &&& r.nan() <==> a.nan() || b.nan() || opposed
            &&& !r.nan() && a.infinite() ==> r == a
            &&& !r.nan() && b.infinite() ==> r == b
            &&& a.finite() && b.finite() && v == 0 ==> r.zero() && r.negative() == (a.negative()
                && b.negative())
            &&& a.finite() && b.finite() && v != 0 ==> {
                &&& r.negative() == (v < 0)
                &&& r.infinite() <==> 2 * apart(v, 0) >= twice_overflow()
                &&& r.finite() ==> as_near(r, y, 1, v)
            }
        }),
{
    let v = a.value() + b.value();
    if a.finite() && b.finite() && v != 0 {
        lemma_signed_nearest(v < 0, apart(v, 0) as nat, 1, y);
        assert(1 * twice_overflow() == twice_overflow());
    }
}

/// A difference is the sum with the sign bit of the second number turned round.
pub proof fn law_minus(a: Binary64, b: Binary64, c: Binary64)
    requires
        c.bits + 0x8000_0000_0000_0000 == b.bits || b.bits + 0x8000_0000_0000_0000 == c.bits,
    ensures
        a.minus(b) == a.plus(c),
{
    assert(c == b.negated());
}

/// A product is the number nearest to the exact one, with the sign that the two signs give.
pub proof fn law_times(a: Binary64, b: Binary64, y: Binary64)
    requires
        y.finite(),
    ensures
        ({
            let r = a.times(b);
            let v = a.value() * b.value();
            let undefined = (a.infinite() && b.zero()) || (a.zero() && b.infinite());
            &&& r.nan() <==> a.nan() || b.nan() || undefined
            &&& !r.nan() ==> r.negative() == (a.negative() != b.negative())
            &&& !r.nan() && (a.infinite() || b.infinite()) ==> r.infinite()
            &&& a.finite() && b.finite() ==> {
                &&& r.infinite() <==> 2 * apart(v, 0) >= pow2(1074) * twice_overflow()
                &&& r.finite() ==> as_near(r, y, pow2(1074) as int, v)
            }
        }),
{
    let (u, w) = (units(a.magnitude()), units(b.magnitude()));
    lemma_pow2_pos(1074);
    if a.finite() && b.finite() {
        let negative = a.negative() != b.negative();
        lemma_signed_nearest(negative, u * w, one_in_units(), y);
        assert((-u) * w == -(u * w) && u * (-w) == -(u * w) && (-u) * (-w) == u * w)
            by (nonlinear_arith);
        assert(u * w >= 0);
    }
}

/// A quotient is the number nearest to the exact one, with the sign that the two signs give.
pub proof fn law_over(a: Binary64, b: Binary64, y: Binary64)
    requires
        y.finite(),
    ensures
        ({
            let r = a.over(b);
            let (v, w) = (a.value(), b.value());
            let undefined = (a.infinite() && b.infinite()) || (a.zero() && b.zero());
            &&& r.nan() <==> a.nan() || b.nan() || undefined
            &&& !r.nan() ==> r.negative() == (a.negative() != b.negative())
            &&& !r.nan() && (a.infinite() || b.zero()) ==> r.infinite()
            &&& !r.nan() && b.infinite() ==> r.zero()
            &&& a.finite() && b.finite() && !b.zero() ==> {
                &&& r.infinite() <==> 2 * (apart(v, 0) * pow2(1074)) >= apart(w, 0)
                    * twice_overflow()
                &&& r.finite() ==> as_near(r, y, w, v * pow2(1074))
            }
        }),
{
    let one = one_in_units();
    let (u, w) = (units(a.magnitude()), units(b.magnitude()));
    if a.finite() && b.finite() && !b.zero() {
        let negative = a.negative() != b.negative();
        lemma_units_order(0, b.magnitude());
        lemma_signed_nearest(negative, u * one, w, y);
        let r = a.over(b);
        let (p, q) = (r.value(), y.value());
        assert((-u) * one == -(u * one)) by (nonlinear_arith);
        assert(p * (-w) == -(p * w) && q * (-w) == -(q * w)) by (nonlinear_arith);
        assert(u * one >= 0);
    }
}

/// The root of a number that is at least zero is the number nearest to the exact root: the exact
/// root lies on its side of the middle between it and any other, or in the middle if it is even.
pub proof fn law_root(a: Binary64, y: Binary64)
    requires
        y.finite(),
        !y.negative(),
    ensures
        ({
            let r = a.root();
            let middle = (r.value() + y.value()) * (r.value() + y.value());
            let exact = 4 * (a.value() * pow2(1074));
            &&& r.nan() <==> a.nan() || (a.negative() && !a.zero())
            &&& a.zero() ==> r == a
            &&& a.infinite() && !a.negative() ==> r == a
            &&& a.finite() && !a.zero() && !a.negative() ==> {
                &&& r.finite()
                &&& !r.negative()
                &&& y.value() < r.value() ==> middle < exact || (middle == exact && r.bits % 2
                    == 0)
                &&& y.value() > r.value() ==> middle > exact || (middle == exact && r.bits % 2
                    == 0)
            }
        }),
{
    if a.finite() && !a.zero() && !a.negative() {
        let n = units(a.magnitude());
        let x = Exact::Root { square: n * one_in_units() };
        let m = rounded(x);
        lemma_units_order(0, a.magnitude());
        lemma_units_order(a.magnitude(), (INFINITY_MAGNITUDE - 1) as nat);
        lemma_root_error(n, m);
        lemma_rounded_nearest(x);
        let r = a.root();
        assert(r == signed_magnitude(false, m));
        assert(r.magnitude() == m && r.bits == m);
        let k = y.magnitude();
        lemma_units_order(k, m);
        if k < m {
            let side = x.twice_against(units(k) + units(m));
            assert(side > 0 || (side == 0 && m % 2 == 0));
        }
        if k > m {
            let side = x.twice_against(units(m) + units(k));
            assert(side < 0 || (side == 0 && m % 2 == 0));
        }
    }
}

/// The number for a count is the number nearest to it, and never negative.
pub proof fn law_integer(n: nat, y: Binary64)
    requires
        n <= u64::MAX,
        y.finite(),
    ensures
        integer(n).finite(),
        !integer(n).negative(),
        as_near(integer(n), y, 1, (n * pow2(1074)) as int),
{
    lemma_signed_nearest(false, n * one_in_units(), 1, y);
    vstd::arithmetic::power2::lemma2_to64();
    vstd::arithmetic::power2::lemma2_to64_rest();
    lemma_pow2_adds(64, 1074);
    lemma_pow2_unfold(1139);
    lemma_pow2_unfold(2099);
    lemma_pow2_unfold(2098);
    lemma_pow2_unfold(2097);
    lemma_pow2_weakly_increases(1139, 2096);
    lemma_pow2_weakly_increases(2045, 2097);
    lemma_pow2_pos(2096);
    assert(n * one_in_units() <= pow2(64) * pow2(1074)) by (nonlinear_arith)
        requires
            n <= pow2(64),
            one_in_units() == pow2(1074),
    ;
    assert(1 * twice_overflow() == twice_overflow());
}

} // verus!
