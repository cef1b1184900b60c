//! How similarity and distance change when vectors are negated or doubled.

use vstd::arithmetic::power2::{lemma_pow2_adds, lemma_pow2_pos, lemma_pow2_unfold, pow2};
use vstd::prelude::*;

use crate::accuracy::{all_within, apart, lemma_power_magnitude, lemma_sum_error};
use crate::arithmetic::{integer, one_in_units};
use crate::arithmetic_laws::{
    law_plus_nonnegative, law_square, law_times_commutes, lemma_integer_exact, lemma_value_zero,
};
use crate::binary64::{
    lemma_units_doubled, lemma_units_of_scaled, lemma_units_order, signed_magnitude, units,
    Binary64, EXPONENT_UNIT, INFINITY_MAGNITUDE,
};
use crate::rounding::{
    lemma_pow2_weakly_increases, lemma_rounded_at_least, lemma_rounded_at_most,
    lemma_rounded_doubled, lemma_rounded_exact, lemma_rounded_nearest, lemma_rounded_same, rounded,
    same_side, Exact,
};
use crate::sequences::sum;
use crate::similarity_laws::law_cosine_symmetric;
use crate::vector::{common_len, cosine, distance, norm, products, squared_differences};

verus! {

/// Whether two numbers differ in sign only. Zeros do, whatever their signs; a NaN has no sign
/// that counts.
pub open spec fn opposite(x: Binary64, y: Binary64) -> bool {
    &&& x.nan() == y.nan()
    &&& !x.nan() ==> x.magnitude() == y.magnitude() && x.value() == -y.value()
}

/// The vector with every component negated.
pub open spec fn all_negated(a: Seq<Binary64>) -> Seq<Binary64> {
    a.map_values(|x: Binary64| x.negated())
}

proof fn lemma_opposite_plus(a: Binary64, b: Binary64, c: Binary64, d: Binary64)
    requires
        opposite(a, c),
        opposite(b, d),
    ensures
        opposite(a.plus(b), c.plus(d)),
{
    lemma_value_zero(a);
    lemma_value_zero(b);
    lemma_value_zero(c);
    lemma_value_zero(d);
    if a.finite() && b.finite() {
        let v = a.value() + b.value();
        assert(c.value() + d.value() == -v);
        let x = Exact::Ratio { dividend: apart(v, 0) as nat, divisor: 1 };
        lemma_rounded_nearest(x);
        if v != 0 {
            let m = rounded(x);
            assert(a.plus(b) == signed_magnitude(v < 0, m));
            assert(c.plus(d) == signed_magnitude(v > 0, m));
        }
    }
}

proof fn lemma_opposite_times(a: Binary64, b: Binary64)
    ensures
        opposite(a.times(b), a.negated().times(b)),
{
    let c = a.negated();
    assert(c.magnitude() == a.magnitude() && c.negative() == !a.negative());
    let x = Exact::Ratio {
        dividend: units(a.magnitude()) * units(b.magnitude()),
        divisor: one_in_units(),
    };
    lemma_pow2_pos(1074);
    lemma_rounded_nearest(x);
}

proof fn lemma_opposite_over(a: Binary64, c: Binary64, d: Binary64)
    requires
        opposite(a, c),
    ensures
        opposite(a.over(d), c.over(d)),
{
    lemma_value_zero(a);
    lemma_value_zero(c);
    lemma_value_zero(d);
    if a.finite() && d.finite() && !d.zero() {
        let one = one_in_units();
        let u = units(a.magnitude());
        let x = Exact::Ratio { dividend: u * one, divisor: units(d.magnitude()) };
        lemma_units_order(0, d.magnitude());
        lemma_rounded_nearest(x);
        if a.zero() {
            assert(0 * one == 0);
            assert(units(d.magnitude()) * 0 == 0);
            lemma_rounded_exact(x, 0);
        }
    }
}

proof fn lemma_opposite_sum(s: Seq<Binary64>, t: Seq<Binary64>)
    requires
        s.len() == t.len(),
        forall|i: int| 0 <= i < s.len() ==> opposite(#[trigger] s[i], t[i]),
    ensures
        opposite(sum(s), sum(t)),
    decreases s.len(),
{
    if s.len() > 0 {
        let (p, q) = (s.drop_last(), t.drop_last());
        assert forall|i: int| 0 <= i < p.len() implies opposite(#[trigger] p[i], q[i]) by {
            assert(p[i] == s[i] && q[i] == t[i]);
        }
        lemma_opposite_sum(p, q);
        assert(opposite(s[s.len() - 1], t[s.len() - 1]));
        lemma_opposite_plus(sum(p), s.last(), sum(q), t.last());
    }
}

/// Negating a vector negates its similarity to every other. Where one similarity is not a
/// number, neither is the other.
pub proof fn law_cosine_negated(a: Seq<Binary64>, b: Seq<Binary64>)
    ensures
        opposite(cosine(all_negated(a), b), cosine(a, b)),
        opposite(cosine(b, all_negated(a)), cosine(b, a)),
        !cosine(a, b).nan() ==> cosine(all_negated(a), b).equals(cosine(a, b).negated()),
{
    let c = all_negated(a);
    let n = common_len(a, b);
    let (s, t) = (products(c, b, n), products(a, b, n));
    assert forall|i: int| 0 <= i < n implies opposite(#[trigger] s[i], t[i]) by {
        lemma_opposite_times(a[i], b[i]);
    }
    lemma_opposite_sum(s, t);
    assert forall|i: int| 0 <= i < n implies #[trigger] products(c, c, n)[i] == products(
        a,
        a,
        n,
    )[i] by {
        assert(c[i].magnitude() == a[i].magnitude());
        law_square(c[i], a[i]);
    }
    assert(products(c, c, n) =~= products(a, a, n));
    lemma_opposite_over(sum(s), sum(t), norm(a, n).times(norm(b, n)));
    law_cosine_symmetric(c, b);
    law_cosine_symmetric(a, b);
}

/// Negating two vectors does not change their distance.
pub proof fn law_distance_negated(a: Seq<Binary64>, b: Seq<Binary64>)
    ensures
        distance(all_negated(a), all_negated(b)) == distance(a, b),
{
    let (c, d) = (all_negated(a), all_negated(b));
    let n = common_len(a, b);
    assert forall|i: int| 0 <= i < n implies #[trigger] squared_differences(c, d, n)[i]
        == squared_differences(a, b, n)[i] by {
        let (x, y) = (a[i].minus(b[i]), c[i].minus(d[i]));
        lemma_opposite_plus(a[i], b[i].negated(), c[i], d[i].negated());
        if !x.nan() {
            law_square(x, y);
        }
    }
    assert(squared_differences(c, d, n) =~= squared_differences(a, b, n));
}

/// Whether a number is zero, or finite and from 2^`low` to 2^`high` units away from zero.
pub open spec fn is_between(x: Binary64, low: nat, high: nat) -> bool {
    x.finite() && (x.zero() || pow2(low) <= units(x.magnitude()) <= pow2(high))
}

/// Whether a number is zero, or from 2^-499 to 2^499 away from zero. These bounds lie beyond
/// 10^-150 and 10^150.
pub open spec fn is_moderate(x: Binary64) -> bool {
    is_between(x, 575, 1573)
}

/// The vector with every component multiplied by two.
pub open spec fn all_doubled(a: Seq<Binary64>) -> Seq<Binary64> {
    a.map_values(|x: Binary64| x.times(integer(2)))
}

/// Whether `y` is exactly twice `x`.
spec fn twice(x: Binary64, y: Binary64) -> bool {
    &&& x.finite()
    &&& y.finite()
    &&& x.negative() == y.negative()
    &&& units(y.magnitude()) == 2 * units(x.magnitude())
}

proof fn lemma_range_ends()
    ensures
        units(EXPONENT_UNIT as nat) == pow2(52),
        units((INFINITY_MAGNITUDE - 2 * EXPONENT_UNIT) as nat) == pow2(2096),
        EXPONENT_UNIT == pow2(52),
{
    vstd::arithmetic::power2::lemma2_to64();
    vstd::arithmetic::power2::lemma2_to64_rest();
    lemma_units_of_scaled(0, EXPONENT_UNIT as nat);
    lemma_units_of_scaled(2044, EXPONENT_UNIT as nat);
    lemma_pow2_adds(52, 2044);
}

/// The quotients `n / d` and `2n / d` are rounded to a number and its double.
proof fn lemma_ratio_doubled(n: nat, d: nat)
    requires
        d > 0,
        pow2(52) * d <= n <= pow2(2096) * d,
    ensures
        ({
            let p = rounded(Exact::Ratio { dividend: n, divisor: d });
            let q = rounded(Exact::Ratio { dividend: 2 * n, divisor: d });
            p < INFINITY_MAGNITUDE && q < INFINITY_MAGNITUDE && units(q) == 2 * units(p)
        }),
{
    let x = Exact::Ratio { dividend: n, divisor: d };
    let y = Exact::Ratio { dividend: 2 * n, divisor: d };
    lemma_range_ends();
    assert forall|s: nat| same_side(#[trigger] x.twice_against(s), y.twice_against(2 * s)) by {
        assert(d * (2 * s) == 2 * (d * s)) by (nonlinear_arith);
    }
    assert(d * (2 * pow2(52)) == 2 * (pow2(52) * d)) by (nonlinear_arith);
    assert(d * (2 * pow2(2096)) == 2 * (pow2(2096) * d)) by (nonlinear_arith);
    lemma_rounded_doubled(x, y);
}

/// A moderate number times two is its double.
proof fn lemma_double_of(x: Binary64)
    requires
        is_moderate(x),
    ensures
        twice(x, x.times(integer(2))),
        is_between(x.times(integer(2)), 575, 1574),
{
    let one = one_in_units();
    let u = units(x.magnitude());
    let two = integer(2);
    lemma_integer_exact(2);
    lemma_pow2_pos(1074);
    let v = units(two.magnitude());
    assert(v == 2 * one);
    let exact = Exact::Ratio { dividend: u * v, divisor: one };
    assert(2 * (u * v) == one * (2 * (2 * u))) by (nonlinear_arith)
        requires
            v == 2 * one,
    ;
    if x.zero() {
        lemma_rounded_exact(exact, 0);
    } else {
        let m = x.magnitude();
        let e = EXPONENT_UNIT as nat;
        lemma_range_ends();
        lemma_pow2_weakly_increases(52, 575);
        lemma_units_order(m, e);
        lemma_units_doubled(m);
        lemma_pow2_weakly_increases(1573, 2096);
        lemma_units_order((INFINITY_MAGNITUDE - 2 * EXPONENT_UNIT) as nat, m);
        lemma_rounded_exact(exact, m + e);
        lemma_pow2_unfold(1574);
    }
    lemma_rounded_nearest(exact);
}

/// A product with a doubled factor is doubled.
proof fn lemma_twice_times(x: Binary64, y: Binary64, b: Binary64, high: nat)
    requires
        twice(x, y),
        is_between(x, 575, high),
        is_between(b, 575, high),
        1500 <= high <= 1585,
    ensures
        twice(x.times(b), y.times(b)),
        is_between(x.times(b), 76, (2 * high - 1074) as nat),
        x.times(b).zero() <==> x.zero() || b.zero(),
{
    let one = one_in_units();
    let (u, v) = (units(x.magnitude()), units(b.magnitude()));
    let top = (2 * high - 1074) as nat;
    lemma_pow2_pos(1074);
    assert((2 * u) * v == 2 * (u * v)) by (nonlinear_arith);
    let p = Exact::Ratio { dividend: u * v, divisor: one };
    let q = Exact::Ratio { dividend: 2 * (u * v), divisor: one };
    lemma_rounded_nearest(p);
    lemma_rounded_nearest(q);
    lemma_units_order(0, x.magnitude());
    lemma_units_order(0, y.magnitude());
    if x.zero() || b.zero() {
        assert(u * v == 0) by (nonlinear_arith)
            requires
                u == 0 || v == 0,
        ;
        assert(one * 0 == 0);
        lemma_rounded_exact(p, 0);
        lemma_rounded_exact(q, 0);
    } else {
        let (l, h) = (pow2(575), pow2(high));
        lemma_pow2_adds(575, 575);
        lemma_pow2_adds(high, high);
        lemma_pow2_adds(76, 1074);
        lemma_pow2_adds(top, 1074);
        assert(l * l <= u * v <= h * h) by (nonlinear_arith)
            requires
                l <= u <= h,
                l <= v <= h,
        ;
        lemma_pow2_weakly_increases(52, 76);
        lemma_pow2_weakly_increases(top, 2096);
        assert(pow2(52) * one <= pow2(76) * one) by (nonlinear_arith)
            requires
                pow2(52) <= pow2(76),
        ;
        assert(pow2(top) * one <= pow2(2096) * one) by (nonlinear_arith)
            requires
                pow2(top) <= pow2(2096),
        ;
        lemma_ratio_doubled(u * v, one);
        let low = lemma_power_magnitude(76);
        let hi = lemma_power_magnitude(top);
        assert(one * (2 * units(low)) == 2 * (pow2(76) * one)) by (nonlinear_arith)
            requires
                units(low) == pow2(76),
        ;
        assert(one * (2 * units(hi)) == 2 * (pow2(top) * one)) by (nonlinear_arith)
            requires
                units(hi) == pow2(top),
        ;
        lemma_rounded_at_least(p, low);
        lemma_rounded_at_most(p, hi);
        lemma_units_order(rounded(p), low);
        lemma_units_order(hi, rounded(p));
        lemma_units_order(0, low);
        lemma_pow2_pos(76);
    }
}

/// A sum of doubled numbers is doubled.
proof fn lemma_twice_plus(a: Binary64, b: Binary64, c: Binary64, d: Binary64)
    requires
        twice(a, c),
        twice(b, d),
        apart(a.value() + b.value(), 0) <= pow2(2096),
    ensures
        twice(a.plus(b), c.plus(d)),
{
    let v = a.value() + b.value();
    let n = apart(v, 0) as nat;
    assert(c.value() + d.value() == 2 * v);
    if v != 0 {
        let x = Exact::Ratio { dividend: n, divisor: 1 };
        let y = Exact::Ratio { dividend: 2 * n, divisor: 1 };
        lemma_range_ends();
        if n < EXPONENT_UNIT {
            vstd::arithmetic::power2::lemma2_to64();
            lemma_units_of_scaled(0, n);
            lemma_units_of_scaled(0, 2 * n);
            assert(n * 1 == n && (2 * n) * 1 == 2 * n);
            assert(1 * (2 * n) == 2 * n && 1 * (2 * (2 * n)) == 2 * (2 * n));
            lemma_rounded_exact(x, n);
            lemma_rounded_exact(y, 2 * n);
        } else {
            assert(pow2(52) * 1 == pow2(52) && pow2(2096) * 1 == pow2(2096));
            lemma_ratio_doubled(n, 1);
        }
        let (p, q) = (rounded(x), rounded(y));
        assert(a.plus(b) == signed_magnitude(v < 0, p));
        assert(c.plus(d) == signed_magnitude(v < 0, q));
    }
}

proof fn lemma_twice_sum(s: Seq<Binary64>, t: Seq<Binary64>, bound: int)
    requires
        s.len() == t.len(),
        forall|i: int| 0 <= i < s.len() ==> twice(#[trigger] s[i], t[i]),
        all_within(s, bound),
        s.len() <= 0x10_0000,
        0 <= bound,
        (s.len() + 1) * bound <= pow2(2096),
    ensures
        twice(sum(s), sum(t)),
    decreases s.len(),
{
    if s.len() > 0 {
        let (p, q) = (s.drop_last(), t.drop_last());
        let n = s.len() as int;
        assert forall|i: int| 0 <= i < p.len() implies twice(#[trigger] p[i], q[i]) by {
            assert(p[i] == s[i] && q[i] == t[i]);
        }
        assert forall|i: int| 0 <= i < p.len() implies (#[trigger] p[i]).finite() && apart(
            p[i].value(),
            0,
        ) <= bound by {
            assert(p[i] == s[i]);
        }
        assert((n + 1) * bound == n * bound + bound) by (nonlinear_arith);
        lemma_twice_sum(p, q, bound);
        lemma_pow2_weakly_increases(2096, 2097);
        lemma_sum_error(p, bound);
        assert(twice(s[n - 1], t[n - 1]));
        lemma_twice_plus(sum(p), s.last(), sum(q), t.last());
    }
}

/// The root of a number doubled twice is doubled once.
proof fn lemma_twice_root(x: Binary64, y: Binary64, z: Binary64)
    requires
        twice(x, y),
        twice(y, z),
        x.value() >= 0,
    ensures
        twice(x.root(), z.root()),
{
    lemma_value_zero(x);
    lemma_value_zero(z);
    lemma_units_order(0, x.magnitude());
    lemma_units_order(0, z.magnitude());
    if !x.zero() {
        let one = one_in_units();
        let u = units(x.magnitude());
        let n = u * one;
        let p = Exact::Root { square: n };
        let q = Exact::Root { square: (4 * u) * one };
        assert((4 * u) * one == 4 * n) by (nonlinear_arith)
            requires
                n == u * one,
        ;
        assert forall|s: nat| same_side(#[trigger] p.twice_against(s), q.twice_against(2 * s)) by {
            assert((2 * s) * (2 * s) == 4 * (s * s)) by (nonlinear_arith);
        }
        lemma_range_ends();
        let (l, h) = (pow2(52), pow2(2096));
        lemma_pow2_adds(52, 52);
        lemma_pow2_weakly_increases(104, 1074);
        assert(n >= one) by (nonlinear_arith)
            requires
                n == u * one,
                u >= 1,
        ;
        assert((2 * l) * (2 * l) == 4 * (l * l)) by (nonlinear_arith);
        lemma_units_order(x.magnitude(), INFINITY_MAGNITUDE as nat);
        lemma_units_doubled((INFINITY_MAGNITUDE - 2 * EXPONENT_UNIT) as nat);
        lemma_units_doubled((INFINITY_MAGNITUDE - EXPONENT_UNIT) as nat);
        assert(u <= 4 * h);
        vstd::arithmetic::power2::lemma2_to64();
        lemma_pow2_adds(2, 1074);
        lemma_pow2_weakly_increases(1076, 2096);
        assert(4 * n <= 4 * (h * h)) by (nonlinear_arith)
            requires
                n == u * one,
                u <= 4 * h,
                4 * one <= h,
        ;
        assert((2 * h) * (2 * h) == 4 * (h * h)) by (nonlinear_arith);
        lemma_rounded_doubled(p, q);
    }
}

/// The root of a number from 2^76 to 2^2096 units lies from 2^575 to 2^1585 units.
proof fn lemma_root_between(x: Binary64)
    requires
        is_between(x, 76, 2096),
        x.value() >= 0,
    ensures
        is_between(x.root(), 575, 1585),
        x.root().zero() <==> x.zero(),
{
    lemma_value_zero(x);
    if !x.zero() {
        let one = one_in_units();
        let u = units(x.magnitude());
        let p = Exact::Root { square: u * one };
        let (l, h) = (pow2(575), pow2(1585));
        lemma_pow2_adds(575, 575);
        lemma_pow2_adds(1585, 1585);
        lemma_pow2_adds(76, 1074);
        lemma_pow2_adds(2096, 1074);
        assert(l * l <= u * one <= h * h) by (nonlinear_arith)
            requires
                pow2(76) * one == l * l,
                pow2(2096) * one == h * h,
                pow2(76) <= u <= pow2(2096),
        ;
        let low = lemma_power_magnitude(575);
        let high = lemma_power_magnitude(1585);
        assert((2 * l) * (2 * l) == 4 * (l * l)) by (nonlinear_arith);
        assert((2 * h) * (2 * h) == 4 * (h * h)) by (nonlinear_arith);
        lemma_rounded_at_least(p, low);
        lemma_rounded_at_most(p, high);
        lemma_units_order(rounded(p), low);
        lemma_units_order(high, rounded(p));
        lemma_units_order(0, low);
        lemma_pow2_pos(575);
    }
}

/// Squares from 2^76 to 2^2074 units, and zeros, add up to zero or at least 2^76 units.
proof fn lemma_sum_between(s: Seq<Binary64>)
    requires
        s.len() <= 0x10_0000,
        forall|i: int|
            0 <= i < s.len() ==> is_between(#[trigger] s[i], 76, 2074) && !s[i].negative(),
    ensures
        is_between(sum(s), 76, 2096),
        sum(s).value() >= 0,
    decreases s.len(),
{
    let bound = pow2(2074) as int;
    lemma_all_between(s, 76, 2074);
    lemma_sum_bound(s.len());
    lemma_sum_error(s, bound);
    lemma_value_zero(sum(s));
    if s.len() > 0 {
        let p = s.drop_last();
        assert forall|i: int| 0 <= i < p.len() implies is_between(#[trigger] p[i], 76, 2074)
            && !p[i].negative() by {
            assert(p[i] == s[i]);
        }
        lemma_sum_between(p);
        let (a, b) = (sum(p), s.last());
        assert(s[s.len() - 1] == b);
        lemma_value_zero(a);
        lemma_value_zero(b);
        law_plus_nonnegative(a, b);
        let v = a.value() + b.value();
        if v > 0 {
            let x = Exact::Ratio { dividend: v as nat, divisor: 1 };
            let low = lemma_power_magnitude(76);
            assert(1 * (2 * units(low)) == 2 * units(low));
            lemma_rounded_at_least(x, low);
            lemma_rounded_nearest(x);
            assert(sum(s) == signed_magnitude(false, rounded(x)));
            assert(sum(s).magnitude() == rounded(x));
            lemma_units_order(rounded(x), low);
        }
    }
}

proof fn lemma_all_between(s: Seq<Binary64>, low: nat, high: nat)
    requires
        forall|i: int| 0 <= i < s.len() ==> is_between(#[trigger] s[i], low, high),
    ensures
        all_within(s, pow2(high) as int),
{
    assert forall|i: int| 0 <= i < s.len() implies (#[trigger] s[i]).finite() && apart(
        s[i].value(),
        0,
    ) <= pow2(high) by {
        lemma_value_zero(s[i]);
        lemma_pow2_pos(high);
    }
}

proof fn lemma_sum_bound(n: nat)
    requires
        n <= 0x10_0000,
    ensures
        (n + 1) * pow2(2074) <= pow2(2096) <= pow2(2096) <= pow2(2097),
{
    vstd::arithmetic::power2::lemma2_to64();
    lemma_pow2_adds(22, 2074);
    lemma_pow2_weakly_increases(2096, 2096);
    lemma_pow2_weakly_increases(2096, 2097);
    assert((n + 1) * pow2(2074) <= pow2(22) * pow2(2074)) by (nonlinear_arith)
        requires
            n + 1 <= pow2(22),
    ;
}

proof fn lemma_between_wider(x: Binary64)
    requires
        is_moderate(x),
    ensures
        is_between(x, 575, 1574),
{
    lemma_pow2_weakly_increases(1573, 1574);
}

/// The length of a vector of moderate numbers.
pub proof fn lemma_norm_between(a: Seq<Binary64>, n: nat)
    requires
        n <= a.len(),
        n <= 0x10_0000,
        forall|i: int| 0 <= i < n ==> is_moderate(#[trigger] a[i]),
    ensures
        is_between(norm(a, n), 575, 1585),
        sum(products(a, a, n)).value() >= 0,
{
    let s = products(a, a, n);
    assert forall|i: int| 0 <= i < s.len() implies is_between(#[trigger] s[i], 76, 2074)
        && !s[i].negative() by {
        lemma_double_of(a[i]);
        lemma_between_wider(a[i]);
        lemma_twice_times(a[i], a[i].times(integer(2)), a[i], 1574);
        law_square(a[i], a[i]);
    }
    lemma_sum_between(s);
    lemma_root_between(sum(s));
}

/// Doubling a vector doubles its length.
proof fn lemma_norm_doubled(a: Seq<Binary64>, n: nat)
    requires
        n <= a.len(),
        n <= 0x10_0000,
        forall|i: int| 0 <= i < n ==> is_moderate(#[trigger] a[i]),
    ensures
        twice(norm(a, n), norm(all_doubled(a), n)),
{
    let c = all_doubled(a);
    let (s, m, t) = (products(a, a, n), products(a, c, n), products(c, c, n));
    lemma_norm_between(a, n);
    lemma_sum_bound(n);
    assert forall|i: int| 0 <= i < n implies {
        &&& twice(#[trigger] s[i], m[i])
        &&& twice(m[i], t[i])
        &&& is_between(s[i], 76, 2074)
        &&& is_between(m[i], 76, 2074)
    } by {
        lemma_double_of(a[i]);
        lemma_between_wider(a[i]);
        lemma_twice_times(a[i], c[i], a[i], 1574);
        lemma_twice_times(a[i], c[i], c[i], 1574);
        law_times_commutes(a[i], c[i]);
    }
    assert forall|i: int| 0 <= i < n implies twice(#[trigger] m[i], t[i]) && is_between(
        m[i],
        76,
        2074,
    ) by {
        assert(twice(s[i], m[i]));
    }
    lemma_all_between(s, 76, 2074);
    lemma_all_between(m, 76, 2074);
    lemma_twice_sum(s, m, pow2(2074) as int);
    lemma_twice_sum(m, t, pow2(2074) as int);
    lemma_twice_root(sum(s), sum(m), sum(t));
}

/// Dividing a doubled number by a doubled number changes nothing.
proof fn lemma_over_doubled(a: Binary64, b: Binary64, c: Binary64, d: Binary64)
    requires
        twice(a, c),
        twice(b, d),
        !b.zero(),
    ensures
        a.over(b) == c.over(d),
{
    let one = one_in_units();
    let (u, v) = (units(a.magnitude()), units(b.magnitude()));
    lemma_units_order(0, b.magnitude());
    lemma_units_order(0, d.magnitude());
    let x = Exact::Ratio { dividend: u * one, divisor: v };
    let y = Exact::Ratio { dividend: (2 * u) * one, divisor: 2 * v };
    assert((2 * u) * one == 2 * (u * one)) by (nonlinear_arith);
    assert forall|s: nat| same_side(#[trigger] x.twice_against(s), y.twice_against(s)) by {
        assert((2 * v) * s == 2 * (v * s)) by (nonlinear_arith);
    }
    lemma_rounded_same(x, y);
}

/// Doubling a vector does not change its similarity to another, if all components are zero or
/// between 2^-499 and 2^499 in size. Beyond these bounds the doubled vector may round otherwise,
/// or overflow.
pub proof fn law_cosine_doubled(a: Seq<Binary64>, b: Seq<Binary64>)
    requires
        common_len(a, b) <= 0x10_0000,
        forall|i: int|
            0 <= i < common_len(a, b) ==> is_moderate(#[trigger] a[i]) && is_moderate(b[i]),
    ensures
        cosine(all_doubled(a), b) == cosine(a, b),
        cosine(b, all_doubled(a)) == cosine(b, a),
{
    let n = common_len(a, b);
    let c = all_doubled(a);
    assert forall|i: int| 0 <= i < n implies is_moderate(#[trigger] b[i]) by {
        assert(is_moderate(a[i]));
    }
    lemma_norm_between(a, n);
    lemma_norm_between(b, n);
    lemma_norm_doubled(a, n);
    let (p, q, r) = (norm(a, n), norm(c, n), norm(b, n));
    lemma_units_order(0, p.magnitude());
    lemma_units_order(0, q.magnitude());
    if n > 0 && !p.zero() && !r.zero() {
        lemma_twice_times(p, q, r, 1585);
        let (s, t) = (products(a, b, n), products(c, b, n));
        assert forall|i: int| 0 <= i < n implies twice(#[trigger] s[i], t[i]) && is_between(
            s[i],
            76,
            2074,
        ) by {
            lemma_double_of(a[i]);
            lemma_between_wider(a[i]);
            lemma_between_wider(b[i]);
            lemma_twice_times(a[i], c[i], b[i], 1574);
        }
        lemma_all_between(s, 76, 2074);
        lemma_sum_bound(n);
        lemma_twice_sum(s, t, pow2(2074) as int);
        lemma_over_doubled(sum(s), p.times(r), sum(t), q.times(r));
    }
    law_cosine_symmetric(a, b);
    law_cosine_symmetric(c, b);
}

} // verus!
