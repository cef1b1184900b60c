//! Laws of similarity and distance.

use vstd::arithmetic::power2::{lemma_pow2_adds, lemma_pow2_pos, pow2};
use vstd::prelude::*;

use crate::accuracy::{lemma_ratio_error, lemma_root_error, lemma_top_values, TWO_53};
use crate::arithmetic::{integer, one_in_units};
use crate::arithmetic_laws::{
    law_minus_finite, law_minus_reversed, law_minus_self, law_plus_nonnegative, law_plus_not_lower,
    law_plus_zero, law_root_nonnegative, law_root_ordered, law_square, law_times_commutes,
    law_times_zero, lemma_integer_exact, lemma_value_zero,
};
use crate::binary64::{
    lemma_units_increase, lemma_units_of_scaled, lemma_units_order, signed_magnitude, units,
    Binary64, EXPONENT_UNIT, INFINITY_MAGNITUDE,
};
use crate::proportion::lemma_square_monotone;
use crate::rounding::{
    lemma_pow2_weakly_increases, lemma_rounded_exact, lemma_rounded_nearest, lemma_rounded_to_whole,
    rounded, Exact,
};
use crate::sequence_laws::{all_finite, lemma_sum_nonnegative, lemma_sum_of_zeros};
use crate::sequences::sum;
use crate::vector::{common_len, cosine, distance, norm, products, squared_differences};

verus! {

/// Cosine similarity is symmetric.
pub proof fn law_cosine_symmetric(a: Seq<Binary64>, b: Seq<Binary64>)
    ensures
        cosine(a, b) == cosine(b, a),
{
    let n = common_len(a, b);
    assert forall|i: int| 0 <= i < n implies #[trigger] a[i].times(b[i]) == b[i].times(a[i]) by {
        law_times_commutes(a[i], b[i]);
    }
    assert(products(a, b, n) =~= products(b, a, n));
    law_times_commutes(norm(a, n), norm(b, n));
}

/// A vector of zeros is similar to nothing.
pub proof fn law_cosine_of_zeros(a: Seq<Binary64>, b: Seq<Binary64>)
    requires
        forall|i: int| 0 <= i < a.len() ==> (#[trigger] a[i]).zero(),
    ensures
        cosine(a, b) == (Binary64 { bits: 0 }),
        cosine(b, a) == (Binary64 { bits: 0 }),
{
    let n = common_len(a, b);
    assert forall|i: int| 0 <= i < n implies (#[trigger] products(a, a, n)[i]).zero() by {
        law_times_zero(a[i], a[i]);
    }
    lemma_sum_of_zeros(products(a, a, n));
    law_cosine_symmetric(a, b);
}

/// Only the components that both vectors have count.
pub proof fn law_extra_components_ignored(a: Seq<Binary64>, b: Seq<Binary64>)
    ensures
        cosine(a, b) == cosine(a.take(common_len(a, b) as int), b.take(common_len(a, b) as int)),
        distance(a, b) == distance(
            a.take(common_len(a, b) as int),
            b.take(common_len(a, b) as int),
        ),
{
    let n = common_len(a, b);
    let c = a.take(n as int);
    let d = b.take(n as int);
    assert(products(a, b, n) =~= products(c, d, n));
    assert(products(a, a, n) =~= products(c, c, n));
    assert(products(b, b, n) =~= products(d, d, n));
    assert(squared_differences(a, b, n) =~= squared_differences(c, d, n));
}

/// Distance is symmetric.
pub proof fn law_distance_symmetric(a: Seq<Binary64>, b: Seq<Binary64>)
    ensures
        distance(a, b) == distance(b, a),
{
    let n = common_len(a, b);
    assert forall|i: int| 0 <= i < n implies #[trigger] squared_differences(a, b, n)[i]
        == squared_differences(b, a, n)[i] by {
        law_minus_reversed(a[i], b[i]);
        law_square(a[i].minus(b[i]), b[i].minus(a[i]));
    }
    assert(squared_differences(a, b, n) =~= squared_differences(b, a, n));
}

/// A finite vector is at distance zero from itself.
pub proof fn law_distance_to_self(a: Seq<Binary64>)
    requires
        all_finite(a),
    ensures
        distance(a, a).zero(),
{
    let n = a.len();
    let s = squared_differences(a, a, n);
    assert forall|i: int| 0 <= i < s.len() implies (#[trigger] s[i]).zero() by {
        law_minus_self(a[i]);
        law_times_zero(a[i].minus(a[i]), a[i].minus(a[i]));
    }
    lemma_sum_of_zeros(s);
}

/// The distance of finite vectors is a number, and at least zero.
pub proof fn law_distance_nonnegative(a: Seq<Binary64>, b: Seq<Binary64>)
    requires
        all_finite(a),
        all_finite(b),
    ensures
        !distance(a, b).nan(),
        distance(a, b).value() >= 0,
{
    let n = common_len(a, b);
    let s = squared_differences(a, b, n);
    assert forall|i: int| 0 <= i < s.len() implies !(#[trigger] s[i]).nan() && s[i].value()
        >= 0 by {
        law_minus_finite(a[i], b[i]);
        law_square(a[i].minus(b[i]), a[i].minus(b[i]));
        lemma_value_zero(s[i]);
    }
    lemma_sum_nonnegative(s);
    law_root_nonnegative(sum(s));
}

/// A sum of squared differences is at least zero, if it is a number.
proof fn lemma_sum_of_squared_differences(a: Seq<Binary64>, b: Seq<Binary64>, n: nat)
    requires
        !sum(squared_differences(a, b, n)).nan(),
    ensures
        sum(squared_differences(a, b, n)).value() >= 0,
    decreases n,
{
    let s = squared_differences(a, b, n);
    if n > 0 {
        let k = (n - 1) as nat;
        assert(s.drop_last() =~= squared_differences(a, b, k));
        lemma_sum_of_squared_differences(a, b, k);
        let difference = a[k as int].minus(b[k as int]);
        law_square(difference, difference);
        lemma_value_zero(s.last());
        law_plus_nonnegative(sum(s.drop_last()), s.last());
    }
}

/// One more finite component on each side never lowers the distance, and leaves it equal where
/// the two components are equal. It makes no difference to whether the distance is a number.
pub proof fn law_distance_appended(
    a: Seq<Binary64>,
    b: Seq<Binary64>,
    x: Binary64,
    y: Binary64,
)
    requires
        a.len() == b.len(),
        x.finite(),
        y.finite(),
    ensures
        distance(a.push(x), b.push(y)).nan() <==> distance(a, b).nan(),
        !distance(a, b).nan() ==> distance(a.push(x), b.push(y)).at_least(distance(a, b)),
        !distance(a, b).nan() && x.equals(y) ==> distance(a.push(x), b.push(y)).equals(
            distance(a, b),
        ),
{
    let n = a.len();
    let (c, d) = (a.push(x), b.push(y));
    let (s, t) = (squared_differences(a, b, n), squared_differences(c, d, n + 1));
    assert(t.drop_last() =~= s);
    let difference = x.minus(y);
    assert(t.last() == difference.times(difference));
    law_minus_finite(x, y);
    law_square(difference, difference);
    lemma_value_zero(t.last());
    let total = sum(s);
    if !total.nan() {
        lemma_sum_of_squared_differences(a, b, n);
        law_plus_not_lower(total, t.last());
        law_root_nonnegative(total);
        law_root_ordered(total, sum(t));
        if x.equals(y) {
            let z = y.negated();
            assert(z.magnitude() == y.magnitude() && z.negative() == !y.negative());
            assert(difference.zero());
            law_times_zero(difference, difference);
            law_plus_zero(total, t.last());
            law_root_ordered(sum(t), total);
        }
    }
}

/// A zero on each side, added to two sums of products and squares, leaves them as they are, but
/// for the signs of zeros.
proof fn lemma_products_appended(a: Seq<Binary64>, b: Seq<Binary64>, x: Binary64, y: Binary64)
    requires
        a.len() == b.len(),
        x.zero(),
        y.zero(),
    ensures
        ({
            let n = a.len();
            let s = sum(products(a, b, n));
            let t = sum(products(a.push(x), b.push(y), n + 1));
            &&& s.nan() == t.nan()
            &&& s.zero() == t.zero()
            &&& !s.nan() && !s.zero() ==> s == t
        }),
{
    let n = a.len();
    let (s, t) = (products(a, b, n), products(a.push(x), b.push(y), n + 1));
    assert(t.drop_last() =~= s);
    assert(t.last() == x.times(y));
    law_times_zero(x, y);
    let p = sum(s);
    lemma_value_zero(p);
    lemma_value_zero(t.last());
    if !p.nan() {
        law_plus_zero(p, t.last());
        lemma_value_zero(sum(t));
        lemma_units_order(p.magnitude(), sum(t).magnitude());
    }
}

/// A zero appended on each side leaves the similarity equal. It makes no difference to whether
/// the similarity is a number.
pub proof fn law_cosine_appended_zeros(
    a: Seq<Binary64>,
    b: Seq<Binary64>,
    x: Binary64,
    y: Binary64,
)
    requires
        a.len() == b.len(),
        x.zero(),
        y.zero(),
    ensures
        cosine(a.push(x), b.push(y)).nan() <==> cosine(a, b).nan(),
        !cosine(a, b).nan() ==> cosine(a.push(x), b.push(y)).equals(cosine(a, b)),
{
    let n = a.len();
    let (c, d) = (a.push(x), b.push(y));
    lemma_products_appended(a, b, x, y);
    lemma_products_appended(a, a, x, x);
    lemma_products_appended(b, b, y, y);
    let (s, t) = (sum(products(a, b, n)), sum(products(c, d, n + 1)));
    let (p, q) = (norm(a, n), norm(b, n));
    if n == 0 {
        assert(products(a, a, 0) =~= Seq::<Binary64>::empty());
        assert(sum(products(a, a, 0)).zero());
    } else if !p.zero() && !q.zero() {
        let w = p.times(q);
        if s.zero() && !w.nan() && !w.zero() {
            let exact = Exact::Ratio { dividend: 0, divisor: units(w.magnitude()) };
            lemma_units_order(0, w.magnitude());
            assert(0 * one_in_units() == 0);
            assert(units(w.magnitude()) * 0 == 0);
            lemma_rounded_exact(exact, 0);
        }
    }
}

/// One part in this many bounds the errors below: 2^39.
const TWO_39: u64 = 0x80_0000_0000;

/// The square of a rounded root does not overflow.
proof fn lemma_square_finite(u: nat, q: nat)
    requires
        u <= (TWO_53 - 1) * pow2(1533),
        q == rounded(Exact::Ratio { dividend: u * u, divisor: one_in_units() }),
    ensures
        q < INFINITY_MAGNITUDE,
{
    let t = lemma_top_values();
    let one = one_in_units();
    lemma_pow2_pos(1074);
    let x = Exact::Ratio { dividend: u * u, divisor: one };
    lemma_rounded_nearest(x);
    let top = (INFINITY_MAGNITUDE - 1) as nat;
    if q == INFINITY_MAGNITUDE {
        let mid = units(top) + units(q);
        assert(x.twice_against(mid) >= 0);
        assert(one * mid == units(top) * one + units(q) * one) by (nonlinear_arith)
            requires
                mid == units(top) + units(q),
        ;
        lemma_square_monotone(u as int, (TWO_53 - 1) * t);
        let f = TWO_53 as int;
        let tt = t * t;
        assert(((f - 1) * t) * ((f - 1) * t) == ((f - 1) * (f - 1)) * tt) by (nonlinear_arith)
            requires
                tt == t * t,
        ;
        assert(tt > 0) by (nonlinear_arith)
            requires
                tt == t * t,
                t > 0,
        ;
        assert(2 * (((f - 1) * (f - 1)) * tt) < f * (f - 1) * tt + f * f * tt) by (nonlinear_arith)
            requires
                f >= 3,
                tt > 0,
        ;
        assert(false);
    }
}

/// The numbers that the similarity of a vector with itself is made of: `n` units of squared
/// length, its root `r`, the root's square `q` and the quotient `c`.
proof fn lemma_quotient_near_one(n: nat, r: nat, q: nat, c: nat)
    requires
        0 < n <= units((INFINITY_MAGNITUDE - 1) as nat),
        r == rounded(Exact::Root { square: n * one_in_units() }),
        q == rounded(Exact::Ratio { dividend: units(r) * units(r), divisor: one_in_units() }),
        c == rounded(Exact::Ratio { dividend: n * one_in_units(), divisor: units(q) }),
    ensures
        0 < r < INFINITY_MAGNITUDE,
        0 < q < INFINITY_MAGNITUDE,
        c < INFINITY_MAGNITUDE,
        10_000_000_000 * (units(c) - one_in_units()) <= one_in_units(),
        10_000_000_000 * (one_in_units() - units(c)) <= one_in_units(),
{
    lemma_root_error(n, r);
    lemma_square_finite(units(r), q);
    if n < 2 * TWO_39 {
        lemma_small_quotient(n, r, q, c);
    } else {
        lemma_large_quotient(n, r, q, c);
    }
}

/// With few units the root's square is the number itself and the quotient is one.
proof fn lemma_small_quotient(n: nat, r: nat, q: nat, c: nat)
    requires
        0 < n < 2 * TWO_39,
        ({
            let x = units(r) * units(r);
            let e = EXPONENT_UNIT as int;
            let no = n * one_in_units();
            &&& no * (e * e) < x * ((e + 1) * (e + 1))
            &&& x * (e * e) <= no * ((e + 1) * (e + 1))
        }),
        q == rounded(Exact::Ratio { dividend: units(r) * units(r), divisor: one_in_units() }),
        c == rounded(Exact::Ratio { dividend: n * one_in_units(), divisor: units(q) }),
    ensures
        q == n,
        c < INFINITY_MAGNITUDE,
        units(c) == one_in_units(),
{
    let one = one_in_units() as int;
    let e = EXPONENT_UNIT as int;
    let x = (units(r) * units(r)) as int;
    let no = n * one;
    lemma_pow2_pos(1074);
    let exact = Exact::Ratio { dividend: x as nat, divisor: one as nat };
    let big = e * e;
    let over = 2 * e + 1;
    assert((e + 1) * (e + 1) == big + over) by (nonlinear_arith)
        requires
            big == e * e,
            over == 2 * e + 1,
    ;
    // The square misses `no` by less than half of `one`.
    assert(no * over < one * (big / 4)) by (nonlinear_arith)
        requires
            no == n * one,
            one > 0,
            n < 2 * 0x80_0000_0000,
            over == 2 * 0x10_0000_0000_0000 + 1,
            big == 0x10_0000_0000_0000 * 0x10_0000_0000_0000,
    ;
    assert(no * (big + over) == no * big + no * over) by (nonlinear_arith);
    let gap = x - no;
    assert(x * big == no * big + gap * big) by (nonlinear_arith)
        requires
            gap == x - no,
    ;
    assert(gap * big <= no * over);
    assert(2 * gap < one) by (nonlinear_arith)
        requires
            gap * big <= no * over,
            no * over < one * (big / 4),
            big == 0x10_0000_0000_0000 * 0x10_0000_0000_0000,
            one > 0,
    ;
    assert(x * (big + over) == no * big + gap * big + (no + gap) * over) by (nonlinear_arith)
        requires
            x * big == no * big + gap * big,
            x == no + gap,
    ;
    assert(gap * big + (no + gap) * over > 0);
    assert(-2 * gap < one) by (nonlinear_arith)
        requires
            gap * big + (no + gap) * over > 0,
            no * over < one * (big / 4),
            big == 0x10_0000_0000_0000 * 0x10_0000_0000_0000,
            over > 0,
            one > 0,
    ;
    assert(one * (2 * n - 1) == 2 * no - one) by (nonlinear_arith)
        requires
            no == n * one,
    ;
    assert(one * (2 * n + 1) == 2 * no + one) by (nonlinear_arith)
        requires
            no == n * one,
    ;
    lemma_rounded_to_whole(exact, n);
    assert(units(q) == n);
    lemma_integer_exact(1);
    let m = integer(1).magnitude();
    assert(units(m) == one);
    let quotient = Exact::Ratio { dividend: no as nat, divisor: n };
    assert(2 * no - n * (2 * units(m)) == 0) by (nonlinear_arith)
        requires
            no == n * one,
            units(m) == one,
    ;
    lemma_rounded_exact(quotient, m);
}

/// With many units each of the three roundings errs by little.
proof fn lemma_large_quotient(n: nat, r: nat, q: nat, c: nat)
    requires
        2 * TWO_39 <= n,
        ({
            let x = units(r) * units(r);
            let e = EXPONENT_UNIT as int;
            let no = n * one_in_units();
            &&& no * (e * e) < x * ((e + 1) * (e + 1))
            &&& x * (e * e) <= no * ((e + 1) * (e + 1))
        }),
        q == rounded(Exact::Ratio { dividend: units(r) * units(r), divisor: one_in_units() }),
        q < INFINITY_MAGNITUDE,
        c == rounded(Exact::Ratio { dividend: n * one_in_units(), divisor: units(q) }),
    ensures
        0 < q,
        c < INFINITY_MAGNITUDE,
        10_000_000_000 * (units(c) - one_in_units()) <= one_in_units(),
        10_000_000_000 * (one_in_units() - units(c)) <= one_in_units(),
{
    let one = one_in_units() as int;
    let e = EXPONENT_UNIT as int;
    let d = TWO_39 as int;
    let x = (units(r) * units(r)) as int;
    let no = n * one;
    let y = units(q) as int;
    lemma_pow2_pos(1074);
    // The squared root against `no`.
    lemma_relax(x, no, e, d);
    // Its rounding.
    lemma_ratio_error(x as nat, one as nat, q);
    let error = if y * one >= x {
        y * one - x
    } else {
        x - y * one
    };
    assert(no >= 2 * d * one) by (nonlinear_arith)
        requires
            no == n * one,
            n >= 2 * d,
            one > 0,
    ;
    assert(one * d <= x) by (nonlinear_arith)
        requires
            x * (d + 1) >= no * d,
            no >= 2 * d * one,
            d >= 1,
            one > 0,
    ;
    assert(error * d <= x) by {
        if error <= one {
            assert(error * d <= one * d) by (nonlinear_arith)
                requires
                    error <= one,
                    d > 0,
            ;
        } else {
            assert(error * d <= error * e) by (nonlinear_arith)
                requires
                    error >= 0,
                    d <= e,
            ;
        }
    }
    assert(y * one * d <= x * (d + 1)) by (nonlinear_arith)
        requires
            error * d <= x,
            y * one - x <= error,
            d > 0,
    ;
    assert(y * one * d >= x * (d - 1)) by (nonlinear_arith)
        requires
            error * d <= x,
            x - y * one <= error,
            d > 0,
    ;
    assert(y * (d * d) <= n * ((d + 1) * (d + 1))) by (nonlinear_arith)
        requires
            y * one * d <= x * (d + 1),
            x * d <= no * (d + 1),
            no == n * one,
            one > 0,
            d > 0,
    ;
    assert(y * (d + 1) >= n * (d - 1)) by (nonlinear_arith)
        requires
            y * one * d >= x * (d - 1),
            x * (d + 1) >= no * d,
            no == n * one,
            one > 0,
            d > 1,
    ;
    assert(y > 0) by (nonlinear_arith)
        requires
            y * (d + 1) >= n * (d - 1),
            n > 0,
            d > 1,
    ;
    lemma_units_order(0, q);
    assert(n <= 2 * y) by (nonlinear_arith)
        requires
            y * (d + 1) >= n * (d - 1),
            n > 0,
            y > 0,
            d >= 3,
    ;
    assert(y <= 2 * n) by (nonlinear_arith)
        requires
            y * (d * d) <= n * ((d + 1) * (d + 1)),
            n > 0,
            d >= 3,
    ;
    lemma_quotient_finite(n, y as nat, c);
    lemma_ratio_error(no as nat, y as nat, c);
    let z = units(c) as int;
    let miss = if z * y >= no {
        z * y - no
    } else {
        no - z * y
    };
    assert(y * d <= no) by {
        lemma_one_large();
        assert(y * d <= (2 * n) * d) by (nonlinear_arith)
            requires
                y <= 2 * n,
                d > 0,
        ;
        assert((2 * n) * d <= n * one) by (nonlinear_arith)
            requires
                2 * d <= one,
                n > 0,
        ;
    }
    assert(miss * d <= no) by {
        if miss <= y {
            assert(miss * d <= y * d) by (nonlinear_arith)
                requires
                    miss <= y,
                    d > 0,
            ;
        } else {
            assert(miss * d <= miss * e) by (nonlinear_arith)
                requires
                    miss >= 0,
                    d <= e,
            ;
        }
    }
    assert(z * y * d <= no * (d + 1)) by (nonlinear_arith)
        requires
            miss * d <= no,
            z * y - no <= miss,
            d > 0,
    ;
    assert(z * y * d >= no * (d - 1)) by (nonlinear_arith)
        requires
            miss * d <= no,
            no - z * y <= miss,
            d > 0,
    ;
    assert(z * ((d - 1) * d) <= one * ((d + 1) * (d + 1))) by {
        lemma_upper(z, y, n as int, one, d);
    }
    assert(z * ((d + 1) * (d + 1)) >= one * ((d - 1) * d)) by {
        lemma_lower(z, y, n as int, one, d);
    }
}

proof fn lemma_one_large()
    ensures
        one_in_units() >= 2 * TWO_39,
{
    vstd::arithmetic::power2::lemma2_to64();
    vstd::arithmetic::power2::lemma2_to64_rest();
    lemma_pow2_weakly_increases(64, 1074);
}

proof fn lemma_upper(z: int, y: int, n: int, one: int, d: int)
    requires
        z * y * d <= n * one * (d + 1),
        y * (d + 1) >= n * (d - 1),
        z >= 0,
        n > 0,
        d > 1,
    ensures
        z * ((d - 1) * d) <= one * ((d + 1) * (d + 1)),
{
    let w = z * d;
    assert(w * (y * (d + 1)) >= w * (n * (d - 1))) by (nonlinear_arith)
        requires
            y * (d + 1) >= n * (d - 1),
            w == z * d,
            z >= 0,
            d > 1,
    ;
    assert(w * (y * (d + 1)) == (z * y * d) * (d + 1)) by (nonlinear_arith)
        requires
            w == z * d,
    ;
    assert((z * y * d) * (d + 1) <= (n * one * (d + 1)) * (d + 1)) by (nonlinear_arith)
        requires
            z * y * d <= n * one * (d + 1),
            d > 1,
    ;
    assert((n * one * (d + 1)) * (d + 1) == n * (one * ((d + 1) * (d + 1)))) by (nonlinear_arith);
    assert(w * (n * (d - 1)) == n * (z * ((d - 1) * d))) by (nonlinear_arith)
        requires
            w == z * d,
    ;
    let left = z * ((d - 1) * d);
    let right = one * ((d + 1) * (d + 1));
    assert(left <= right) by (nonlinear_arith)
        requires
            n * left <= n * right,
            n > 0,
    ;
}

proof fn lemma_lower(z: int, y: int, n: int, one: int, d: int)
    requires
        z * y * d >= n * one * (d - 1),
        y * (d * d) <= n * ((d + 1) * (d + 1)),
        z >= 0,
        n > 0,
        d > 1,
    ensures
        z * ((d + 1) * (d + 1)) >= one * ((d - 1) * d),
{
    assert(z * (y * (d * d)) <= z * (n * ((d + 1) * (d + 1)))) by (nonlinear_arith)
        requires
            y * (d * d) <= n * ((d + 1) * (d + 1)),
            z >= 0,
    ;
    assert(z * (y * (d * d)) == (z * y * d) * d) by (nonlinear_arith);
    assert((z * y * d) * d >= (n * one * (d - 1)) * d) by (nonlinear_arith)
        requires
            z * y * d >= n * one * (d - 1),
            d > 1,
    ;
    assert((n * one * (d - 1)) * d == n * (one * ((d - 1) * d))) by (nonlinear_arith);
    let left = z * ((d + 1) * (d + 1));
    let right = one * ((d - 1) * d);
    assert(z * (n * ((d + 1) * (d + 1))) == n * left) by (nonlinear_arith)
        requires
            left == z * ((d + 1) * (d + 1)),
    ;
    assert(left >= right) by (nonlinear_arith)
        requires
            n * left >= n * right,
            n > 0,
    ;
}

/// Bounds to one part in 2^52, twice over, are bounds to one part in 2^39.
proof fn lemma_relax(x: int, no: int, e: int, d: int)
    requires
        no * (e * e) < x * ((e + 1) * (e + 1)),
        x * (e * e) <= no * ((e + 1) * (e + 1)),
        e == EXPONENT_UNIT,
        d == TWO_39,
        x >= 0,
        no >= 0,
    ensures
        x * (d + 1) >= no * d,
        x * d <= no * (d + 1),
{
    let p = e * e;
    let q = (e + 1) * (e + 1);
    assert(d * q <= (d + 1) * p && p > 0) by (nonlinear_arith)
        requires
            p == e * e,
            q == (e + 1) * (e + 1),
            e == 0x10_0000_0000_0000,
            d == 0x80_0000_0000,
    ;
    let left = x * (d + 1);
    let right = no * d;
    assert(right * p <= left * p) by (nonlinear_arith)
        requires
            no * p < x * q,
            d * q <= (d + 1) * p,
            x >= 0,
            d > 0,
            left == x * (d + 1),
            right == no * d,
    ;
    assert(right <= left) by (nonlinear_arith)
        requires
            right * p <= left * p,
            p > 0,
    ;
    let low = x * d;
    let high = no * (d + 1);
    assert(low * p <= high * p) by (nonlinear_arith)
        requires
            x * p <= no * q,
            d * q <= (d + 1) * p,
            no >= 0,
            d > 0,
            low == x * d,
            high == no * (d + 1),
    ;
    assert(low <= high) by (nonlinear_arith)
        requires
            low * p <= high * p,
            p > 0,
    ;
}

/// The quotient of like numbers does not overflow.
proof fn lemma_quotient_finite(n: nat, y: nat, c: nat)
    requires
        0 < n <= 2 * y,
        c == rounded(Exact::Ratio { dividend: n * one_in_units(), divisor: y }),
    ensures
        c < INFINITY_MAGNITUDE,
{
    let t = lemma_top_values();
    let x = Exact::Ratio { dividend: n * one_in_units(), divisor: y };
    lemma_rounded_nearest(x);
    let top = (INFINITY_MAGNITUDE - 1) as nat;
    if c == INFINITY_MAGNITUDE {
        let mid = units(top) + units(c);
        let one = one_in_units();
        assert(x.twice_against(mid) >= 0);
        vstd::arithmetic::power2::lemma2_to64();
        lemma_pow2_adds(2, 1074);
        vstd::arithmetic::power2::lemma_pow2_strictly_increases(1076, 2098);
        assert(mid > 4 * one);
        assert(y * mid > y * (4 * one)) by (nonlinear_arith)
            requires
                mid > 4 * one,
                y > 0,
        ;
        assert(2 * (n * one) <= y * (4 * one)) by (nonlinear_arith)
            requires
                n <= 2 * y,
                one >= 0,
        ;
        assert(false);
    }
}

/// A sum of squares is at least zero, if it is a number.
proof fn lemma_sum_of_squares(a: Seq<Binary64>, n: nat)
    requires
        n <= a.len(),
        !sum(products(a, a, n)).nan(),
    ensures
        sum(products(a, a, n)).value() >= 0,
    decreases n,
{
    if n > 0 {
        let s = products(a, a, n);
        let k = (n - 1) as nat;
        assert(s.drop_last() =~= products(a, a, k));
        lemma_sum_of_squares(a, k);
        law_square(a[k as int], a[k as int]);
        lemma_value_zero(s.last());
        law_plus_nonnegative(sum(s.drop_last()), s.last());
    }
}

/// Vectors that agree in their common components have a cosine similarity of one, to within
/// one part in 10^10. The similarity of vectors whose squared length overflows is not a number,
/// and vectors without length are similar to nothing.
pub proof fn law_cosine_of_equals(a: Seq<Binary64>, b: Seq<Binary64>)
    requires
        forall|i: int| 0 <= i < common_len(a, b) ==> #[trigger] a[i] == b[i],
        sum(products(a, a, common_len(a, b))).finite(),
        !sum(products(a, a, common_len(a, b))).zero(),
    ensures
        cosine(a, b).finite(),
        10_000_000_000 * (cosine(a, b).value() - one_in_units()) <= one_in_units(),
        10_000_000_000 * (one_in_units() - cosine(a, b).value()) <= one_in_units(),
{
    let n = common_len(a, b);
    assert(products(a, b, n) =~= products(a, a, n));
    assert(products(b, b, n) =~= products(a, a, n));
    let square = sum(products(a, a, n));
    lemma_sum_of_squares(a, n);
    lemma_value_zero(square);
    let m = square.magnitude();
    lemma_units_order(0, m);
    lemma_units_order(m, (INFINITY_MAGNITUDE - 1) as nat);
    let r = rounded(Exact::Root { square: units(m) * one_in_units() });
    let q = rounded(Exact::Ratio { dividend: units(r) * units(r), divisor: one_in_units() });
    let c = rounded(Exact::Ratio { dividend: units(m) * one_in_units(), divisor: units(q) });
    lemma_quotient_near_one(units(m), r, q, c);
    let root = square.root();
    assert(root == signed_magnitude(false, r));
    assert(root.magnitude() == r && !root.negative());
    let product = root.times(root);
    assert(product == signed_magnitude(false, q));
    assert(product.magnitude() == q && !product.negative());
    assert(!square.negative());
    assert(square.over(product) == signed_magnitude(false, c));
    if n == 0 {
        assert(products(a, a, 0) =~= Seq::<Binary64>::empty());
    }
}

/// The root of a number that has a unit at all is at least 2^537 units.
proof fn lemma_root_large(n: nat)
    requires
        n > 0,
    ensures
        units(rounded(Exact::Root { square: n * one_in_units() })) >= pow2(537),
{
    let one = one_in_units();
    let x = Exact::Root { square: n * one };
    let r = rounded(x);
    let e = EXPONENT_UNIT as nat;
    let m = 485 * e + e;
    let big = pow2(537);
    vstd::arithmetic::power2::lemma2_to64_rest();
    lemma_pow2_adds(52, 485);
    lemma_pow2_adds(537, 537);
    lemma_units_of_scaled(485, e);
    assert(units(m) == big);
    lemma_rounded_nearest(x);
    if r < m {
        lemma_units_increase(r, m);
        let mid = units(r) + units(m);
        assert(x.twice_against(mid) <= 0);
        assert(mid * mid < (2 * big) * (2 * big)) by (nonlinear_arith)
            requires
                0 <= mid < 2 * big,
        ;
        assert((2 * big) * (2 * big) == 4 * (big * big)) by (nonlinear_arith);
        assert(n * one >= one) by (nonlinear_arith)
            requires
                n >= 1,
        ;
        assert(false);
    }
    lemma_units_order(r, m);
}

/// The product of two lengths that are not zero is not zero.
proof fn lemma_norms_product(a: Binary64, b: Binary64)
    requires
        !a.nan() && a.value() > 0,
        !b.nan() && b.value() > 0,
    ensures
        !a.root().times(b.root()).nan(),
        !a.root().times(b.root()).zero(),
{
    let (x, y) = (a.root(), b.root());
    let one = one_in_units();
    let big = pow2(537);
    lemma_pow2_pos(1074);
    lemma_pow2_pos(537);
    lemma_pow2_adds(537, 537);
    lemma_value_zero(a);
    lemma_value_zero(b);
    lemma_rounded_nearest(Exact::Root { square: units(a.magnitude()) * one });
    lemma_rounded_nearest(Exact::Root { square: units(b.magnitude()) * one });
    lemma_units_order(0, a.magnitude());
    lemma_units_order(0, b.magnitude());
    if a.finite() {
        lemma_root_large(units(a.magnitude()));
    }
    if b.finite() {
        lemma_root_large(units(b.magnitude()));
    }
    let (u, v) = (units(x.magnitude()), units(y.magnitude()));
    assert(!x.nan() && !y.nan());
    assert(!x.zero() && !y.zero());
    if x.finite() && y.finite() {
        let exact = Exact::Ratio { dividend: u * v, divisor: one };
        let q = rounded(exact);
        lemma_rounded_nearest(exact);
        assert(u * v >= big * big) by (nonlinear_arith)
            requires
                u >= big,
                v >= big,
        ;
        if q == 0 {
            assert(exact.twice_against(units(0) + units(1)) <= 0);
            assert(one * (units(0) + units(1)) == one) by (nonlinear_arith)
                requires
                    units(0) + units(1) == 1,
            ;
            assert(false);
        }
    }
}

/// A sum of finite squares is a number.
proof fn lemma_sum_of_finite_squares(a: Seq<Binary64>, n: nat)
    requires
        n <= a.len(),
        forall|i: int| 0 <= i < n ==> (#[trigger] a[i]).finite(),
    ensures
        !sum(products(a, a, n)).nan(),
        sum(products(a, a, n)).value() >= 0,
{
    let s = products(a, a, n);
    assert forall|i: int| 0 <= i < s.len() implies !(#[trigger] s[i]).nan() && s[i].value()
        >= 0 by {
        law_square(a[i], a[i]);
        lemma_value_zero(s[i]);
    }
    lemma_sum_nonnegative(s);
}

/// Finite vectors of which in each place one is zero have a cosine similarity of zero.
pub proof fn law_cosine_of_disjoint(a: Seq<Binary64>, b: Seq<Binary64>)
    requires
        forall|i: int|
            0 <= i < common_len(a, b) ==> {
                &&& (#[trigger] a[i]).finite()
                &&& b[i].finite()
                &&& a[i].zero() || b[i].zero()
            },
    ensures
        cosine(a, b).zero(),
{
    let n = common_len(a, b);
    let s = products(a, b, n);
    assert forall|i: int| 0 <= i < s.len() implies (#[trigger] s[i]).zero() by {
        if b[i].zero() {
            law_times_zero(a[i], b[i]);
        } else {
            law_times_commutes(a[i], b[i]);
            law_times_zero(b[i], a[i]);
        }
    }
    lemma_sum_of_zeros(s);
    assert forall|i: int| 0 <= i < n implies (#[trigger] b[i]).finite() by {
        assert(a[i].finite());
    }
    lemma_sum_of_finite_squares(a, n);
    lemma_sum_of_finite_squares(b, n);
    let (x, y) = (sum(products(a, a, n)), sum(products(b, b, n)));
    lemma_value_zero(x);
    lemma_value_zero(y);
    if !x.zero() && !y.zero() {
        lemma_norms_product(x, y);
        let product = norm(a, n).times(norm(b, n));
        let quotient = Exact::Ratio {
            dividend: units(sum(s).magnitude()) * one_in_units(),
            divisor: units(product.magnitude()),
        };
        lemma_units_order(0, product.magnitude());
        assert(0 * one_in_units() == 0);
        assert(units(product.magnitude()) * 0 == 0);
        lemma_rounded_exact(quotient, 0);
    }
}

} // verus!
