//! The range of cosine similarity.

use vstd::arithmetic::power2::{lemma_pow2_adds, lemma_pow2_pos, lemma_pow2_unfold, pow2};
use vstd::prelude::*;

use crate::accuracy::{
    apart, lemma_nonnegative_sum_error, lemma_plus_error, lemma_power_magnitude,
    lemma_ratio_error, lemma_root_square, lemma_sum_against_total, total, MOST_TERMS,
};
use crate::arithmetic::one_in_units;
use crate::arithmetic_laws::{law_square, lemma_value_zero};
use crate::binary64::{
    lemma_units_order, signed_magnitude, units, Binary64, EXPONENT_UNIT, INFINITY_MAGNITUDE,
};
use crate::proportion::{
    at_most, lemma_at_most_chain, lemma_at_most_scaled, lemma_at_most_sum, lemma_cauchy_step,
};
use crate::rounding::{
    lemma_pow2_weakly_increases, lemma_rounded_at_most, lemma_rounded_exact, rounded, Exact,
};
use crate::scaling_laws::{is_between, is_moderate, lemma_norm_between};
use crate::sequences::sum;
use crate::vector::{common_len, cosine, norm, products};

verus! {

/// The product of the sizes of two numbers.
pub open spec fn size_product(x: Binary64, y: Binary64) -> int {
    (units(x.magnitude()) * units(y.magnitude())) as int
}

/// A product of numbers from 2^575 to 2^`high` units, or zero, against the exact one.
pub proof fn lemma_product(x: Binary64, y: Binary64, high: nat)
    requires
        is_between(x, 575, high),
        is_between(y, 575, high),
        1500 <= high <= 1585,
    ensures
        x.times(y).finite(),
        ({
            let w = units(x.times(y).magnitude()) as int;
            let q = size_product(x, y);
            let one = one_in_units() as int;
            &&& at_most(w * one, q, 1)
            &&& at_most(q, w * one, 2)
            &&& 0 <= w <= pow2((2 * high - 1074) as nat)
            &&& q >= 0
        }),
{
    let e = EXPONENT_UNIT as int;
    let one = one_in_units() as int;
    let (u, v) = (units(x.magnitude()), units(y.magnitude()));
    let p = x.times(y);
    let q = (u * v) as int;
    let exact = Exact::Ratio { dividend: u * v, divisor: one_in_units() };
    let m = rounded(exact);
    lemma_pow2_pos(1074);
    if x.zero() || y.zero() {
        assert(u * v == 0) by (nonlinear_arith)
            requires
                u == 0 || v == 0,
        ;
        assert(one_in_units() * 0 == 0);
        lemma_rounded_exact(exact, 0);
        assert(p.magnitude() == 0);
        assert(0 * one == 0 && 0 * e == 0 && 0 * (e + 1) == 0 && 0 * (e + 2) == 0);
    } else {
        let (l, h) = (pow2(575), pow2(high));
        let k = (2 * high - 1074) as nat;
        vstd::arithmetic::power2::lemma2_to64_rest();
        lemma_pow2_adds(575, 575);
        lemma_pow2_adds(high, high);
        lemma_pow2_adds(52, 1074);
        lemma_pow2_adds(k, 1074);
        lemma_pow2_weakly_increases(1126, 1150);
        assert(l * l <= u * v <= h * h) by (nonlinear_arith)
            requires
                l <= u <= h,
                l <= v <= h,
        ;
        let top = lemma_power_magnitude(k);
        assert(one_in_units() * (2 * units(top)) == 2 * (pow2(k) * one)) by (nonlinear_arith)
            requires
                units(top) == pow2(k),
                one == one_in_units(),
        ;
        lemma_rounded_at_most(exact, top);
        lemma_units_order(top, m);
        assert(p.magnitude() == m);
        lemma_ratio_error(u * v, one_in_units(), m);
        let w = units(m) as int;
        let error = apart(w * one, q);
        assert(e * one <= q);
        assert(error * e <= q) by {
            if error <= one {
                assert(error * e <= e * one) by (nonlinear_arith)
                    requires
                        error <= one,
                        e > 0,
                ;
            }
        }
        let t = w * one;
        assert(t * e <= q * (e + 1)) by (nonlinear_arith)
            requires
                t - q <= error,
                error * e <= q,
                e > 0,
        ;
        assert(q * (e - 1) <= t * e) by (nonlinear_arith)
            requires
                q - t <= error,
                error * e <= q,
                e > 0,
        ;
        assert(t >= 0) by (nonlinear_arith)
            requires
                t == w * one,
                w >= 0,
                one > 0,
        ;
        assert(q * e <= t * (e + 2)) by (nonlinear_arith)
            requires
                q * (e - 1) <= t * e,
                e == 0x10_0000_0000_0000,
                t >= 0,
                q >= 0,
        ;
    }
}

/// The exact sum of the sizes of the elements.
pub open spec fn sizes(s: Seq<Binary64>) -> int
    decreases s.len(),
{
    if s.len() == 0 {
        0
    } else {
        sizes(s.drop_last()) + units(s.last().magnitude())
    }
}

/// A rounded sum against the exact sum of the sizes.
pub proof fn lemma_sum_size(s: Seq<Binary64>)
    requires
        forall|i: int| 0 <= i < s.len() ==> (#[trigger] s[i]).finite(),
        s.len() <= MOST_TERMS,
        sizes(s) <= pow2(2096),
    ensures
        sum(s).finite(),
        apart(sum(s).value(), total(s)) * EXPONENT_UNIT <= s.len() * sizes(s),
        apart(total(s), 0) <= sizes(s),
    decreases s.len(),
{
    let n = s.len() as int;
    let e = EXPONENT_UNIT as int;
    if n > 0 {
        let t = s.drop_last();
        let x = s.last();
        let k = n - 1;
        assert forall|i: int| 0 <= i < t.len() implies (#[trigger] t[i]).finite() by {
            assert(t[i] == s[i]);
        }
        assert(s[n - 1] == x);
        lemma_sum_size(t);
        let p = sum(t);
        let v = p.value() + x.value();
        let (before, after) = (sizes(t), sizes(s));
        let off = apart(p.value(), total(t));
        assert(off <= before) by (nonlinear_arith)
            requires
                off * e <= k * before,
                k <= e,
                0 <= k,
                e > 0,
                before >= 0,
        ;
        lemma_pow2_unfold(2097);
        assert(apart(v, 0) <= 2 * after);
        lemma_plus_error(p, x);
        let r = sum(s);
        let step = apart(r.value(), v);
        let all = apart(r.value(), total(s));
        assert(all <= off + step);
        assert(all * e <= k * before + after) by (nonlinear_arith)
            requires
                all <= off + step,
                off * e <= k * before,
                step * e <= after,
                e > 0,
        ;
        assert(k * before + after <= n * after) by (nonlinear_arith)
            requires
                k == n - 1,
                0 <= k,
                before <= after,
        ;
    } else {
        assert(0 * e == 0);
    }
}

/// The exact sum of the sizes of the products of the first `n` components.
pub open spec fn exact_sizes(a: Seq<Binary64>, b: Seq<Binary64>, n: nat) -> int
    decreases n,
{
    if n == 0 {
        0
    } else {
        exact_sizes(a, b, (n - 1) as nat) + size_product(a[n - 1], b[n - 1])
    }
}

/// Whether the first `n` components are zero or between 2^-499 and 2^499 in size.
pub open spec fn all_moderate(a: Seq<Binary64>, n: nat) -> bool {
    n <= a.len() && forall|i: int| 0 <= i < n ==> is_moderate(#[trigger] a[i])
}

/// The sizes of rounded products against those of the exact ones.
pub proof fn lemma_sizes(a: Seq<Binary64>, b: Seq<Binary64>, n: nat)
    requires
        all_moderate(a, n),
        all_moderate(b, n),
    ensures
        ({
            let w = sizes(products(a, b, n));
            let q = exact_sizes(a, b, n);
            let one = one_in_units() as int;
            &&& at_most(w * one, q, 1)
            &&& at_most(q, w * one, 2)
            &&& 0 <= w <= n * pow2(2072)
            &&& q >= 0
        }),
        forall|i: int| 0 <= i < n ==> (#[trigger] products(a, b, n)[i]).finite(),
    decreases n,
{
    let one = one_in_units() as int;
    let s = products(a, b, n);
    if n == 0 {
        assert(s =~= Seq::<Binary64>::empty());
        assert(0 * one == 0 && 0 * pow2(2072) == 0);
    } else {
        let k = (n - 1) as nat;
        let (x, y) = (a[k as int], b[k as int]);
        let p = products(a, b, k);
        assert(s.drop_last() =~= p);
        lemma_sizes(a, b, k);
        assert(is_moderate(x) && is_moderate(y));
        lemma_product(x, y, 1573);
        assert(s.last() == x.times(y));
        let (w, v) = (sizes(p), units(s.last().magnitude()) as int);
        assert((w + v) * one == w * one + v * one) by (nonlinear_arith);
        assert(n * pow2(2072) == k * pow2(2072) + pow2(2072)) by (nonlinear_arith)
            requires
                n == k + 1,
        ;
        let (q, z) = (exact_sizes(a, b, k), size_product(x, y));
        lemma_at_most_sum(w * one, q, v * one, z, 1);
        lemma_at_most_sum(q, w * one, z, v * one, 2);
        assert forall|i: int| 0 <= i < n implies (#[trigger] s[i]).finite() by {
            if i < k {
                assert(s[i] == p[i]);
            }
        }
    }
}

/// The Cauchy-Schwarz inequality.
pub proof fn lemma_cauchy(a: Seq<Binary64>, b: Seq<Binary64>, n: nat)
    ensures
        exact_sizes(a, a, n) >= 0,
        exact_sizes(b, b, n) >= 0,
        exact_sizes(a, b, n) * exact_sizes(a, b, n) <= exact_sizes(a, a, n) * exact_sizes(b, b, n),
    decreases n,
{
    if n > 0 {
        let k = (n - 1) as nat;
        lemma_cauchy(a, b, k);
        let (v, w) = (units(a[k as int].magnitude()), units(b[k as int].magnitude()));
        lemma_cauchy_step(
            exact_sizes(a, a, k),
            exact_sizes(b, b, k),
            exact_sizes(a, b, k),
            v as int,
            w as int,
        );
    } else {
        assert(0 * 0 == 0);
    }
}

/// The sizes of so many products add up to a number in range.
pub proof fn lemma_size_bound(n: nat)
    requires
        n <= 0x10_0000,
    ensures
        n * pow2(2072) <= pow2(2096),
{
    vstd::arithmetic::power2::lemma2_to64();
    lemma_pow2_adds(20, 2072);
    lemma_pow2_weakly_increases(2092, 2096);
    assert(n * pow2(2072) <= pow2(20) * pow2(2072)) by (nonlinear_arith)
        requires
            n <= pow2(20),
    ;
}

proof fn lemma_sizes_of_nonnegative(s: Seq<Binary64>)
    requires
        forall|i: int| 0 <= i < s.len() ==> !(#[trigger] s[i]).negative(),
    ensures
        total(s) == sizes(s),
    decreases s.len(),
{
    if s.len() > 0 {
        let t = s.drop_last();
        assert forall|i: int| 0 <= i < t.len() implies !(#[trigger] t[i]).negative() by {
            assert(t[i] == s[i]);
        }
        lemma_sizes_of_nonnegative(t);
        assert(s[s.len() - 1] == s.last());
    }
}

/// The exact squared length and the square of the length.
pub proof fn lemma_norm_square(a: Seq<Binary64>, n: nat)
    requires
        all_moderate(a, n),
        n <= 0x10_0000,
    ensures
        is_between(norm(a, n), 575, 1585),
        norm(a, n).value() >= 0,
        at_most(
            exact_sizes(a, a, n),
            norm(a, n).value() * norm(a, n).value(),
            2 * n as int + 7,
        ),
        at_most(norm(a, n).value() * norm(a, n).value(), exact_sizes(a, a, n), n as int + 6),
{
    let one = one_in_units() as int;
    let s = products(a, a, n);
    let k = n as int;
    lemma_norm_between(a, n);
    lemma_sizes(a, a, n);
    lemma_size_bound(n);
    assert forall|i: int| 0 <= i < s.len() implies {
        &&& !(#[trigger] s[i]).negative()
        &&& s[i].finite()
        &&& s[i].value() >= 0
    } by {
        law_square(a[i], a[i]);
    }
    lemma_sizes_of_nonnegative(s);
    lemma_nonnegative_sum_error(s);
    let p = sum(s);
    lemma_sum_against_total(p.value(), total(s), k);
    lemma_root_square(p);
    let (q, t, v) = (exact_sizes(a, a, n), total(s), p.value());
    let d = norm(a, n).value();
    assert(t * one >= 0 && v * one >= 0 && d * d >= 0) by (nonlinear_arith)
        requires
            t >= 0,
            v >= 0,
            one >= 0,
    ;
    lemma_at_most_scaled(t, v, 2 * k, one);
    lemma_at_most_chain(q, t * one, v * one, 2, 2 * k);
    lemma_at_most_chain(q, v * one, d * d, 2 * k + 3, 3);
    lemma_at_most_scaled(v, t, k, one);
    lemma_at_most_chain(d * d, v * one, t * one, 3, k);
    lemma_at_most_chain(d * d, t * one, q, k + 4, 1);
}

/// Bounds on two squared lengths bound what is at most their geometric mean.
proof fn lemma_geometric_mean(b: int, x: int, y: int, d: int, g: int, k: int)
    requires
        b * b <= x * y,
        at_most(x, d * d, k),
        at_most(y, g * g, k),
        0 <= b,
        0 <= x,
        0 <= y,
        0 <= d,
        0 <= g,
        0 <= k,
    ensures
        at_most(b, d * g, k),
{
    let e = EXPONENT_UNIT as int;
    let f = e + k;
    let (d2, g2) = (d * d, g * g);
    assert(0 <= x * e && 0 <= y * e) by (nonlinear_arith)
        requires
            0 <= x,
            0 <= y,
            e > 0,
    ;
    assert((x * e) * (y * e) <= (d2 * f) * (g2 * f)) by (nonlinear_arith)
        requires
            0 <= x * e <= d2 * f,
            0 <= y * e <= g2 * f,
    ;
    let (s, t) = (b * e, (d * g) * f);
    assert(s * s == (b * b) * (e * e)) by (nonlinear_arith)
        requires
            s == b * e,
    ;
    assert((b * b) * (e * e) <= (x * y) * (e * e)) by (nonlinear_arith)
        requires
            b * b <= x * y,
            e > 0,
    ;
    assert((x * y) * (e * e) == (x * e) * (y * e)) by (nonlinear_arith);
    assert((d2 * f) * (g2 * f) == t * t) by (nonlinear_arith)
        requires
            t == (d * g) * f,
            d2 == d * d,
            g2 == g * g,
    ;
    assert(t >= 0) by (nonlinear_arith)
        requires
            t == (d * g) * f,
            d >= 0,
            g >= 0,
            f >= 0,
    ;
    assert(s <= t) by (nonlinear_arith)
        requires
            s * s <= t * t,
            t >= 0,
    ;
}

/// A quotient of a number by one that it exceeds by no more than `k` parts in 2^52.
proof fn lemma_quotient(u: nat, w: nat, k: int)
    requires
        at_most(u as int, w as int, k),
        0 <= k <= EXPONENT_UNIT,
        w > 0,
    ensures
        ({
            let c = rounded(Exact::Ratio { dividend: u * one_in_units(), divisor: w });
            &&& c < INFINITY_MAGNITUDE
            &&& units(c) * EXPONENT_UNIT <= (one_in_units() + 1) * (EXPONENT_UNIT + k + 2)
        }),
{
    let e = EXPONENT_UNIT as int;
    let one = one_in_units() as int;
    let x = Exact::Ratio { dividend: u * one_in_units(), divisor: w };
    let c = rounded(x);
    lemma_pow2_pos(1074);
    lemma_pow2_unfold(1075);
    let top = lemma_power_magnitude(1075);
    assert(u <= 2 * w) by (nonlinear_arith)
        requires
            u * e <= w * (e + k),
            k <= e,
            w > 0,
            e > 0,
    ;
    assert(2 * (u * one) <= w * (2 * (2 * one))) by (nonlinear_arith)
        requires
            u <= 2 * w,
            one > 0,
    ;
    lemma_rounded_at_most(x, top);
    lemma_ratio_error(u * one_in_units(), w, c);
    let (z, n) = (units(c) as int, u * one);
    let error = apart(z * w, n);
    assert(n * e <= (w * one) * (e + k)) by (nonlinear_arith)
        requires
            n == u * one,
            u * e <= w * (e + k),
            one > 0,
    ;
    if error <= w {
        assert((z * e) * w <= (one * (e + k) + e) * w) by (nonlinear_arith)
            requires
                z * w - n <= w,
                n * e <= (w * one) * (e + k),
                e > 0,
        ;
        assert(z * e <= one * (e + k) + e) by (nonlinear_arith)
            requires
                (z * e) * w <= (one * (e + k) + e) * w,
                w > 0,
        ;
    } else {
        assert((z * w) * e <= n * (e + 1)) by (nonlinear_arith)
            requires
                z * w - n <= error,
                error * e <= n,
                e > 0,
        ;
        assert((z * w) * e * e <= (n * e) * (e + 1)) by (nonlinear_arith)
            requires
                (z * w) * e <= n * (e + 1),
                e > 0,
        ;
        assert((n * e) * (e + 1) <= ((w * one) * (e + k)) * (e + 1)) by (nonlinear_arith)
            requires
                n * e <= (w * one) * (e + k),
                e > 0,
        ;
        assert((e + k) * (e + 1) <= e * (e + k + 2)) by (nonlinear_arith)
            requires
                k <= e,
        ;
        assert(((w * one) * (e + k)) * (e + 1) <= (w * one) * (e * (e + k + 2)))
            by (nonlinear_arith)
            requires
                (e + k) * (e + 1) <= e * (e + k + 2),
                w > 0,
                one > 0,
        ;
        assert(z * e <= one * (e + k + 2)) by (nonlinear_arith)
            requires
                (z * w) * e * e <= (w * one) * (e * (e + k + 2)),
                w > 0,
                e > 0,
        ;
    }
    assert((one + 1) * (e + k + 2) == one * (e + k) + 2 * one + (e + k + 2)) by (nonlinear_arith);
    assert(one * (e + k + 2) == one * (e + k) + 2 * one) by (nonlinear_arith);
}

/// The rounded sum of products against the product of the lengths.
pub proof fn lemma_dot_size(a: Seq<Binary64>, b: Seq<Binary64>, n: nat)
    requires
        all_moderate(a, n),
        all_moderate(b, n),
        n <= 0x10_0000,
    ensures
        sum(products(a, b, n)).finite(),
        at_most(
            apart(sum(products(a, b, n)).value(), 0) * one_in_units(),
            norm(a, n).value() * norm(b, n).value(),
            3 * n as int + 10,
        ),
{
    let e = EXPONENT_UNIT as int;
    let one = one_in_units() as int;
    let k = n as int;
    let s = products(a, b, n);
    lemma_sizes(a, b, n);
    lemma_size_bound(n);
    lemma_sum_size(s);
    lemma_norm_square(a, n);
    lemma_norm_square(b, n);
    lemma_cauchy(a, b, n);
    let (d, g) = (norm(a, n).value(), norm(b, n).value());
    let (w, q) = (sizes(s), exact_sizes(a, b, n));
    let v = apart(sum(s).value(), 0);
    let off = apart(sum(s).value(), total(s));
    assert(v * e <= w * (e + k)) by (nonlinear_arith)
        requires
            v <= w + off,
            off * e <= k * w,
            e > 0,
    ;
    lemma_geometric_mean(
        q,
        exact_sizes(a, a, n),
        exact_sizes(b, b, n),
        d,
        g,
        2 * k + 7,
    );
    assert(d * g >= 0) by (nonlinear_arith)
        requires
            d >= 0,
            g >= 0,
    ;
    lemma_at_most_scaled(v, w, k, one);
    lemma_at_most_chain(v * one, w * one, q, k, 1);
    assert((k + 2) * (2 * k + 7) <= e) by (nonlinear_arith)
        requires
            0 <= k <= 0x10_0000,
            e == 0x10_0000_0000_0000,
    ;
    lemma_at_most_chain(v * one, q, d * g, k + 2, 2 * k + 7);
}

/// Cosine similarity lies between minus one and one, but for rounding: three parts in 2^52
/// for each component, and fifteen, and a unit. All components are zero or between 2^-499 and 2^499
/// in size; the squares of smaller ones lose digits, those of larger ones overflow.
pub proof fn law_cosine_in_range(a: Seq<Binary64>, b: Seq<Binary64>)
    requires
        common_len(a, b) <= 0x10_0000,
        forall|i: int|
            0 <= i < common_len(a, b) ==> is_moderate(#[trigger] a[i]) && is_moderate(b[i]),
    ensures
        cosine(a, b).finite(),
        apart(cosine(a, b).value(), 0) * EXPONENT_UNIT <= (one_in_units() + 1) * (EXPONENT_UNIT
            + 3 * common_len(a, b) + 15),
{
    let n = common_len(a, b);
    let k = n as int;
    let e = EXPONENT_UNIT as int;
    let one = one_in_units() as int;
    assert forall|i: int| 0 <= i < n implies is_moderate(#[trigger] b[i]) by {
        assert(is_moderate(a[i]));
    }
    lemma_dot_size(a, b, n);
    lemma_norm_square(a, n);
    lemma_norm_square(b, n);
    let (x, y) = (norm(a, n), norm(b, n));
    lemma_pow2_pos(1074);
    lemma_value_zero(x);
    lemma_value_zero(y);
    if n == 0 || x.zero() || y.zero() {
        assert(cosine(a, b).value() == 0);
        assert((one + 1) * (e + 3 * k + 15) >= 0) by (nonlinear_arith)
            requires
                one > 0,
                e > 0,
                k >= 0,
        ;
        assert(0 * e == 0);
    } else {
        lemma_product(x, y, 1585);
        let s = sum(products(a, b, n));
        let p = x.times(y);
        let (u, w) = (units(s.magnitude()), units(p.magnitude()));
        let (d, g) = (x.value(), y.value());
        assert(size_product(x, y) == d * g);
        assert(d * g > 0) by (nonlinear_arith)
            requires
                d > 0,
                g > 0,
        ;
        assert(w > 0) by {
            if w == 0 {
                assert(0 * one == 0 && 0 * (e + 2) == 0);
                assert((d * g) * e > 0) by (nonlinear_arith)
                    requires
                        d * g > 0,
                        e > 0,
                ;
            }
        }
        assert(w * one >= 0) by (nonlinear_arith)
            requires
                one > 0,
        ;
        lemma_at_most_chain(u * one, d * g, w * one, 3 * k + 10, 2);
        assert(u * e <= w * (e + (3 * k + 13))) by (nonlinear_arith)
            requires
                (u * one) * e <= (w * one) * (e + (3 * k + 13)),
                one > 0,
        ;
        lemma_quotient(u, w, 3 * k + 13);
        lemma_units_order(0, p.magnitude());
        let exact = Exact::Ratio { dividend: u * one_in_units(), divisor: w };
        let c = cosine(a, b);
        assert(c == s.over(p));
        assert(c == signed_magnitude(s.negative() != p.negative(), rounded(exact)));
        assert(c.magnitude() == rounded(exact));
    }
}

/// The cosine similarity of vectors of up to a thousand components lies between minus one and
/// one, to within 10^-12.
pub proof fn law_cosine_at_most_one(a: Seq<Binary64>, b: Seq<Binary64>)
    requires
        common_len(a, b) <= 1000,
        forall|i: int|
            0 <= i < common_len(a, b) ==> is_moderate(#[trigger] a[i]) && is_moderate(b[i]),
    ensures
        cosine(a, b).finite(),
        1_000_000_000_000 * (apart(cosine(a, b).value(), 0) - one_in_units()) <= one_in_units(),
{
    let n = common_len(a, b) as int;
    let e = EXPONENT_UNIT as int;
    let one = one_in_units() as int;
    law_cosine_in_range(a, b);
    vstd::arithmetic::power2::lemma2_to64();
    vstd::arithmetic::power2::lemma2_to64_rest();
    lemma_pow2_weakly_increases(64, 1074);
    let c = apart(cosine(a, b).value(), 0);
    assert((one + 1) * (e + 3 * n + 15) <= (one + 1) * (e + 3015)) by (nonlinear_arith)
        requires
            n <= 1000,
            one >= 0,
    ;
}

} // verus!
