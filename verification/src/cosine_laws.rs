//! How accurate cosine similarities are.

use vstd::arithmetic::power2::{lemma_pow2_adds, lemma_pow2_pos, pow2};
use vstd::prelude::*;

use crate::accuracy::{apart, lemma_ratio_error, total};
use crate::arithmetic::one_in_units;
use crate::arithmetic_laws::lemma_value_zero;
use crate::binary64::{lemma_units_order, signed_magnitude, units, Binary64, EXPONENT_UNIT};
use crate::distance_laws::is_shorter;
use crate::proportion::at_most;
use crate::range_laws::{
    all_moderate, exact_sizes, law_cosine_at_most_one, law_cosine_in_range, lemma_cauchy,
    lemma_dot_size, lemma_norm_square, lemma_product, lemma_size_bound, lemma_sizes,
    lemma_sum_size, size_product, sizes,
};
use crate::rounding::{lemma_pow2_weakly_increases, lemma_rounded_nearest, rounded, Exact};
use crate::scaling_laws::is_moderate;
use crate::sequence_laws::{is_running_sum, law_running_sum};
use crate::sequences::sum;
use crate::vector::{common_len, cosine, norm, products};

verus! {

/// The exact sum of the products of the first `n` components, in squared units.
pub open spec fn exact_dot(a: Seq<Binary64>, b: Seq<Binary64>, n: nat) -> int
    decreases n,
{
    if n == 0 {
        0
    } else {
        exact_dot(a, b, (n - 1) as nat) + a[n - 1].value() * b[n - 1].value()
    }
}

/// Whether `g` is the integer part of the root of `x`.
pub open spec fn is_integer_root(x: int, g: int) -> bool {
    0 <= g && g * g <= x < (g + 1) * (g + 1)
}

/// The integer part of the root of `x`.
pub open spec fn integer_root(x: int) -> int {
    choose|g: int| is_integer_root(x, g)
}

/// The exact product of the lengths of two vectors over the first `n` components, in squared
/// units, cut to an integer. Unless it is zero it is beyond 2^1149, if the components are
/// moderate.
pub open spec fn exact_lengths(a: Seq<Binary64>, b: Seq<Binary64>, n: nat) -> int {
    integer_root(exact_sizes(a, a, n) * exact_sizes(b, b, n))
}

/// Every number that is at least zero has a root.
proof fn lemma_integer_root(x: int) -> (g: int)
    requires
        x >= 0,
    ensures
        is_integer_root(x, g),
    decreases x,
{
    if x == 0 {
        assert(0 * 0 == 0 && (0 + 1) * (0 + 1) == 1) by (nonlinear_arith);
        0
    } else {
        let g = lemma_integer_root(x - 1);
        if x < (g + 1) * (g + 1) {
            g
        } else {
            assert((g + 1) * (g + 1) < (g + 2) * (g + 2)) by (nonlinear_arith)
                requires
                    g >= 0,
            ;
            g + 1
        }
    }
}

/// A rounded product, with its sign, against the exact one.
proof fn lemma_signed_product(x: Binary64, y: Binary64)
    requires
        is_moderate(x),
        is_moderate(y),
    ensures
        apart(x.times(y).value() * one_in_units(), x.value() * y.value()) * EXPONENT_UNIT <= 3
            * size_product(x, y),
        apart(x.value() * y.value(), 0) == size_product(x, y),
{
    let e = EXPONENT_UNIT as int;
    let one = one_in_units() as int;
    lemma_product(x, y, 1573);
    lemma_pow2_pos(1074);
    let p = x.times(y);
    let (u, v) = (units(x.magnitude()) as int, units(y.magnitude()) as int);
    let w = units(p.magnitude()) as int;
    let (t, q) = (w * one, u * v);
    assert(q == size_product(x, y));
    lemma_rounded_nearest(
        Exact::Ratio {
            dividend: units(x.magnitude()) * units(y.magnitude()),
            divisor: one_in_units(),
        },
    );
    assert(p.negative() == (x.negative() != y.negative()));
    assert((-u) * v == -q && u * (-v) == -q && (-u) * (-v) == q) by (nonlinear_arith)
        requires
            q == u * v,
    ;
    assert((-w) * one == -t) by (nonlinear_arith)
        requires
            t == w * one,
    ;
    assert(t >= 0) by (nonlinear_arith)
        requires
            t == w * one,
            w >= 0,
            one > 0,
    ;
    let error = apart(t, q);
    assert(apart(p.value() * one, x.value() * y.value()) == error);
    assert(2 * t <= 3 * q) by (nonlinear_arith)
        requires
            t * e <= q * (e + 1),
            q >= 0,
            e == 0x10_0000_0000_0000,
    ;
    assert(error * e <= 3 * q) by (nonlinear_arith)
        requires
            error == t - q || error == q - t,
            t * e <= q * (e + 1),
            q * e <= t * (e + 2),
            2 * t <= 3 * q,
            q >= 0,
    ;
}

/// The sum of the rounded products against that of the exact ones.
proof fn lemma_signed_products(a: Seq<Binary64>, b: Seq<Binary64>, n: nat)
    requires
        all_moderate(a, n),
        all_moderate(b, n),
    ensures
        apart(total(products(a, b, n)) * one_in_units(), exact_dot(a, b, n)) * EXPONENT_UNIT <= 3
            * exact_sizes(a, b, n),
        apart(exact_dot(a, b, n), 0) <= exact_sizes(a, b, n),
    decreases n,
{
    let e = EXPONENT_UNIT as int;
    let one = one_in_units() as int;
    let s = products(a, b, n);
    if n == 0 {
        assert(s =~= Seq::<Binary64>::empty());
        assert(0 * one == 0 && 0 * e == 0);
    } else {
        let k = (n - 1) as nat;
        let (x, y) = (a[k as int], b[k as int]);
        let p = products(a, b, k);
        assert(s.drop_last() =~= p);
        lemma_signed_products(a, b, k);
        assert(is_moderate(x) && is_moderate(y));
        lemma_signed_product(x, y);
        let v = s.last().value();
        assert(s.last() == x.times(y));
        let (t, d) = (total(p), exact_dot(a, b, k));
        let z = x.value() * y.value();
        assert((t + v) * one == t * one + v * one) by (nonlinear_arith);
        let (before, step) = (apart(t * one, d), apart(v * one, z));
        let all = apart((t + v) * one, d + z);
        assert(all <= before + step);
        assert(all * e <= before * e + step * e) by (nonlinear_arith)
            requires
                all <= before + step,
                e > 0,
        ;
    }
}

/// The rounded sum of the rounded products against the exact sum.
proof fn lemma_dot_error(a: Seq<Binary64>, b: Seq<Binary64>, n: nat)
    requires
        all_moderate(a, n),
        all_moderate(b, n),
        n <= 0x10_0000,
    ensures
        apart(sum(products(a, b, n)).value() * one_in_units(), exact_dot(a, b, n))
            * EXPONENT_UNIT <= (n + 4) * exact_sizes(a, b, n),
{
    let e = EXPONENT_UNIT as int;
    let one = one_in_units() as int;
    let k = n as int;
    let s = products(a, b, n);
    lemma_sizes(a, b, n);
    lemma_size_bound(n);
    lemma_sum_size(s);
    lemma_signed_products(a, b, n);
    let (p, t, w) = (sum(s).value(), total(s), sizes(s));
    let (d, q) = (exact_dot(a, b, n), exact_sizes(a, b, n));
    let off = apart(p, t);
    let far = apart(p * one, t * one);
    assert(far == off * one) by (nonlinear_arith)
        requires
            one >= 0,
            p >= t ==> off == p - t,
            p < t ==> off == t - p,
            p * one >= t * one ==> far == p * one - t * one,
            p * one < t * one ==> far == t * one - p * one,
    ;
    assert(far * e <= k * (w * one)) by (nonlinear_arith)
        requires
            far == off * one,
            off * e <= k * w,
            one >= 0,
    ;
    assert(k * (w * one) <= (k + 1) * q) by (nonlinear_arith)
        requires
            (w * one) * e <= q * (e + 1),
            0 <= k <= e,
            q >= 0,
            e > 0,
    ;
    let near = apart(t * one, d);
    let all = apart(p * one, d);
    assert(all <= far + near);
    assert(all * e <= far * e + near * e) by (nonlinear_arith)
        requires
            all <= far + near,
            e > 0,
    ;
    assert((k + 1) * q + 3 * q == (k + 4) * q) by (nonlinear_arith);
}

/// The product of two rounded lengths against the integer part `g` of the exact product.
proof fn lemma_lengths(d: int, h: int, x: int, y: int, g: int, n: int)
    requires
        at_most(x, d * d, 2 * n + 7),
        at_most(y, h * h, 2 * n + 7),
        at_most(d * d, x, n + 6),
        at_most(h * h, y, n + 6),
        0 <= n <= 0x10_0000,
        x >= 0,
        y >= 0,
        d * h >= pow2(1150),
        g >= 0,
        g * g <= x * y < (g + 1) * (g + 1),
    ensures
        at_most(g, d * h, 2 * n + 7),
        at_most(d * h, g, n + 7),
{
    let e = EXPONENT_UNIT as int;
    let m = d * h;
    let (d2, h2) = (d * d, h * h);
    let (f, k) = (e + 2 * n + 7, e + n + 6);
    let xy = x * y;
    assert(d2 >= 0 && h2 >= 0) by (nonlinear_arith)
        requires
            d2 == d * d,
            h2 == h * h,
    ;
    assert(m * m == d2 * h2) by (nonlinear_arith)
        requires
            m == d * h,
            d2 == d * d,
            h2 == h * h,
    ;
    lemma_pow2_pos(1150);
    lemma_product_of_bounds(x * e, d2 * f, y * e, h2 * f);
    lemma_product_of_bounds(d2 * e, x * k, h2 * e, y * k);
    assert((x * e) * (y * e) == xy * (e * e)) by (nonlinear_arith)
        requires
            xy == x * y,
    ;
    assert((d2 * f) * (h2 * f) == (m * f) * (m * f)) by (nonlinear_arith)
        requires
            m * m == d2 * h2,
    ;
    assert((d2 * e) * (h2 * e) == (m * e) * (m * e)) by (nonlinear_arith)
        requires
            m * m == d2 * h2,
    ;
    assert((x * k) * (y * k) == xy * (k * k)) by (nonlinear_arith)
        requires
            xy == x * y,
    ;
    // The integer part is not above.
    assert((g * e) * (g * e) <= xy * (e * e)) by (nonlinear_arith)
        requires
            g * g <= xy,
    ;
    assert(m * f >= 0) by (nonlinear_arith)
        requires
            m >= 0,
            f >= 0,
    ;
    let (s, t) = (g * e, m * f);
    assert(s <= t) by (nonlinear_arith)
        requires
            s * s <= t * t,
            t >= 0,
    ;
    // Nor far below.
    let up = g + 1;
    assert(xy * (k * k) <= (up * k) * (up * k)) by (nonlinear_arith)
        requires
            xy <= up * up,
    ;
    assert(up * k >= 0) by (nonlinear_arith)
        requires
            up >= 0,
            k >= 0,
    ;
    let (v, w) = (m * e, up * k);
    assert(v <= w) by (nonlinear_arith)
        requires
            v * v <= w * w,
            w >= 0,
    ;
    assert(w == g * k + k) by (nonlinear_arith)
        requires
            w == up * k,
            up == g + 1,
    ;
    vstd::arithmetic::power2::lemma2_to64();
    vstd::arithmetic::power2::lemma2_to64_rest();
    lemma_pow2_weakly_increases(60, 1150);
    assert(g >= k) by (nonlinear_arith)
        requires
            m * e <= (g + 1) * k,
            m >= 0x1000_0000_0000_0000,
            e == 0x10_0000_0000_0000,
            k <= 2 * e,
            k > 0,
            g >= 0,
    ;
    assert(g * (k + 1) == g * k + g) by (nonlinear_arith);
}

proof fn lemma_product_of_bounds(x: int, y: int, v: int, w: int)
    requires
        x <= y,
        v <= w,
        x >= 0,
        v >= 0,
    ensures
        x * v <= y * w,
{
    assert(x * v <= y * w) by (nonlinear_arith)
        requires
            0 <= x <= y,
            0 <= v <= w,
    ;
}

/// The distance of two multiples of one number.
proof fn lemma_apart_scaled(x: int, y: int, f: int)
    ensures
        apart(x * f, y * f) == apart(x, y) * apart(f, 0),
        apart(f * x, f * y) == apart(x, y) * apart(f, 0),
{
    let d = x - y;
    assert(x * f - y * f == d * f && f * x - f * y == d * f) by (nonlinear_arith)
        requires
            d == x - y,
    ;
    let (p, q) = (apart(d, 0), apart(f, 0));
    let r = d * f;
    assert(apart(r, 0) == p * q) by {
        assert((-d) * f == -r && d * (-f) == -r && (-d) * (-f) == r) by (nonlinear_arith)
            requires
                r == d * f,
        ;
        assert(p * q >= 0) by (nonlinear_arith)
            requires
                p >= 0,
                q >= 0,
        ;
    }
}

/// The numbers that a similarity is made of: the sum of products `s` for the exact sum `d`, the
/// product of lengths `m`, rounded to `w`, for the exact product `g`, and the quotient `c`. The
/// exact sum of the sizes of the products is `b`.
proof fn lemma_similarity(c: int, s: int, w: int, m: int, d: int, b: int, g: int, n: int, one: int)
    requires
        0 <= n <= 0x10_0000,
        one >= 0x1_0000_0000_0000_0000,
        apart(c * w, s * one) * EXPONENT_UNIT <= w * EXPONENT_UNIT + apart(s, 0) * one,
        at_most(w * one, m, 1),
        at_most(m, w * one, 2),
        apart(s * one, d) * EXPONENT_UNIT <= (n + 4) * b,
        b <= g,
        at_most(apart(s, 0) * one, m, 3 * n + 10),
        apart(c, 0) * EXPONENT_UNIT <= (one + 1) * (EXPONENT_UNIT + 3 * n + 15),
        at_most(g, m, 2 * n + 7),
        at_most(m, g, n + 7),
        m >= 0,
        g >= 0,
        w >= 0,
    ensures
        apart(c * g, d * one) * EXPONENT_UNIT <= (3 * n + 34) * (g * one),
{
    let e = EXPONENT_UNIT as int;
    let z = apart(c, 0);
    let v = w * one;
    let go = g * one;
    assert(m <= 2 * g) by (nonlinear_arith)
        requires
            m * e <= g * (e + (n + 7)),
            n + 7 <= e,
            g >= 0,
            e > 0,
    ;
    assert(v <= 2 * m) by (nonlinear_arith)
        requires
            v * e <= m * (e + 1),
            m >= 0,
            e >= 1,
    ;
    let so = apart(s, 0) * one;
    assert(so <= 2 * m) by (nonlinear_arith)
        requires
            so * e <= m * (e + (3 * n + 10)),
            3 * n + 10 <= e,
            m >= 0,
            e > 0,
    ;
    // The quotient is at most little above one.
    let over = (2 * n + 8) * (3 * n + 15);
    assert(over <= 0x1000_0000_0000) by (nonlinear_arith)
        requires
            over == (2 * n + 8) * (3 * n + 15),
            0 <= n <= 0x10_0000,
    ;
    assert((z * e) * (2 * n + 8) <= (one + 1) * ((2 * n + 8) * e + over)) by (nonlinear_arith)
        requires
            z * e <= (one + 1) * (e + 3 * n + 15),
            over == (2 * n + 8) * (3 * n + 15),
            n >= 0,
    ;
    assert((one + 1) * ((2 * n + 8) * e + over) <= (one * (2 * n + 9)) * e) by (nonlinear_arith)
        requires
            over <= 0x1000_0000_0000,
            0 <= n <= 0x10_0000,
            e == 0x10_0000_0000_0000,
            one >= 0x1_0000_0000_0000_0000,
    ;
    assert(z * (2 * n + 8) <= one * (2 * n + 9)) by (nonlinear_arith)
        requires
            (z * e) * (2 * n + 8) <= (one * (2 * n + 9)) * e,
            e > 0,
    ;
    assert(z <= 2 * one) by (nonlinear_arith)
        requires
            z * (2 * n + 8) <= one * (2 * n + 9),
            n >= 0,
            one > 0,
    ;
    // From the exact product of lengths to the rounded ones.
    let d0 = apart(g, m);
    assert(m * (2 * n + 7) <= g * (2 * n + 8)) by (nonlinear_arith)
        requires
            m * e <= g * (e + (n + 7)),
            0 <= n <= 0x10_0000,
            e == 0x10_0000_0000_0000,
            g >= 0,
    ;
    assert(d0 * e <= g * (2 * n + 8)) by (nonlinear_arith)
        requires
            d0 == g - m || d0 == m - g,
            g * e <= m * (e + (2 * n + 7)),
            m * e <= g * (e + (n + 7)),
            m * (2 * n + 7) <= g * (2 * n + 8),
            n >= 0,
            g >= 0,
    ;
    lemma_apart_scaled(g, m, c);
    assert((d0 * z) * e <= (2 * n + 9) * go) by (nonlinear_arith)
        requires
            d0 * e <= g * (2 * n + 8),
            z * (2 * n + 8) <= one * (2 * n + 9),
            go == g * one,
            z >= 0,
            g >= 0,
    ;
    // To their rounded product.
    let d1 = apart(m, v);
    assert(d1 * e <= 4 * m) by (nonlinear_arith)
        requires
            d1 == m - v || d1 == v - m,
            v * e <= m * (e + 1),
            m * e <= v * (e + 2),
            v <= 2 * m,
            m >= 0,
    ;
    lemma_apart_scaled(m, v, c);
    assert((d1 * z) * e <= 8 * (m * one)) by (nonlinear_arith)
        requires
            d1 * e <= 4 * m,
            0 <= z <= 2 * one,
            m >= 0,
    ;
    // To the rounded sum of products.
    let d2 = apart(c * w, s * one);
    lemma_apart_scaled(c * w, s * one, one);
    assert(c * v == (c * w) * one) by (nonlinear_arith)
        requires
            v == w * one,
    ;
    assert((d2 * one) * e <= 2 * (m * e) + 2 * (m * one)) by (nonlinear_arith)
        requires
            d2 * e <= w * e + so,
            v == w * one,
            v <= 2 * m,
            so <= 2 * m,
            one > 0,
            e > 0,
    ;
    // To the exact one.
    let d3 = apart(s * one, d);
    lemma_apart_scaled(s * one, d, one);
    assert((d3 * one) * e <= (n + 4) * go) by (nonlinear_arith)
        requires
            d3 * e <= (n + 4) * b,
            b <= g,
            go == g * one,
            n >= 0,
            one > 0,
    ;
    let all = apart(c * g, d * one);
    assert(all <= d0 * z + d1 * z + d2 * one + d3 * one);
    assert(all * e <= (d0 * z) * e + (d1 * z) * e + (d2 * one) * e + (d3 * one) * e)
        by (nonlinear_arith)
        requires
            all <= d0 * z + d1 * z + d2 * one + d3 * one,
            e > 0,
    ;
    assert(m * one <= 2 * go) by (nonlinear_arith)
        requires
            m <= 2 * g,
            go == g * one,
            one > 0,
    ;
    assert(4 * (m * e) <= go) by (nonlinear_arith)
        requires
            m <= 2 * g,
            go == g * one,
            e == 0x10_0000_0000_0000,
            one >= 0x1_0000_0000_0000_0000,
            g >= 0,
    ;
    assert((2 * n + 9) * go + 16 * go + go + 4 * go + (n + 4) * go == (3 * n + 34) * go)
        by (nonlinear_arith);
}

/// A rounded quotient, with its sign, against the exact one; the divisor is positive.
proof fn lemma_signed_quotient(s: Binary64, p: Binary64)
    requires
        s.finite(),
        p.finite(),
        !p.negative(),
        !p.zero(),
        s.over(p).finite(),
    ensures
        ({
            let (c, one) = (s.over(p).value(), one_in_units());
            apart(c * p.value(), s.value() * one) * EXPONENT_UNIT <= p.value() * EXPONENT_UNIT
                + apart(s.value(), 0) * one
        }),
{
    let e = EXPONENT_UNIT as int;
    let one = one_in_units() as int;
    let (u, w) = (units(s.magnitude()) as int, units(p.magnitude()) as int);
    lemma_units_order(0, p.magnitude());
    let exact = Exact::Ratio { dividend: (u * one) as nat, divisor: w as nat };
    assert(u * one >= 0) by (nonlinear_arith)
        requires
            u >= 0,
            one >= 0,
    ;
    let m = rounded(exact);
    lemma_rounded_nearest(exact);
    let r = s.over(p);
    assert(r == signed_magnitude(s.negative(), m));
    assert(r.magnitude() == m && r.negative() == s.negative());
    lemma_ratio_error((u * one) as nat, w as nat, m);
    let z = units(m) as int;
    assert((-z) * w == -(z * w) && (-u) * one == -(u * one)) by (nonlinear_arith);
    let error = apart(z * w, u * one);
    assert(apart(r.value() * w, s.value() * one) == error);
    assert(apart(s.value(), 0) == u);
    if error <= w {
        assert(error * e <= w * e) by (nonlinear_arith)
            requires
                error <= w,
                e > 0,
        ;
    } else {
        assert(w * e >= 0) by (nonlinear_arith)
            requires
                w >= 0,
                e > 0,
        ;
    }
}

/// A cosine similarity and the exact one, the exact sum of products over the exact product of the
/// lengths, differ by at most three parts in 2^52 for each component, and 34. All components are
/// zero or between 2^-499 and 2^499 in size.
pub proof fn law_cosine_in_proportion(a: Seq<Binary64>, b: Seq<Binary64>)
    requires
        common_len(a, b) <= 0x10_0000,
        forall|i: int|
            0 <= i < common_len(a, b) ==> is_moderate(#[trigger] a[i]) && is_moderate(b[i]),
    ensures
        cosine(a, b).finite(),
        ({
            let n = common_len(a, b);
            let g = exact_lengths(a, b, n);
            let error = apart(cosine(a, b).value() * g, exact_dot(a, b, n) * one_in_units());
            &&& g >= 0
            &&& error * EXPONENT_UNIT <= (3 * n + 34) * (g * one_in_units())
        }),
{
    let n = common_len(a, b);
    let k = n as int;
    let e = EXPONENT_UNIT as int;
    let one = one_in_units() as int;
    assert forall|i: int| 0 <= i < n implies is_moderate(#[trigger] b[i]) by {
        assert(is_moderate(a[i]));
    }
    law_cosine_in_range(a, b);
    lemma_dot_size(a, b, n);
    lemma_dot_error(a, b, n);
    lemma_signed_products(a, b, n);
    lemma_norm_square(a, n);
    lemma_norm_square(b, n);
    lemma_cauchy(a, b, n);
    vstd::arithmetic::power2::lemma2_to64_rest();
    lemma_pow2_weakly_increases(64, 1074);
    let (x, y) = (norm(a, n), norm(b, n));
    let (d, h) = (x.value(), y.value());
    let (dot, q) = (exact_dot(a, b, n), exact_sizes(a, b, n));
    let (qa, qb) = (exact_sizes(a, a, n), exact_sizes(b, b, n));
    assert(qa * qb >= 0) by (nonlinear_arith)
        requires
            qa >= 0,
            qb >= 0,
    ;
    lemma_integer_root(qa * qb);
    let g = exact_lengths(a, b, n);
    assert(is_integer_root(qa * qb, g));
    lemma_value_zero(x);
    lemma_value_zero(y);
    assert(q <= g) by (nonlinear_arith)
        requires
            q * q <= qa * qb,
            qa * qb < (g + 1) * (g + 1),
            g >= 0,
    ;
    if n == 0 || x.zero() || y.zero() {
        assert(cosine(a, b).value() == 0);
        assert(qa == 0 || qb == 0) by {
            assert(x.zero() ==> d * d == 0) by (nonlinear_arith)
                requires
                    x.zero() ==> d == 0,
            ;
            assert(y.zero() ==> h * h == 0) by (nonlinear_arith)
                requires
                    y.zero() ==> h == 0,
            ;
            assert(0 * (e + (2 * k + 7)) == 0);
        }
        assert(g == 0) by (nonlinear_arith)
            requires
                qa == 0 || qb == 0,
                g * g <= qa * qb,
                g >= 0,
        ;
        assert(dot == 0);
        assert(0 * one == 0 && 0 * g == 0 && 0 * e == 0 && (3 * k + 34) * 0 == 0);
    } else {
        lemma_product(x, y, 1585);
        let s = sum(products(a, b, n));
        let p = x.times(y);
        let w = p.value();
        assert(!x.negative() && !y.negative());
        lemma_rounded_nearest(
            Exact::Ratio {
                dividend: units(x.magnitude()) * units(y.magnitude()),
                divisor: one_in_units(),
            },
        );
        lemma_pow2_pos(1074);
        assert(!p.negative());
        assert(size_product(x, y) == d * h);
        let l = pow2(575) as int;
        lemma_pow2_adds(575, 575);
        lemma_pow2_pos(1150);
        assert(d * h >= l * l) by (nonlinear_arith)
            requires
                d >= l,
                h >= l,
                l >= 0,
        ;
        assert(w > 0) by {
            if w == 0 {
                assert(0 * one == 0 && 0 * (e + 2) == 0);
                assert((d * h) * e > 0) by (nonlinear_arith)
                    requires
                        d * h > 0,
                        e > 0,
                ;
            }
        }
        lemma_value_zero(p);
        lemma_signed_quotient(s, p);
        lemma_lengths(d, h, qa, qb, g, k);
        lemma_similarity(cosine(a, b).value(), s.value(), w, d * h, dot, q, g, k, one);
    }
}

/// A cosine similarity is accurate to 10^-12: it differs from the exact sum of products over the
/// exact product of the lengths by at most so much. The vectors have up to a thousand components,
/// each zero or between 2^-499 and 2^499 in size.
pub proof fn law_cosine_accurate(a: Seq<Binary64>, b: Seq<Binary64>)
    requires
        common_len(a, b) <= 1000,
        forall|i: int|
            0 <= i < common_len(a, b) ==> is_moderate(#[trigger] a[i]) && is_moderate(b[i]),
    ensures
        cosine(a, b).finite(),
        ({
            let n = common_len(a, b);
            let g = exact_lengths(a, b, n);
            let error = apart(cosine(a, b).value() * g, exact_dot(a, b, n) * one_in_units());
            1_000_000_000_000 * error <= g * one_in_units()
        }),
{
    let n = common_len(a, b) as int;
    law_cosine_in_proportion(a, b);
    let go = exact_lengths(a, b, common_len(a, b)) * one_in_units();
    assert(go >= 0) by (nonlinear_arith)
        requires
            go == exact_lengths(a, b, common_len(a, b)) * one_in_units(),
            exact_lengths(a, b, common_len(a, b)) >= 0,
    ;
    assert((3 * n + 34) * go <= 3034 * go) by (nonlinear_arith)
        requires
            n <= 1000,
            go >= 0,
    ;
}

/// The similarity of vectors of any two lengths is the running sum of the products of all
/// components that both have, over the product of their lengths, which are the roots of the
/// running sums of squares of the same components. It is zero if there is no such component or a
/// length is zero.
pub proof fn law_cosine_components(
    a: Seq<Binary64>,
    b: Seq<Binary64>,
    n: nat,
    dots: Seq<Binary64>,
    dot_sums: Seq<Binary64>,
    a_squares: Seq<Binary64>,
    a_sums: Seq<Binary64>,
    b_squares: Seq<Binary64>,
    b_sums: Seq<Binary64>,
)
    requires
        is_shorter(n, a, b),
        dots.len() == n && a_squares.len() == n && b_squares.len() == n,
        forall|i: int| 0 <= i < n ==> #[trigger] dots[i] == a[i].times(b[i]),
        forall|i: int| 0 <= i < n ==> #[trigger] a_squares[i] == a[i].times(a[i]),
        forall|i: int| 0 <= i < n ==> #[trigger] b_squares[i] == b[i].times(b[i]),
        is_running_sum(dot_sums, dots),
        is_running_sum(a_sums, a_squares),
        is_running_sum(b_sums, b_squares),
    ensures
        ({
            let (x, y) = (a_sums[n as int].root(), b_sums[n as int].root());
            &&& n == 0 || x.zero() || y.zero() ==> cosine(a, b).bits == 0
            &&& n > 0 && !x.zero() && !y.zero() ==> cosine(a, b) == dot_sums[n as int].over(
                x.times(y),
            )
        }),
{
    assert(products(a, b, n) =~= dots);
    assert(products(a, a, n) =~= a_squares);
    assert(products(b, b, n) =~= b_squares);
    law_running_sum(dot_sums, dots);
    law_running_sum(a_sums, a_squares);
    law_running_sum(b_sums, b_squares);
}

/// The similarity of vectors of any two lengths is accurate to 10^-12 against the exact one over
/// all components that both have, up to a thousand, each zero or between 2^-499 and 2^499 in
/// size.
pub proof fn law_cosine_accurate_over_shorter(a: Seq<Binary64>, b: Seq<Binary64>, n: nat)
    requires
        is_shorter(n, a, b),
        n <= 1000,
        forall|i: int| 0 <= i < n ==> is_moderate(#[trigger] a[i]) && is_moderate(b[i]),
    ensures
        cosine(a, b).finite(),
        ({
            let g = exact_lengths(a, b, n);
            let error = apart(cosine(a, b).value() * g, exact_dot(a, b, n) * one_in_units());
            1_000_000_000_000 * error <= g * one_in_units()
        }),
        1_000_000_000_000 * (apart(cosine(a, b).value(), 0) - one_in_units()) <= one_in_units(),
{
    law_cosine_accurate(a, b);
    law_cosine_at_most_one(a, b);
}

} // verus!
