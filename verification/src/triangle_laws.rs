//! The triangle inequality of distances.

use vstd::arithmetic::power2::{lemma_pow2_adds, lemma_pow2_pos, lemma_pow2_unfold, pow2};
use vstd::prelude::*;

use crate::accuracy::{
    all_within, apart, lemma_nonnegative_sum_error, lemma_plus_error, lemma_power_magnitude,
    lemma_ratio_error, lemma_root_square, lemma_sum_against_total, total,
};
use crate::arithmetic::one_in_units;
use crate::arithmetic_laws::law_square;
use crate::binary64::{lemma_units_order, signed_magnitude, units, Binary64, EXPONENT_UNIT};
use crate::proportion::{
    at_most, lemma_at_most_chain, lemma_at_most_scaled, lemma_at_most_shifted,
    lemma_at_most_square, lemma_at_most_sum, lemma_cauchy_step, lemma_parts,
};
use crate::rounding::{lemma_pow2_weakly_increases, lemma_rounded_at_most, rounded, Exact};
use crate::sequences::sum;
use crate::vector::{distance, squared_differences};

verus! {

/// Whether a number is at most 2^499 in size.
pub open spec fn is_bounded(x: Binary64) -> bool {
    x.finite() && units(x.magnitude()) <= pow2(1573)
}

/// Whether two finite numbers are at most 2^500 apart.
pub open spec fn is_near(x: Binary64, y: Binary64) -> bool {
    x.finite() && y.finite() && apart(x.value(), y.value()) <= pow2(1574)
}

/// The square of the rounded difference of two numbers.
pub open spec fn rounded_square(x: Binary64, y: Binary64) -> int {
    (units(x.minus(y).magnitude()) * units(x.minus(y).magnitude())) as int
}

/// The square of the exact difference of two numbers.
pub open spec fn exact_square(x: Binary64, y: Binary64) -> int {
    (x.value() - y.value()) * (x.value() - y.value())
}

proof fn lemma_bounded_near(x: Binary64, y: Binary64)
    requires
        is_bounded(x),
        is_bounded(y),
    ensures
        is_near(x, y),
{
    lemma_pow2_unfold(1574);
}

/// The difference of two numbers, its rounding, and the squares of both.
pub proof fn lemma_difference(x: Binary64, y: Binary64)
    requires
        is_near(x, y),
    ensures
        x.minus(y).finite(),
        units(x.minus(y).magnitude()) <= pow2(1575),
        at_most(exact_square(x, y), rounded_square(x, y), 5),
        at_most(rounded_square(x, y), exact_square(x, y), 3),
{
    let e = EXPONENT_UNIT as int;
    let z = y.negated();
    assert(z.magnitude() == y.magnitude() && z.negative() == !y.negative());
    let v = x.value() - y.value();
    assert(x.value() + z.value() == v);
    lemma_pow2_unfold(1575);
    lemma_pow2_weakly_increases(1574, 2097);
    lemma_plus_error(x, z);
    let r = x.minus(y);
    let w = units(r.magnitude()) as int;
    let u = apart(v, 0);
    let off = apart(r.value(), v);
    assert(apart(w, u) <= off);
    assert(off <= u) by (nonlinear_arith)
        requires
            off * e <= u,
            e >= 1,
            off >= 0,
    ;
    assert(w * e <= u * (e + 1)) by (nonlinear_arith)
        requires
            w - u <= off,
            off * e <= u,
            e > 0,
    ;
    assert(u * (e - 1) <= w * e) by (nonlinear_arith)
        requires
            u - w <= off,
            off * e <= u,
            e > 0,
    ;
    assert(u * e <= w * (e + 2)) by (nonlinear_arith)
        requires
            u * (e - 1) <= w * e,
            e == 0x10_0000_0000_0000,
            w >= 0,
            u >= 0,
    ;
    lemma_at_most_square(w, u, 1, 3);
    lemma_at_most_square(u, w, 2, 5);
    assert(u * u == v * v) by (nonlinear_arith)
        requires
            u == v || u == -v,
    ;
}

/// The rounded square of a rounded difference.
proof fn lemma_squared(x: Binary64, y: Binary64)
    requires
        is_near(x, y),
    ensures
        ({
            let r = x.minus(y);
            let s = r.times(r);
            let q = rounded_square(x, y);
            let one = one_in_units() as int;
            &&& s.finite()
            &&& 0 <= s.value() <= pow2(2076)
            &&& at_most(q, s.value() * one + one, 2)
            &&& at_most(s.value() * one, q + one, 1)
            &&& q >= 0
        }),
{
    let e = EXPONENT_UNIT as int;
    let one = one_in_units() as int;
    let r = x.minus(y);
    let w = units(r.magnitude());
    let s = r.times(r);
    let q = (w * w) as int;
    lemma_difference(x, y);
    lemma_pow2_pos(1074);
    law_square(r, r);
    let exact = Exact::Ratio { dividend: w * w, divisor: one_in_units() };
    let m = rounded(exact);
    let top = lemma_power_magnitude(2076);
    lemma_pow2_adds(1575, 1575);
    lemma_pow2_adds(2076, 1074);
    assert(w * w <= pow2(1575) * pow2(1575)) by (nonlinear_arith)
        requires
            w <= pow2(1575),
    ;
    assert(one_in_units() * (2 * units(top)) == 2 * (pow2(2076) * one)) by (nonlinear_arith)
        requires
            units(top) == pow2(2076),
            one == one_in_units(),
    ;
    lemma_rounded_at_most(exact, top);
    assert(s == signed_magnitude(false, m));
    assert(s.magnitude() == m && !s.negative());
    lemma_units_order(top, m);
    lemma_ratio_error(w * w, one_in_units(), m);
    let p = s.value() * one;
    let error = apart(p, q);
    assert(error <= one || error * e <= q);
    assert(p >= 0) by (nonlinear_arith)
        requires
            p == s.value() * one,
            s.value() >= 0,
            one > 0,
    ;
    assert(q * e <= (p + one) * (e + 2) && p * e <= (q + one) * (e + 1)) by {
        if error <= one {
            assert(q * e <= (p + one) * (e + 2)) by (nonlinear_arith)
                requires
                    q <= p + one,
                    p >= 0,
                    one > 0,
                    e > 0,
            ;
            assert(p * e <= (q + one) * (e + 1)) by (nonlinear_arith)
                requires
                    p <= q + one,
                    q >= 0,
                    one > 0,
                    e > 0,
            ;
        } else {
            assert(p * e <= (q + one) * (e + 1)) by (nonlinear_arith)
                requires
                    p - q <= error,
                    error * e <= q,
                    one > 0,
                    e > 0,
            ;
            assert(q * (e - 1) <= p * e) by (nonlinear_arith)
                requires
                    q - p <= error,
                    error * e <= q,
                    e > 0,
            ;
            assert(q * e <= p * (e + 2)) by (nonlinear_arith)
                requires
                    q * (e - 1) <= p * e,
                    e == 0x10_0000_0000_0000,
                    p >= 0,
                    q >= 0,
            ;
            assert(p * (e + 2) <= (p + one) * (e + 2)) by (nonlinear_arith)
                requires
                    one > 0,
                    e > 0,
            ;
        }
    }
}

/// The exact squared distance over the first `n` components, in squared units.
pub open spec fn exact_squares(a: Seq<Binary64>, b: Seq<Binary64>, n: nat) -> int
    decreases n,
{
    if n == 0 {
        0
    } else {
        exact_squares(a, b, (n - 1) as nat) + exact_square(a[n - 1], b[n - 1])
    }
}

/// The sum of the squares of the rounded differences.
pub open spec fn rounded_squares(a: Seq<Binary64>, b: Seq<Binary64>, n: nat) -> int
    decreases n,
{
    if n == 0 {
        0
    } else {
        rounded_squares(a, b, (n - 1) as nat) + rounded_square(a[n - 1], b[n - 1])
    }
}

/// Whether the first `n` components are at most 2^499 in size.
pub open spec fn all_bounded(a: Seq<Binary64>, n: nat) -> bool {
    n <= a.len() && forall|i: int| 0 <= i < n ==> is_bounded(#[trigger] a[i])
}

/// The sums of the exact, the rounded and the twice rounded squares.
proof fn lemma_squares(a: Seq<Binary64>, b: Seq<Binary64>, n: nat)
    requires
        all_bounded(a, n),
        all_bounded(b, n),
    ensures
        ({
            let x = exact_squares(a, b, n);
            let r = rounded_squares(a, b, n);
            let t = total(squared_differences(a, b, n));
            let one = one_in_units() as int;
            &&& at_most(x, r, 5)
            &&& at_most(r, x, 3)
            &&& at_most(r, t * one + n * one, 2)
            &&& at_most(t * one, r + n * one, 1)
            &&& 0 <= t <= n * pow2(2076)
            &&& x >= 0
            &&& r >= 0
        }),
    decreases n,
{
    let one = one_in_units() as int;
    let s = squared_differences(a, b, n);
    if n == 0 {
        assert(s =~= Seq::<Binary64>::empty());
        assert(0 * one == 0 && 0 * pow2(2076) == 0);
    } else {
        let k = (n - 1) as nat;
        let (x, y) = (a[k as int], b[k as int]);
        let p = squared_differences(a, b, k);
        assert(s.drop_last() =~= p);
        lemma_squares(a, b, k);
        assert(is_bounded(x) && is_bounded(y));
        lemma_bounded_near(x, y);
        lemma_difference(x, y);
        lemma_squared(x, y);
        let v = s.last().value();
        assert(s.last() == x.minus(y).times(x.minus(y)));
        let t = total(p);
        assert((t + v) * one + n * one == (t * one + k * one) + (v * one + one))
            by (nonlinear_arith)
            requires
                n == k + 1,
        ;
        assert((t + v) * one == t * one + v * one) by (nonlinear_arith);
        assert(n * one == k * one + one) by (nonlinear_arith)
            requires
                n == k + 1,
        ;
        assert(n * pow2(2076) == k * pow2(2076) + pow2(2076)) by (nonlinear_arith)
            requires
                n == k + 1,
        ;
        let q = rounded_square(x, y);
        let z = exact_square(x, y);
        assert(z >= 0) by (nonlinear_arith)
            requires
                z == (x.value() - y.value()) * (x.value() - y.value()),
        ;
        lemma_at_most_sum(exact_squares(a, b, k), rounded_squares(a, b, k), z, q, 5);
        lemma_at_most_sum(rounded_squares(a, b, k), exact_squares(a, b, k), q, z, 3);
        lemma_at_most_sum(rounded_squares(a, b, k), t * one + k * one, q, v * one + one, 2);
        lemma_at_most_sum(t * one, rounded_squares(a, b, k) + k * one, v * one, q + one, 1);
    }
}

/// The square of a distance, against the exact squared distance.
proof fn lemma_distance_square(a: Seq<Binary64>, b: Seq<Binary64>, n: nat)
    requires
        a.len() == n,
        b.len() == n,
        n <= 0x10_0000,
        all_bounded(a, n),
        all_bounded(b, n),
    ensures
        distance(a, b).finite(),
        distance(a, b).value() >= 0,
        exact_squares(a, b, n) >= 0,
        ({
            let d = distance(a, b).value();
            let x = exact_squares(a, b, n);
            let m = n * one_in_units();
            let k = n as int;
            at_most(x, d * d + m, 2 * k + 13) && at_most(d * d, x + m, k + 10)
        }),
{
    let one = one_in_units() as int;
    let s = squared_differences(a, b, n);
    let m = n * one;
    lemma_squares(a, b, n);
    assert forall|i: int| 0 <= i < s.len() implies (#[trigger] s[i]).finite() && s[i].value()
        >= 0 by {
        assert(is_bounded(a[i]) && is_bounded(b[i]));
        lemma_bounded_near(a[i], b[i]);
        lemma_squared(a[i], b[i]);
    }
    vstd::arithmetic::power2::lemma2_to64();
    lemma_pow2_adds(20, 2076);
    lemma_pow2_weakly_increases(2096, 2096);
    assert(n * pow2(2076) <= pow2(20) * pow2(2076)) by (nonlinear_arith)
        requires
            n <= pow2(20),
    ;
    lemma_nonnegative_sum_error(s);
    let p = sum(s);
    lemma_root_square(p);
    let (x, r, t) = (exact_squares(a, b, n), rounded_squares(a, b, n), total(s));
    let v = p.value();
    let d = distance(a, b).value();
    let d2 = d * d;
    lemma_sum_against_total(v, t, n as int);
    assert(m >= 0) by (nonlinear_arith)
        requires
            m == n * one,
            one >= 0,
    ;
    assert(t * one >= 0 && v * one >= 0 && d2 >= 0) by (nonlinear_arith)
        requires
            t >= 0,
            v >= 0,
            one >= 0,
            d2 == d * d,
    ;
    let k = n as int;
    // From the exact squares down to the distance.
    lemma_at_most_scaled(t, v, 2 * k, one);
    lemma_at_most_shifted(t * one, v * one, 2 * k, m);
    lemma_at_most_shifted(v * one, d2, 3, m);
    lemma_at_most_chain(x, r, t * one + m, 5, 2);
    lemma_at_most_chain(x, t * one + m, v * one + m, 8, 2 * k);
    lemma_at_most_chain(x, v * one + m, d2 + m, 2 * k + 9, 3);
    // From the distance down to the exact squares.
    lemma_at_most_scaled(v, t, k, one);
    lemma_at_most_shifted(r, x, 3, m);
    lemma_at_most_chain(d2, v * one, t * one, 3, k);
    lemma_at_most_chain(d2, t * one, r + m, k + 4, 1);
    lemma_at_most_chain(d2, r + m, x + m, k + 6, 3);
}

/// The exact inner product of the differences `a - b` and `b - c`.
spec fn exact_inner(a: Seq<Binary64>, b: Seq<Binary64>, c: Seq<Binary64>, n: nat) -> int
    decreases n,
{
    if n == 0 {
        0
    } else {
        let k = (n - 1) as nat;
        let (v, w) = (a[k as int].value() - b[k as int].value(), b[k as int].value()
            - c[k as int].value());
        exact_inner(a, b, c, k) + v * w
    }
}

/// The squared distances of three points: a binomial formula and the Cauchy-Schwarz inequality.
proof fn lemma_three_points(a: Seq<Binary64>, b: Seq<Binary64>, c: Seq<Binary64>, n: nat)
    ensures
        ({
            let (x, y) = (exact_squares(a, b, n), exact_squares(b, c, n));
            let z = exact_squares(a, c, n);
            let i = exact_inner(a, b, c, n);
            x >= 0 && y >= 0 && z == x + 2 * i + y && i * i <= x * y
        }),
    decreases n,
{
    if n > 0 {
        let k = (n - 1) as nat;
        lemma_three_points(a, b, c, k);
        let (x, y) = (exact_squares(a, b, k), exact_squares(b, c, k));
        let i = exact_inner(a, b, c, k);
        let v = a[k as int].value() - b[k as int].value();
        let w = b[k as int].value() - c[k as int].value();
        lemma_cauchy_step(x, y, i, v, w);
        assert((v + w) * (v + w) == v * v + 2 * (v * w) + w * w) by (nonlinear_arith);
        assert(v * v >= 0 && w * w >= 0) by (nonlinear_arith);
        assert(a[k as int].value() - c[k as int].value() == v + w);
    } else {
        assert(0 * 0 == 0);
    }
}

/// If `p * sqrt(x)` and `p * sqrt(y)` are at most `f` and `g`, then `p * sqrt(z)` is at most
/// `f + g`.
proof fn lemma_roots_add(x: int, y: int, z: int, i: int, p: int, f: int, g: int)
    requires
        x >= 0,
        y >= 0,
        z == x + 2 * i + y,
        i * i <= x * y,
        f >= 0,
        g >= 0,
        x * (p * p) <= f * f,
        y * (p * p) <= g * g,
    ensures
        z * (p * p) <= (f + g) * (f + g),
{
    let q = p * p;
    assert(q >= 0) by (nonlinear_arith)
        requires
            q == p * p,
    ;
    let (xq, yq, iq) = (x * q, y * q, i * q);
    assert(iq * iq == (i * i) * (q * q)) by (nonlinear_arith)
        requires
            iq == i * q,
    ;
    assert(xq * yq == (x * y) * (q * q)) by (nonlinear_arith)
        requires
            xq == x * q,
            yq == y * q,
    ;
    assert(q * q >= 0) by (nonlinear_arith);
    assert((i * i) * (q * q) <= (x * y) * (q * q)) by (nonlinear_arith)
        requires
            i * i <= x * y,
            q * q >= 0,
    ;
    assert(xq >= 0 && yq >= 0) by (nonlinear_arith)
        requires
            xq == x * q,
            yq == y * q,
            x >= 0,
            y >= 0,
            q >= 0,
    ;
    assert(xq * yq <= (f * f) * (g * g)) by (nonlinear_arith)
        requires
            0 <= xq <= f * f,
            0 <= yq <= g * g,
    ;
    let fg = f * g;
    assert((f * f) * (g * g) == fg * fg) by (nonlinear_arith)
        requires
            fg == f * g,
    ;
    assert(fg >= 0) by (nonlinear_arith)
        requires
            fg == f * g,
            f >= 0,
            g >= 0,
    ;
    assert(iq <= fg) by (nonlinear_arith)
        requires
            iq * iq <= fg * fg,
            fg >= 0,
    ;
    assert(z * q == xq + 2 * iq + yq) by (nonlinear_arith)
        requires
            z == x + 2 * i + y,
            xq == x * q,
            yq == y * q,
            iq == i * q,
    ;
    assert((f + g) * (f + g) == f * f + 2 * fg + g * g) by (nonlinear_arith)
        requires
            fg == f * g,
    ;
}

/// If `x` exceeds `d^2 + m` by no more than one part in `p`, its root exceeds `d` by no more
/// than that and `f`, where `f^2` is at least `2m`.
proof fn lemma_root_within(x: int, d: int, m: int, p: int, f: int)
    requires
        x * p <= (d * d + m) * (p + 1),
        p >= 1,
        d >= 0,
        m >= 0,
        f >= 0,
        f * f >= 2 * m,
    ensures
        x * (p * p) <= (d * (p + 1) + f * p) * (d * (p + 1) + f * p),
{
    let (d2, q) = (d * d, p + 1);
    assert(x * (p * p) <= (d2 + m) * (q * p)) by (nonlinear_arith)
        requires
            x * p <= (d2 + m) * q,
            p >= 1,
    ;
    assert((d2 + m) * (q * p) == d2 * (q * p) + m * (q * p)) by (nonlinear_arith);
    assert(d2 * (q * p) <= d2 * (q * q)) by (nonlinear_arith)
        requires
            d2 == d * d,
            q == p + 1,
            p >= 1,
    ;
    assert(m * (q * p) <= (f * f) * (p * p)) by (nonlinear_arith)
        requires
            f * f >= 2 * m,
            m >= 0,
            q == p + 1,
            p >= 1,
    ;
    let (s, t) = (d * q, f * p);
    assert(s >= 0 && t >= 0) by (nonlinear_arith)
        requires
            s == d * q,
            t == f * p,
            d >= 0,
            f >= 0,
            q >= 0,
            p >= 0,
    ;
    assert(s * s == d2 * (q * q)) by (nonlinear_arith)
        requires
            s == d * q,
            d2 == d * d,
    ;
    assert(t * t == (f * f) * (p * p)) by (nonlinear_arith)
        requires
            t == f * p,
    ;
    assert(s * s + t * t <= (s + t) * (s + t)) by (nonlinear_arith)
        requires
            s >= 0,
            t >= 0,
    ;
}

/// If `d^2` exceeds `z + m` by no more than one part in `p`, and `p * sqrt(z)` is at most `w`,
/// then `d` exceeds `w / p` by no more than that and `f`.
proof fn lemma_root_of_sum(d: int, z: int, m: int, p: int, w: int, f: int)
    requires
        (d * d) * p <= (z + m) * (p + 1),
        z * (p * p) <= w * w,
        p >= 1,
        d >= 0,
        m >= 0,
        w >= 0,
        f >= 0,
        f * f >= 2 * m,
    ensures
        d * (p * p) <= w * (p + 1) + f * (p * p),
{
    let (d2, p2, q) = (d * d, p * p, p + 1);
    let (s, t) = (w * q, f * p2);
    assert(p2 >= 1) by (nonlinear_arith)
        requires
            p2 == p * p,
            p >= 1,
    ;
    assert(d2 * p * p2 <= (z * p2 + m * p2) * q) by (nonlinear_arith)
        requires
            d2 * p <= (z + m) * q,
            p2 >= 0,
    ;
    assert((z * p2 + m * p2) * q <= (w * w + m * p2) * q) by (nonlinear_arith)
        requires
            z * p2 <= w * w,
            q >= 0,
    ;
    assert(d2 * (p2 * p2) <= (w * w + m * p2) * (q * p)) by (nonlinear_arith)
        requires
            d2 * p * p2 <= (w * w + m * p2) * q,
            p2 == p * p,
            p >= 1,
    ;
    assert((w * w + m * p2) * (q * p) == (w * w) * (q * p) + m * p2 * (q * p)) by (nonlinear_arith);
    assert((w * w) * (q * p) <= (w * w) * (q * q)) by (nonlinear_arith)
        requires
            q == p + 1,
            p >= 1,
    ;
    assert(q * p <= 2 * p2) by (nonlinear_arith)
        requires
            q == p + 1,
            p2 == p * p,
            p >= 1,
    ;
    assert(m * p2 * (q * p) <= (f * f) * (p2 * p2)) by (nonlinear_arith)
        requires
            q * p <= 2 * p2,
            f * f >= 2 * m,
            m >= 0,
            p2 >= 1,
    ;
    assert(s >= 0 && t >= 0) by (nonlinear_arith)
        requires
            s == w * q,
            t == f * p2,
            w >= 0,
            f >= 0,
            q >= 0,
            p2 >= 0,
    ;
    assert(s * s == (w * w) * (q * q)) by (nonlinear_arith)
        requires
            s == w * q,
    ;
    assert(t * t == (f * f) * (p2 * p2)) by (nonlinear_arith)
        requires
            t == f * p2,
    ;
    assert(s * s + t * t <= (s + t) * (s + t)) by (nonlinear_arith)
        requires
            s >= 0,
            t >= 0,
    ;
    let g = d * p2;
    assert(g * g == d2 * (p2 * p2)) by (nonlinear_arith)
        requires
            g == d * p2,
            d2 == d * d,
    ;
    assert(g <= s + t) by (nonlinear_arith)
        requires
            g * g <= (s + t) * (s + t),
            s + t >= 0,
    ;
}

/// The way round by a third vector is not shorter than the direct one, but for rounding: one
/// part in `parts` twice over, and 2^-523. The components are at most 2^499 in size, and `parts`
/// times two per component, and thirteen, is at most 2^52.
pub proof fn law_triangle_in_proportion(
    a: Seq<Binary64>,
    b: Seq<Binary64>,
    c: Seq<Binary64>,
    parts: int,
)
    requires
        a.len() == b.len() == c.len(),
        a.len() <= 0x10_0000,
        all_bounded(a, a.len()),
        all_bounded(b, a.len()),
        all_bounded(c, a.len()),
        parts >= 1,
        parts * (2 * a.len() + 13) <= EXPONENT_UNIT,
    ensures
        distance(a, b).finite() && distance(b, c).finite() && distance(a, c).finite(),
        distance(a, c).value() * (parts * parts) <= (distance(a, b).value() + distance(
            b,
            c,
        ).value()) * ((parts + 1) * (parts + 1)) + pow2(551) * (parts * parts),
{
    let n = a.len();
    let p = parts;
    let m = n * one_in_units();
    let f = pow2(548) as int;
    lemma_distance_square(a, b, n);
    lemma_distance_square(b, c, n);
    lemma_distance_square(a, c, n);
    lemma_three_points(a, b, c, n);
    let (x, y, z) = (exact_squares(a, b, n), exact_squares(b, c, n), exact_squares(a, c, n));
    let i = exact_inner(a, b, c, n);
    let (d, g, h) = (distance(a, b).value(), distance(b, c).value(), distance(a, c).value());
    vstd::arithmetic::power2::lemma2_to64();
    lemma_pow2_adds(548, 548);
    lemma_pow2_adds(22, 1074);
    assert(2 * m <= f * f) by (nonlinear_arith)
        requires
            m == n * one_in_units(),
            n <= 0x10_0000,
            f * f == 0x40_0000 * one_in_units(),
    ;
    assert(d * d >= 0 && g * g >= 0) by (nonlinear_arith);
    assert(p * (n + 10) <= p * (2 * n + 13)) by (nonlinear_arith)
        requires
            p >= 1,
    ;
    lemma_parts(x, d * d + m, 2 * n as int + 13, p);
    lemma_parts(y, g * g + m, 2 * n as int + 13, p);
    lemma_parts(h * h, z + m, n as int + 10, p);
    lemma_root_within(x, d, m as int, p, f);
    lemma_root_within(y, g, m as int, p, f);
    let (u, v) = (d * (p + 1) + f * p, g * (p + 1) + f * p);
    assert(u >= 0 && v >= 0) by (nonlinear_arith)
        requires
            u == d * (p + 1) + f * p,
            v == g * (p + 1) + f * p,
            d >= 0,
            g >= 0,
            f >= 0,
            p >= 1,
    ;
    lemma_roots_add(x, y, z, i, p, u, v);
    lemma_root_of_sum(h, z, m as int, p, u + v, f);
    let p2 = p * p;
    let q2 = (p + 1) * (p + 1);
    assert((u + v) * (p + 1) == (d + g) * q2 + 2 * (f * (p * (p + 1)))) by (nonlinear_arith)
        requires
            u == d * (p + 1) + f * p,
            v == g * (p + 1) + f * p,
            q2 == (p + 1) * (p + 1),
    ;
    assert(f * (p * (p + 1)) <= 2 * (f * p2)) by (nonlinear_arith)
        requires
            p2 == p * p,
            p >= 1,
            f >= 0,
    ;
    lemma_pow2_adds(3, 548);
    assert((8 * f) * p2 == 8 * (f * p2)) by (nonlinear_arith);
    assert(f * p2 >= 0) by (nonlinear_arith)
        requires
            p2 == p * p,
            f >= 0,
    ;
}

/// Whether every component is at most a million in size.
pub open spec fn all_within_a_million(a: Seq<Binary64>) -> bool {
    all_within(a, 1_000_000int * one_in_units())
}

/// Components up to a million are bounded, and so are the squares of their differences.
proof fn lemma_million(a: Seq<Binary64>, b: Seq<Binary64>, n: nat)
    requires
        n <= a.len(),
        n <= b.len(),
        all_within_a_million(a),
        all_within_a_million(b),
    ensures
        all_bounded(a, n),
        all_bounded(b, n),
        exact_squares(a, b, n) <= n * (4_000_000_000_000int * (one_in_units() * one_in_units())),
    decreases n,
{
    let one = one_in_units() as int;
    vstd::arithmetic::power2::lemma2_to64();
    lemma_pow2_adds(20, 1074);
    lemma_pow2_weakly_increases(1094, 1573);
    lemma_pow2_pos(1074);
    if n > 0 {
        let k = n - 1;
        lemma_million(a, b, k as nat);
        let v = a[k].value() - b[k].value();
        assert(v * v <= 4_000_000_000_000 * (one * one)) by (nonlinear_arith)
            requires
                -2_000_000 * one <= v <= 2_000_000 * one,
                one > 0,
        ;
        let room = 4_000_000_000_000 * (one * one);
        assert(n * room == k * room + room) by (nonlinear_arith)
            requires
                k == n - 1,
        ;
    } else {
        assert(0 * (4_000_000_000_000int * (one_in_units() * one_in_units())) == 0);
    }
}

/// The distance of vectors of up to a thousand components, none beyond a million, is at most
/// 2^26.
proof fn lemma_distance_of_million(a: Seq<Binary64>, b: Seq<Binary64>, n: nat)
    requires
        a.len() == n,
        b.len() == n,
        n <= 1000,
        all_within_a_million(a),
        all_within_a_million(b),
    ensures
        0 <= distance(a, b).value() <= 0x400_0000 * one_in_units(),
{
    let one = one_in_units() as int;
    let one2 = one * one;
    lemma_million(a, b, n);
    lemma_distance_square(a, b, n);
    lemma_pow2_pos(1074);
    let (x, d) = (exact_squares(a, b, n), distance(a, b).value());
    let m = n * one;
    let p = 0x100_0000_0000int;
    lemma_parts(d * d, x + m, n as int + 10, p);
    assert(x + m <= 4_000_000_001_000_000 * one2) by (nonlinear_arith)
        requires
            x <= n * (4_000_000_000_000 * one2),
            m == n * one,
            n <= 1000,
            one2 == one * one,
            one >= 1,
    ;
    let top = 0x400_0000 * one;
    assert(top * top == 0x10_0000_0000_0000 * one2) by (nonlinear_arith)
        requires
            top == 0x400_0000 * one,
            one2 == one * one,
    ;
    assert(one2 > 0) by (nonlinear_arith)
        requires
            one2 == one * one,
            one > 0,
    ;
    assert(d * d <= top * top);
    assert(d <= top) by (nonlinear_arith)
        requires
            d * d <= top * top,
            top >= 0,
    ;
}

/// The way round by a third vector is not shorter than the direct one, to within 10^-3, for
/// vectors of up to a thousand components, none beyond a million.
pub proof fn law_triangle_inequality(a: Seq<Binary64>, b: Seq<Binary64>, c: Seq<Binary64>)
    requires
        a.len() == b.len() == c.len(),
        a.len() <= 1000,
        all_within_a_million(a),
        all_within_a_million(b),
        all_within_a_million(c),
    ensures
        distance(a, b).finite() && distance(b, c).finite() && distance(a, c).finite(),
        1000 * distance(a, c).value() <= 1000 * (distance(a, b).value() + distance(b, c).value())
            + one_in_units(),
{
    let n = a.len();
    let one = one_in_units() as int;
    let p = 0x100_0000_0000int;
    lemma_million(a, b, n);
    lemma_million(b, c, n);
    lemma_distance_of_million(a, b, n);
    lemma_distance_of_million(b, c, n);
    law_triangle_in_proportion(a, b, c, p);
    vstd::arithmetic::power2::lemma2_to64();
    lemma_pow2_pos(1074);
    lemma_pow2_adds(20, 551);
    lemma_pow2_weakly_increases(571, 1074);
    let s = distance(a, b).value() + distance(b, c).value();
    let d = distance(a, c).value();
    let tail = pow2(551) as int;
    assert(d * (p * p) <= s * ((p + 1) * (p + 1)) + tail * (p * p));
    assert(1000 * d <= 1000 * s + one) by (nonlinear_arith)
        requires
            d * (p * p) <= s * ((p + 1) * (p + 1)) + tail * (p * p),
            s <= 0x800_0000 * one,
            0x10_0000 * tail <= one,
            p == 0x100_0000_0000,
            one > 0,
    ;
}

} // verus!
