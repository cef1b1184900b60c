//! How far rounded results are from the exact ones.

use vstd::arithmetic::power2::{lemma_pow2_adds, lemma_pow2_pos, lemma_pow2_unfold, pow2};
use vstd::prelude::*;

use crate::arithmetic::{integer, one_in_units};
use crate::arithmetic_laws::{
    law_plus_negative_zero, law_plus_nonnegative, lemma_integer_exact, lemma_value_zero,
};
use crate::binary64::{
    lemma_units_increase, lemma_units_of_scaled, lemma_units_order, signed_magnitude, units,
    Binary64, EXPONENT_UNIT, INFINITY_MAGNITUDE,
};
use crate::proportion::{at_most, lemma_square_monotone};
use crate::rounding::{
    lemma_neighbour_gap, lemma_pow2_weakly_increases, lemma_rounded_at_most, lemma_rounded_exact,
    lemma_rounded_nearest, lemma_rounded_neighbours, rounded, Exact,
};
use crate::sequence_laws::{law_greatest, law_least};
use crate::sequences::{greatest, least, mean, sum};

verus! {

/// How far apart two values are.
pub open spec fn apart(a: int, b: int) -> int {
    if a >= b {
        a - b
    } else {
        b - a
    }
}

/// 2^53: the significands of finite numbers lie below it.
pub const TWO_53: u64 = 0x20_0000_0000_0000;

/// The values at the top of the range, over the square of `t = 2^1533`.
pub proof fn lemma_top_values() -> (t: nat)
    ensures
        t > 0,
        t == pow2(1533),
        units(INFINITY_MAGNITUDE as nat) * one_in_units() == TWO_53 * TWO_53 * (t * t),
        units((INFINITY_MAGNITUDE - 1) as nat) * one_in_units() == TWO_53 * (TWO_53 - 1) * (t * t),
        units(INFINITY_MAGNITUDE as nat) == pow2(2098),
        pow2(2097) <= units((INFINITY_MAGNITUDE - 1) as nat) <= pow2(2098),
{
    let t = pow2(1533);
    let one = one_in_units();
    let e = EXPONENT_UNIT as nat;
    let s = pow2(2045);
    vstd::arithmetic::power2::lemma2_to64();
    vstd::arithmetic::power2::lemma2_to64_rest();
    lemma_pow2_pos(1533);
    lemma_units_of_scaled(2045, 2 * e);
    lemma_units_of_scaled(2045, (2 * e - 1) as nat);
    assert(units(INFINITY_MAGNITUDE as nat) == TWO_53 * s);
    assert(units((INFINITY_MAGNITUDE - 1) as nat) == (TWO_53 - 1) * s);
    lemma_pow2_adds(53, 2045);
    lemma_pow2_adds(52, 2045);
    lemma_pow2_adds(2045, 1074);
    lemma_pow2_adds(1533, 1533);
    lemma_pow2_adds(53, 3066);
    assert(s * one == TWO_53 * (t * t));
    assert((TWO_53 * s) * one == TWO_53 * TWO_53 * (t * t)) by (nonlinear_arith)
        requires
            s * one == TWO_53 * (t * t),
    ;
    assert(((TWO_53 - 1) * s) * one == TWO_53 * (TWO_53 - 1) * (t * t)) by (nonlinear_arith)
        requires
            s * one == TWO_53 * (t * t),
    ;
    t
}

/// The root of a finite number: it does not overflow, and one part in 2^52 separates it from
/// the exact root.
pub proof fn lemma_root_error(n: nat, r: nat)
    requires
        0 < n <= units((INFINITY_MAGNITUDE - 1) as nat),
        r == rounded(Exact::Root { square: n * one_in_units() }),
    ensures
        0 < r < INFINITY_MAGNITUDE,
        units(r) <= (TWO_53 - 1) * pow2(1533),
        units(r) > 0,
        ({
            let x = units(r) * units(r);
            let e = EXPONENT_UNIT as int;
            let no = n * one_in_units();
            &&& no * (e * e) < x * ((e + 1) * (e + 1))
            &&& x * (e * e) <= no * ((e + 1) * (e + 1))
        }),
{
    let t = lemma_top_values();
    let one = one_in_units();
    let no = n * one;
    let x = Exact::Root { square: no };
    let e = EXPONENT_UNIT as int;
    let top = (INFINITY_MAGNITUDE - 1) as nat;
    vstd::arithmetic::power2::lemma2_to64();
    vstd::arithmetic::power2::lemma2_to64_rest();
    lemma_rounded_nearest(x);
    assert(no <= units(top) * one) by (nonlinear_arith)
        requires
            no == n * one,
            n <= units(top),
    ;
    // The magnitude of 2^53 * t, and the one below it.
    let above = 1533 * (EXPONENT_UNIT as nat) + 2 * (EXPONENT_UNIT as nat);
    let below = (above - 1) as nat;
    lemma_units_of_scaled(1533, 2 * (EXPONENT_UNIT as nat));
    lemma_units_of_scaled(1533, (2 * EXPONENT_UNIT - 1) as nat);
    assert(units(above) == TWO_53 * t);
    assert(units(below) == (TWO_53 - 1) * t);
    if r > below {
        lemma_units_order(above, r);
        lemma_units_order(r, above);
        assert(units(r) >= TWO_53 * t);
        let mid = units(below) + units(r);
        assert(x.twice_against(mid) >= 0);
        assert(4 * no >= mid * mid);
        assert(mid >= (2 * TWO_53 - 1) * t) by (nonlinear_arith)
            requires
                mid >= (TWO_53 - 1) * t + TWO_53 * t,
        ;
        assert(mid * mid >= ((2 * TWO_53 - 1) * t) * ((2 * TWO_53 - 1) * t)) by (nonlinear_arith)
            requires
                mid >= (2 * TWO_53 - 1) * t,
                (2 * TWO_53 - 1) * t >= 0,
        ;
        let f = TWO_53 as int;
        assert(((2 * f - 1) * t) * ((2 * f - 1) * t) == 4 * (f * (f - 1) * (t * t)) + t * t)
            by (nonlinear_arith);
        assert(t * t > 0) by (nonlinear_arith)
            requires
                t > 0,
        ;
        assert(false);
    }
    lemma_units_order(r, below);
    assert(units(r) <= (TWO_53 - 1) * t);
    assert(below < INFINITY_MAGNITUDE);
    let lo = lemma_rounded_neighbours(x);
    lemma_neighbour_gap(lo);
    lemma_units_increase(lo, lo + 1);
    let a = units(lo) as int;
    let b = units(lo + 1) as int;
    assert(a * a <= no) by (nonlinear_arith)
        requires
            4 * no - (2 * a) * (2 * a) >= 0,
    ;
    assert(no < b * b) by (nonlinear_arith)
        requires
            4 * no - (2 * b) * (2 * b) < 0,
    ;
    // The root is large, so that its neighbours are close.
    let big = pow2(537) as int;
    lemma_pow2_adds(537, 537);
    assert(no >= one) by (nonlinear_arith)
        requires
            no == n * one,
            n >= 1,
    ;
    assert(b > big) by (nonlinear_arith)
        requires
            b * b > big * big,
            b >= 0,
            big >= 0,
    ;
    lemma_pow2_weakly_increases(54, 537);
    lemma_pow2_adds(53, 1);
    assert(big >= 4 * e);
    assert((b - a) * e <= a) by {
        if b - a == 1 {
            assert(a >= e);
        }
    }
    let u = units(r) as int;
    assert(u == a || u == b);
    assert(a > 0) by (nonlinear_arith)
        requires
            (b - a) * e <= a,
            b > a,
            e > 0,
    ;
    assert(u * e <= a * (e + 1)) by (nonlinear_arith)
        requires
            (b - a) * e <= a,
            u == a || u == b,
            a > 0,
    ;
    assert(u * (e + 1) >= b * e) by (nonlinear_arith)
        requires
            (b - a) * e <= a,
            u == a || u == b,
            b > a,
            a > 0,
    ;
    assert(e > 0);
    lemma_square_monotone(u * e, a * (e + 1));
    lemma_square_monotone(b * e, u * (e + 1));
    let x2 = u * u;
    assert((u * e) * (u * e) == x2 * (e * e)) by (nonlinear_arith)
        requires
            x2 == u * u,
    ;
    assert((a * (e + 1)) * (a * (e + 1)) == (a * a) * ((e + 1) * (e + 1))) by (nonlinear_arith);
    assert((b * e) * (b * e) == (b * b) * (e * e)) by (nonlinear_arith);
    assert((u * (e + 1)) * (u * (e + 1)) == x2 * ((e + 1) * (e + 1))) by (nonlinear_arith)
        requires
            x2 == u * u,
    ;
    assert((a * a) * ((e + 1) * (e + 1)) <= no * ((e + 1) * (e + 1))) by (nonlinear_arith)
        requires
            a * a <= no,
            e > 0,
    ;
    assert(no * (e * e) < (b * b) * (e * e)) by (nonlinear_arith)
        requires
            no < b * b,
            e > 0,
    ;
    lemma_units_order(0, r);
}

/// What a quotient is rounded to differs from it by at most one unit, or by one part in 2^52.
pub proof fn lemma_ratio_error(n: nat, d: nat, m: nat)
    requires
        d > 0,
        m == rounded(Exact::Ratio { dividend: n, divisor: d }),
        m < INFINITY_MAGNITUDE,
    ensures
        ({
            let error = if units(m) * d >= n {
                units(m) * d - n
            } else {
                n - units(m) * d
            };
            error <= d || error * EXPONENT_UNIT <= n
        }),
{
    let x = Exact::Ratio { dividend: n, divisor: d };
    let lo = lemma_rounded_neighbours(x);
    lemma_neighbour_gap(lo);
    lemma_units_increase(lo, lo + 1);
    let a = units(lo) as int;
    let b = units(lo + 1) as int;
    let e = EXPONENT_UNIT as int;
    assert(d * (2 * units(lo)) == 2 * (a * d)) by (nonlinear_arith)
        requires
            a == units(lo),
    ;
    assert(d * (2 * units(lo + 1)) == 2 * (b * d)) by (nonlinear_arith)
        requires
            b == units(lo + 1),
    ;
    assert(a * d <= n < b * d);
    let u = units(m) as int;
    let error = if u * d >= n {
        u * d - n
    } else {
        n - u * d
    };
    assert((b - a) * d == b * d - a * d) by (nonlinear_arith);
    assert(error <= (b - a) * d);
    if b - a == 1 {
        assert((b - a) * d == d);
    } else {
        assert(error * e <= ((b - a) * e) * d) by (nonlinear_arith)
            requires
                error <= (b - a) * d,
                e > 0,
        ;
        assert(((b - a) * e) * d <= a * d) by (nonlinear_arith)
            requires
                (b - a) * e <= a,
                d > 0,
        ;
    }
}

/// The magnitude of a power of two.
pub proof fn lemma_power_magnitude(k: nat) -> (m: nat)
    requires
        52 <= k <= 2097,
    ensures
        m < INFINITY_MAGNITUDE,
        units(m) == pow2(k),
{
    let e = EXPONENT_UNIT as nat;
    let j = (k - 52) as nat;
    vstd::arithmetic::power2::lemma2_to64_rest();
    lemma_units_of_scaled(j, e);
    lemma_pow2_adds(52, j);
    j * e + e
}

/// A sum that does not overflow is off by at most one part in 2^53.
pub proof fn lemma_plus_error(a: Binary64, b: Binary64)
    requires
        a.finite(),
        b.finite(),
        -pow2(2097) <= a.value() + b.value() <= pow2(2097),
    ensures
        a.plus(b).finite(),
        ({
            let v = a.value() + b.value();
            let error = apart(a.plus(b).value(), v);
            2 * (error * EXPONENT_UNIT) <= apart(v, 0)
        }),
{
    let v = a.value() + b.value();
    let n = apart(v, 0) as nat;
    let x = Exact::Ratio { dividend: n, divisor: 1 };
    let e = EXPONENT_UNIT as nat;
    if v != 0 {
        let top = lemma_power_magnitude(2097);
        assert(1 * (2 * units(top)) == 2 * units(top));
        lemma_rounded_at_most(x, top);
        let m = rounded(x);
        let lo = lemma_rounded_neighbours(x);
        lemma_neighbour_gap(lo);
        lemma_units_increase(lo, lo + 1);
        assert(1 * (2 * units(lo)) == 2 * units(lo));
        assert(1 * (2 * units(lo + 1)) == 2 * units(lo + 1));
        let gap = units(lo + 1) - units(lo);
        if gap == 1 {
            assert(n == units(lo));
            lemma_rounded_exact(x, lo);
        }
        let error = apart(units(m) as int, n as int);
        // The number lies on the rounded one's side of the midpoint between the neighbours.
        lemma_rounded_nearest(x);
        let mid = units(lo) + units(lo + 1);
        assert(1 * mid == mid);
        assert(m == lo ==> x.twice_against(mid) <= 0);
        assert(m == lo + 1 ==> x.twice_against(mid) >= 0);
        assert(2 * (error * e) <= n) by {
            if error > 0 {
                assert(2 * (error * e) <= gap * e) by (nonlinear_arith)
                    requires
                        2 * error <= gap,
                        e > 0,
                ;
            } else {
                assert(error * e == 0) by (nonlinear_arith)
                    requires
                        error == 0,
                ;
            }
        }
        let r = a.plus(b);
        assert(r == signed_magnitude(v < 0, m));
        assert(r.magnitude() == m && r.negative() == (v < 0));
    } else {
        let r = a.plus(b);
        assert(r.magnitude() == 0);
        assert(apart(r.value(), 0) == 0);
        assert(0 * e == 0);
    }
}

/// The exact sum of the elements, in units.
pub open spec fn total(s: Seq<Binary64>) -> int
    decreases s.len(),
{
    if s.len() == 0 {
        0
    } else {
        total(s.drop_last()) + s.last().value()
    }
}

/// Whether every number is finite and at most `bound` units away from zero.
pub open spec fn all_within(s: Seq<Binary64>, bound: int) -> bool {
    forall|i: int|
        0 <= i < s.len() ==> (#[trigger] s[i]).finite() && apart(s[i].value(), 0) <= bound
}

/// The most elements for which the errors of a sum are bounded here: 2^26.
pub const MOST_TERMS: u64 = 0x400_0000;

/// The rounded sum of numbers of bounded size is close to the exact one.
pub proof fn lemma_sum_error(s: Seq<Binary64>, bound: int)
    requires
        all_within(s, bound),
        s.len() <= MOST_TERMS,
        0 <= bound,
        (s.len() + 1) * bound <= pow2(2097),
    ensures
        sum(s).finite(),
        apart(sum(s).value(), total(s)) * EXPONENT_UNIT <= s.len() * s.len() * bound,
        apart(total(s), 0) <= s.len() * bound,
        apart(sum(s).value(), 0) <= (s.len() + 1) * bound,
    decreases s.len(),
{
    let n = s.len() as int;
    let e = EXPONENT_UNIT as int;
    if n == 0 {
        assert(0 * bound == 0);
    } else {
        let t = s.drop_last();
        let x = s.last();
        let k = n - 1;
        assert forall|i: int| 0 <= i < t.len() implies (#[trigger] t[i]).finite() && apart(
            t[i].value(),
            0,
        ) <= bound by {
            assert(t[i] == s[i]);
        }
        assert(s[n - 1] == x);
        assert((k + 1) * bound <= (n + 1) * bound) by (nonlinear_arith)
            requires
                k == n - 1,
                bound >= 0,
        ;
        lemma_sum_error(t, bound);
        let p = sum(t);
        let v = p.value() + x.value();
        assert((k + 1) * bound + bound == (n + 1) * bound) by (nonlinear_arith)
            requires
                k == n - 1,
        ;
        lemma_plus_error(p, x);
        let r = sum(s);
        let before = apart(p.value(), total(t));
        let step = apart(r.value(), v);
        assert(apart(r.value(), total(s)) <= before + step);
        assert(n * bound == k * bound + bound) by (nonlinear_arith)
            requires
                k == n - 1,
        ;
        if k == 0 {
            assert(t =~= Seq::<Binary64>::empty());
            law_plus_negative_zero(x);
            assert(r == x);
            assert(before == 0 && step == 0);
            assert(0 * e == 0);
            assert(n * n * bound >= 0) by (nonlinear_arith)
                requires
                    bound >= 0,
            ;
            assert(1 * bound == bound && 2 * bound >= bound);
        } else {
            assert((before + step) * e == before * e + step * e) by (nonlinear_arith);
            assert(k * k * bound + (n + 1) * bound <= n * n * bound) by (nonlinear_arith)
                requires
                    n == k + 1,
                    k >= 1,
                    bound >= 0,
            ;
            let off = apart(r.value(), total(s));
            assert(off * e <= (before + step) * e) by (nonlinear_arith)
                requires
                    off <= before + step,
                    e > 0,
            ;
            assert(off * e <= n * n * bound);
            assert(off <= bound) by (nonlinear_arith)
                requires
                    off * e <= n * n * bound,
                    0 < n <= 0x400_0000,
                    e == 0x10_0000_0000_0000,
                    bound >= 0,
                    off >= 0,
            ;
            assert((n + 1) * bound == n * bound + bound) by (nonlinear_arith);
        }
    }
}

/// The rounded sum of numbers that are at least zero is close to the exact one, in proportion.
pub proof fn lemma_nonnegative_sum_error(s: Seq<Binary64>)
    requires
        forall|i: int| 0 <= i < s.len() ==> (#[trigger] s[i]).finite() && s[i].value() >= 0,
        s.len() <= MOST_TERMS,
        total(s) <= pow2(2096),
    ensures
        sum(s).finite(),
        sum(s).value() >= 0,
        total(s) >= 0,
        apart(sum(s).value(), total(s)) * EXPONENT_UNIT <= s.len() * total(s),
    decreases s.len(),
{
    let n = s.len() as int;
    let e = EXPONENT_UNIT as int;
    if n > 0 {
        let t = s.drop_last();
        let x = s.last();
        let k = n - 1;
        assert forall|i: int| 0 <= i < t.len() implies (#[trigger] t[i]).finite() && t[i].value()
            >= 0 by {
            assert(t[i] == s[i]);
        }
        assert(s[n - 1] == x);
        lemma_nonnegative_sum_error(t);
        let p = sum(t);
        let v = p.value() + x.value();
        let (before, after) = (total(t), total(s));
        let off = apart(p.value(), before);
        assert(off <= before) by (nonlinear_arith)
            requires
                off * e <= k * before,
                k <= e,
                0 <= k,
                e > 0,
                before >= 0,
        ;
        lemma_pow2_unfold(2097);
        assert(v <= 2 * after);
        lemma_plus_error(p, x);
        law_plus_nonnegative(p, x);
        let r = sum(s);
        let step = apart(r.value(), v);
        let all = apart(r.value(), after);
        assert(all <= off + step);
        assert(all * e <= k * before + after) by (nonlinear_arith)
            requires
                all <= off + step,
                off * e <= k * before,
                step * e <= after,
                e > 0,
        ;
        assert(k * before + after <= n * after) by (nonlinear_arith)
            requires
                k == n - 1,
                0 <= k,
                before <= after,
        ;
    } else {
        assert(0 * e == 0);
    }
}

/// The mean of numbers of bounded size is close to the exact one, which is the exact sum over
/// their number.
pub proof fn lemma_mean_error(s: Seq<Binary64>, bound: int)
    requires
        all_within(s, bound),
        0 < s.len() <= MOST_TERMS,
        0 <= bound,
        (s.len() + 1) * bound <= pow2(2097),
    ensures
        mean(s).finite(),
        ({
            let n = s.len() as int;
            let e = EXPONENT_UNIT as int;
            apart(mean(s).value() * n, total(s)) * e <= n * e + (n * n + n + 1) * bound
        }),
{
    let n = s.len() as int;
    let e = EXPONENT_UNIT as int;
    let one = one_in_units() as int;
    lemma_sum_error(s, bound);
    lemma_integer_exact(s.len());
    lemma_pow2_pos(1074);
    let d = integer(s.len());
    assert(n * one > 0) by (nonlinear_arith)
        requires
            n > 0,
            one > 0,
    ;
    lemma_value_zero(d);
    let p = sum(s);
    let u = units(p.magnitude()) as int;
    let x = Exact::Ratio { dividend: (u * one) as nat, divisor: (n * one) as nat };
    let m = rounded(x);
    assert(2 * (u * one) <= (n * one) * (2 * u)) by (nonlinear_arith)
        requires
            n >= 1,
            u >= 0,
            one > 0,
    ;
    lemma_rounded_at_most(x, p.magnitude());
    let r = mean(s);
    assert(r == signed_magnitude(p.negative(), m));
    assert(r.magnitude() == m && r.negative() == p.negative());
    lemma_ratio_error((u * one) as nat, (n * one) as nat, m);
    let w = units(m) as int;
    let error = apart(w * (n * one), u * one);
    let step = apart(w * n, u);
    assert(error == step * one) by (nonlinear_arith)
        requires
            one > 0,
            w * n >= u ==> step == w * n - u,
            w * n < u ==> step == u - w * n,
            w * (n * one) >= u * one ==> error == w * (n * one) - u * one,
            w * (n * one) < u * one ==> error == u * one - w * (n * one),
    ;
    assert(step * e <= n * e + (n + 1) * bound) by {
        if error <= n * one {
            assert(step * e <= n * e) by (nonlinear_arith)
                requires
                    step * one <= n * one,
                    one > 0,
                    e > 0,
            ;
            assert((n + 1) * bound >= 0) by (nonlinear_arith)
                requires
                    n > 0,
                    bound >= 0,
            ;
        } else {
            assert(step * e <= u) by (nonlinear_arith)
                requires
                    (step * one) * e <= u * one,
                    one > 0,
            ;
            assert(n * e >= 0);
        }
    }
    let off = apart(p.value(), total(s));
    assert((-w) * n == -(w * n)) by (nonlinear_arith);
    assert(apart(r.value() * n, p.value()) == step);
    let all = apart(r.value() * n, total(s));
    assert(all <= step + off);
    assert(all * e <= step * e + off * e) by (nonlinear_arith)
        requires
            all <= step + off,
            e > 0,
    ;
    assert((n + 1) * bound + n * n * bound == (n * n + n + 1) * bound) by (nonlinear_arith);
}

/// The exact sum of numbers between two bounds.
proof fn lemma_total_between(s: Seq<Binary64>, low: int, high: int)
    requires
        forall|i: int| 0 <= i < s.len() ==> low <= (#[trigger] s[i]).value() <= high,
    ensures
        s.len() * low <= total(s) <= s.len() * high,
    decreases s.len(),
{
    let n = s.len() as int;
    if n > 0 {
        let t = s.drop_last();
        assert forall|i: int| 0 <= i < t.len() implies low <= (#[trigger] t[i]).value()
            <= high by {
            assert(t[i] == s[i]);
        }
        lemma_total_between(t, low, high);
        assert(s[n - 1] == s.last());
        assert(n * low == (n - 1) * low + low) by (nonlinear_arith);
        assert(n * high == (n - 1) * high + high) by (nonlinear_arith);
    } else {
        assert(0 * low == 0 && 0 * high == 0);
    }
}

/// The mean lies between the least and the greatest, but for rounding.
pub proof fn lemma_mean_between(s: Seq<Binary64>, bound: int)
    requires
        all_within(s, bound),
        0 < s.len() <= MOST_TERMS,
        0 <= bound,
        (s.len() + 1) * bound <= pow2(2097),
    ensures
        mean(s).finite(),
        ({
            let e = EXPONENT_UNIT as int;
            let room = (s.len() + 2) * bound + e;
            let m = mean(s).value();
            (m - greatest(s).value()) * e <= room && (least(s).value() - m) * e <= room
        }),
{
    let n = s.len() as int;
    let e = EXPONENT_UNIT as int;
    let (low, high) = (least(s).value(), greatest(s).value());
    assert forall|i: int| 0 <= i < s.len() implies low <= (#[trigger] s[i]).value() <= high by {
        assert(s[i].finite());
        law_greatest(s, i);
        law_least(s, i);
    }
    lemma_total_between(s, low, high);
    lemma_mean_error(s, bound);
    let m = mean(s).value();
    let t = total(s);
    let off = apart(m * n, t);
    let room = (n + 2) * bound + e;
    assert(n * e + (n * n + n + 1) * bound <= n * room) by (nonlinear_arith)
        requires
            room == (n + 2) * bound + e,
            n >= 1,
            bound >= 0,
    ;
    assert(((m - high) * e) * n <= room * n) by (nonlinear_arith)
        requires
            m * n - t <= off,
            off * e <= n * room,
            t <= n * high,
            e > 0,
    ;
    assert(((low - m) * e) * n <= room * n) by (nonlinear_arith)
        requires
            t - m * n <= off,
            off * e <= n * room,
            n * low <= t,
            e > 0,
    ;
    let (x, y) = ((m - high) * e, (low - m) * e);
    assert(x <= room && y <= room) by (nonlinear_arith)
        requires
            x * n <= room * n,
            y * n <= room * n,
            n >= 1,
    ;
}

/// Two means whose exact values are equal are close to each other.
pub proof fn lemma_means_close(s: Seq<Binary64>, t: Seq<Binary64>, bound: int)
    requires
        all_within(s, bound),
        all_within(t, bound),
        s.len() == t.len(),
        total(s) == total(t),
        0 < s.len() <= MOST_TERMS,
        0 <= bound,
        (s.len() + 1) * bound <= pow2(2097),
    ensures
        mean(s).finite(),
        mean(t).finite(),
        ({
            let e = EXPONENT_UNIT as int;
            apart(mean(s).value(), mean(t).value()) * e <= (2 * s.len() + 4) * bound + 2 * e
        }),
{
    lemma_mean_error(s, bound);
    lemma_mean_error(t, bound);
    let n = s.len() as int;
    let e = EXPONENT_UNIT as int;
    let (x, y) = (mean(s).value(), mean(t).value());
    let c = total(s);
    let (p, q) = (apart(x * n, c), apart(y * n, c));
    let d = apart(x, y);
    assert(d * n <= p + q) by (nonlinear_arith)
        requires
            x >= y ==> d == x - y,
            x < y ==> d == y - x,
            x * n - c <= p,
            c - x * n <= p,
            y * n - c <= q,
            c - y * n <= q,
    ;
    let room = n * e + (n * n + n + 1) * bound;
    assert((d * n) * e <= 2 * room) by (nonlinear_arith)
        requires
            d * n <= p + q,
            p * e <= room,
            q * e <= room,
            e > 0,
    ;
    let most = (2 * n + 4) * bound + 2 * e;
    assert(2 * room <= n * most) by (nonlinear_arith)
        requires
            room == n * e + (n * n + n + 1) * bound,
            most == (2 * n + 4) * bound + 2 * e,
            n >= 1,
            bound >= 0,
    ;
    assert(d * e <= most) by (nonlinear_arith)
        requires
            (d * n) * e <= n * most,
            n >= 1,
    ;
}

/// The exact sum does not depend on the order.
pub proof fn lemma_total_permuted<A>(s: Seq<A>, t: Seq<A>, f: spec_fn(A) -> Binary64)
    requires
        s.to_multiset() == t.to_multiset(),
    ensures
        total(s.map_values(f)) == total(t.map_values(f)),
{
    let add_one = |sum: int, x: A| sum + f(x).value();
    lemma_total_folded(s, f);
    lemma_total_folded(t, f);
    vstd::seq_lib::lemma_fold_left_permutation(s, t, add_one, 0);
}

proof fn lemma_total_folded<A>(s: Seq<A>, f: spec_fn(A) -> Binary64)
    ensures
        total(s.map_values(f)) == s.fold_left(0, |sum: int, x: A| sum + f(x).value()),
    decreases s.len(),
{
    if s.len() > 0 {
        lemma_total_folded(s.drop_last(), f);
        assert(s.map_values(f).drop_last() =~= s.drop_last().map_values(f));
    }
}

/// The rounded root of a sum, against the sum.
pub proof fn lemma_root_square(x: Binary64)
    requires
        x.finite(),
        x.value() >= 0,
    ensures
        x.root().finite(),
        x.root().value() >= 0,
        ({
            let d = x.root().value();
            let p = x.value() * one_in_units();
            at_most(p, d * d, 3) && at_most(d * d, p, 3)
        }),
{
    let e = EXPONENT_UNIT as int;
    let one = one_in_units() as int;
    lemma_value_zero(x);
    if x.zero() {
        assert(0 * one == 0 && 0 * e == 0 && 0 * (e + 3) == 0);
        assert(x.root().value() == 0);
    } else {
        let n = units(x.magnitude());
        let r = rounded(Exact::Root { square: n * one_in_units() });
        lemma_units_order(x.magnitude(), (INFINITY_MAGNITUDE - 1) as nat);
        lemma_units_order(0, x.magnitude());
        lemma_root_error(n, r);
        assert(x.root() == signed_magnitude(false, r));
        assert(x.root().magnitude() == r && !x.root().negative());
        let u = units(r) as int;
        let d2 = u * u;
        let p = n * one;
        let g = (e + 1) * (e + 1);
        assert(g <= e * (e + 3)) by (nonlinear_arith)
            requires
                g == (e + 1) * (e + 1),
                e >= 1,
        ;
        assert(d2 >= 0) by (nonlinear_arith)
            requires
                d2 == u * u,
        ;
        assert(p >= 0) by (nonlinear_arith)
            requires
                p == n * one,
                one >= 0,
        ;
        assert(p * e <= d2 * (e + 3)) by (nonlinear_arith)
            requires
                p * (e * e) < d2 * g,
                g <= e * (e + 3),
                d2 >= 0,
                e > 0,
        ;
        assert(d2 * e <= p * (e + 3)) by (nonlinear_arith)
            requires
                d2 * (e * e) <= p * g,
                g <= e * (e + 3),
                p >= 0,
                e > 0,
        ;
    }
}

/// A rounded sum of `n` numbers that are at least zero, against the exact one.
pub proof fn lemma_sum_against_total(s: int, t: int, n: int)
    requires
        apart(s, t) * EXPONENT_UNIT <= n * t,
        0 <= n <= 0x10_0000,
        0 <= s,
        0 <= t,
    ensures
        at_most(s, t, n),
        at_most(t, s, 2 * n),
{
    let e = EXPONENT_UNIT as int;
    let off = apart(s, t);
    assert(s * e <= t * (e + n)) by (nonlinear_arith)
        requires
            s - t <= off,
            off * e <= n * t,
            e > 0,
    ;
    assert(t * (e - n) <= s * e) by (nonlinear_arith)
        requires
            t - s <= off,
            off * e <= n * t,
            e > 0,
    ;
    let f = e - n;
    assert(e * e <= (e + 2 * n) * f) by (nonlinear_arith)
        requires
            f == e - n,
            0 <= n,
            2 * n <= e,
    ;
    assert((t * e) * f <= (s * (e + 2 * n)) * f) by (nonlinear_arith)
        requires
            t * f <= s * e,
            e * e <= (e + 2 * n) * f,
            0 <= s,
            e > 0,
    ;
    assert(t * e <= s * (e + 2 * n)) by (nonlinear_arith)
        requires
            (t * e) * f <= (s * (e + 2 * n)) * f,
            f > 0,
    ;
}

} // verus!
