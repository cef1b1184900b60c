//! Rounding an exact result to the nearest number, ties to even.

use vstd::arithmetic::power2::{
    lemma_pow2_adds, lemma_pow2_pos, lemma_pow2_strictly_increases, lemma_pow2_unfold, pow2,
};
use vstd::prelude::*;

use crate::binary64::{
    lemma_units_doubled, lemma_units_increase, lemma_units_of_scaled, units, EXPONENT_UNIT,
    INFINITY_MAGNITUDE,
};

verus! {

/// A non-negative real number, in units.
pub enum Exact {
    /// The quotient of two integers; the divisor is positive.
    Ratio { dividend: nat, divisor: nat },
    /// The square root of an integer.
    Root { square: nat },
}

impl Exact {
    pub open spec fn well_formed(self) -> bool {
        self matches Exact::Ratio { divisor, .. } ==> divisor > 0
    }

    /// Positive, zero or negative as twice the number is above, at or below `s`.
    pub open spec fn twice_against(self, s: nat) -> int {
        match self {
            Exact::Ratio { dividend, divisor } => 2 * dividend - divisor * s,
            Exact::Root { square } => 4 * square - s * s,
        }
    }
}

/// Whether `m` is the magnitude whose value is nearest to `x`. Against every other magnitude,
/// `x` lies on `m`'s side of the midpoint between the two, or on the midpoint if `m` is even.
pub open spec fn is_nearest(x: Exact, m: nat) -> bool {
    &&& m <= INFINITY_MAGNITUDE
    &&& forall|k: nat|
        k < m ==> {
            let side = x.twice_against(#[trigger] units(k) + units(m));
            side > 0 || (side == 0 && m % 2 == 0)
        }
    &&& forall|k: nat|
        m < k <= INFINITY_MAGNITUDE ==> {
            let side = x.twice_against(units(m) + #[trigger] units(k));
            side < 0 || (side == 0 && m % 2 == 0)
        }
}

/// The magnitude that `x` is rounded to.
pub open spec fn rounded(x: Exact) -> nat {
    choose|m: nat| is_nearest(x, m)
}

proof fn lemma_twice_against_decreases(x: Exact, s: nat, t: nat)
    requires
        x.well_formed(),
        s < t,
    ensures
        x.twice_against(t) < x.twice_against(s),
{
    match x {
        Exact::Ratio { dividend, divisor } => {
            assert(divisor * s < divisor * t) by (nonlinear_arith)
                requires
                    s < t,
                    divisor > 0,
            ;
        },
        Exact::Root { square } => {
            assert(s * s < t * t) by (nonlinear_arith)
                requires
                    s < t,
            ;
        },
    }
}

/// No number has two nearest magnitudes.
pub proof fn lemma_nearest_unique(x: Exact, m: nat, n: nat)
    requires
        x.well_formed(),
        is_nearest(x, m),
        is_nearest(x, n),
    ensures
        m == n,
{
    if m != n {
        let lo = if m < n { m } else { n };
        let hi = if m < n { n } else { m };
        assert(x.twice_against(units(lo) + units(hi)) == 0);
        if lo + 1 < hi {
            lemma_units_increase(lo + 1, hi);
            lemma_units_increase(lo, lo + 1);
            lemma_twice_against_decreases(x, units(lo) + units(lo + 1), units(lo) + units(hi));
            assert(false);
        }
        assert(false);
    }
}

pub proof fn lemma_rounded_is(x: Exact, m: nat)
    requires
        x.well_formed(),
        is_nearest(x, m),
    ensures
        rounded(x) == m,
{
    lemma_nearest_unique(x, m, rounded(x));
}

/// A number that is a magnitude's own value is rounded to that magnitude.
pub proof fn lemma_rounded_exact(x: Exact, m: nat)
    requires
        x.well_formed(),
        m <= INFINITY_MAGNITUDE,
        x.twice_against(2 * units(m)) == 0,
    ensures
        rounded(x) == m,
{
    assert forall|k: nat| k < m implies x.twice_against(#[trigger] units(k) + units(m)) > 0 by {
        lemma_units_increase(k, m);
        lemma_twice_against_decreases(x, units(k) + units(m), 2 * units(m));
    }
    assert forall|k: nat| m < k <= INFINITY_MAGNITUDE implies x.twice_against(
        units(m) + #[trigger] units(k),
    ) < 0 by {
        lemma_units_increase(m, k);
        lemma_twice_against_decreases(x, 2 * units(m), units(m) + units(k));
    }
    lemma_rounded_is(x, m);
}

/// The nearest magnitude is one of the two neighbours that `x` lies between.
proof fn lemma_nearest_between(x: Exact, lo: nat, up: bool)
    requires
        x.well_formed(),
        lo < INFINITY_MAGNITUDE,
        x.twice_against(2 * units(lo)) >= 0,
        x.twice_against(2 * units(lo + 1)) < 0,
        up == ({
            let half = x.twice_against(units(lo) + units(lo + 1));
            half > 0 || (half == 0 && lo % 2 == 1)
        }),
    ensures
        is_nearest(x, lo + (if up { 1nat } else { 0nat })),
{
    let hi = lo + 1;
    let m = if up { hi } else { lo };
    let mid = units(lo) + units(hi);
    assert forall|j: nat| j < m implies {
        let side = x.twice_against(#[trigger] units(j) + units(m));
        side > 0 || (side == 0 && m % 2 == 0)
    } by {
        lemma_units_increase(j, m);
        if up {
            if j < lo {
                lemma_units_increase(j, lo);
                lemma_twice_against_decreases(x, units(j) + units(m), mid);
            } else {
                assert(j == lo);
            }
        } else {
            lemma_twice_against_decreases(x, units(j) + units(m), 2 * units(lo));
        }
    }
    assert forall|j: nat| m < j <= INFINITY_MAGNITUDE implies {
        let side = x.twice_against(units(m) + #[trigger] units(j));
        side < 0 || (side == 0 && m % 2 == 0)
    } by {
        lemma_units_increase(m, j);
        if up {
            lemma_twice_against_decreases(x, 2 * units(hi), units(m) + units(j));
        } else {
            if hi < j {
                lemma_units_increase(hi, j);
                lemma_twice_against_decreases(x, mid, units(m) + units(j));
            } else {
                assert(j == hi);
            }
        }
    }
}

/// A number at least as large as the value given to infinity is rounded to infinity.
proof fn lemma_nearest_infinity(x: Exact)
    requires
        x.well_formed(),
        x.twice_against(2 * units(INFINITY_MAGNITUDE as nat)) >= 0,
    ensures
        is_nearest(x, INFINITY_MAGNITUDE as nat),
{
    let m = INFINITY_MAGNITUDE as nat;
    assert forall|j: nat| j < m implies x.twice_against(#[trigger] units(j) + units(m)) > 0 by {
        lemma_units_increase(j, m);
        lemma_twice_against_decreases(x, units(j) + units(m), 2 * units(m));
    }
}

/// The largest magnitude up to `top` whose value is not above `x`.
proof fn lemma_magnitude_below(x: Exact, top: nat) -> (m: nat)
    ensures
        m <= top,
        x.twice_against(2 * units(m)) >= 0,
        m < top ==> x.twice_against(2 * units(m + 1)) < 0,
    decreases top,
{
    if top == 0 {
        assert(x.twice_against(0) >= 0) by {
            match x {
                Exact::Ratio { dividend, divisor } => {
                    assert(divisor * 0 == 0);
                },
                Exact::Root { square } => {},
            }
        }
        0
    } else if x.twice_against(2 * units(top)) >= 0 {
        top
    } else {
        lemma_magnitude_below(x, (top - 1) as nat)
    }
}

/// Every number has a nearest magnitude.
pub proof fn lemma_rounded_nearest(x: Exact)
    requires
        x.well_formed(),
    ensures
        is_nearest(x, rounded(x)),
{
    let lo = lemma_magnitude_below(x, INFINITY_MAGNITUDE as nat);
    if lo == INFINITY_MAGNITUDE {
        lemma_nearest_infinity(x);
    } else {
        let half = x.twice_against(units(lo) + units(lo + 1));
        lemma_nearest_between(x, lo, half > 0 || (half == 0 && lo % 2 == 1));
    }
}

/// A number that is not above a magnitude's value is not rounded to more.
pub proof fn lemma_rounded_at_most(x: Exact, m: nat)
    requires
        x.well_formed(),
        x.twice_against(2 * units(m)) <= 0,
    ensures
        rounded(x) <= m,
{
    lemma_rounded_nearest(x);
    let r = rounded(x);
    if m < r {
        lemma_units_increase(m, r);
        lemma_twice_against_decreases(x, 2 * units(m), units(m) + units(r));
    }
}

/// A number that is not below a magnitude's value is not rounded to less.
pub proof fn lemma_rounded_at_least(x: Exact, m: nat)
    requires
        x.well_formed(),
        m <= INFINITY_MAGNITUDE,
        x.twice_against(2 * units(m)) >= 0,
    ensures
        rounded(x) >= m,
{
    lemma_rounded_nearest(x);
    let r = rounded(x);
    if r < m {
        lemma_units_increase(r, m);
        lemma_twice_against_decreases(x, units(r) + units(m), 2 * units(m));
    }
}

/// A larger number is not rounded to less.
pub proof fn lemma_rounded_ordered(x: Exact, y: Exact)
    requires
        x.well_formed(),
        y.well_formed(),
        forall|s: nat| #[trigger] x.twice_against(s) <= y.twice_against(s),
    ensures
        rounded(x) <= rounded(y),
{
    lemma_rounded_nearest(x);
    lemma_rounded_nearest(y);
    let (m, n) = (rounded(x), rounded(y));
    if n < m {
        let far = units(n) + units(m);
        assert(x.twice_against(far) >= 0);
        assert(y.twice_against(far) <= 0);
        assert(x.twice_against(far) == 0 && y.twice_against(far) == 0);
        assert(n + 1 < m);
        lemma_units_increase(n + 1, m);
        let near = units(n) + units(n + 1);
        lemma_twice_against_decreases(x, near, far);
        assert(y.twice_against(near) <= 0);
    }
}

/// Whether two integers lie on the same side of zero.
pub open spec fn same_side(a: int, b: int) -> bool {
    (a > 0 <==> b > 0) && (a == 0 <==> b == 0)
}

/// Whether two exact results are the same number.
pub open spec fn is_same(x: Exact, y: Exact) -> bool {
    forall|s: nat| same_side(#[trigger] x.twice_against(s), y.twice_against(s))
}

/// Whether the second exact result is twice the first.
pub open spec fn is_double(x: Exact, y: Exact) -> bool {
    forall|s: nat| same_side(#[trigger] x.twice_against(s), y.twice_against(2 * s))
}

/// The same number is rounded to the same magnitude.
pub proof fn lemma_rounded_same(x: Exact, y: Exact)
    requires
        x.well_formed(),
        y.well_formed(),
        is_same(x, y),
    ensures
        rounded(x) == rounded(y),
{
    lemma_rounded_nearest(x);
    let m = rounded(x);
    assert forall|k: nat| k < m implies {
        let side = y.twice_against(#[trigger] units(k) + units(m));
        side > 0 || (side == 0 && m % 2 == 0)
    } by {
        let side = x.twice_against(units(k) + units(m));
        assert(side > 0 || (side == 0 && m % 2 == 0));
    }
    assert forall|k: nat| m < k <= INFINITY_MAGNITUDE implies {
        let side = y.twice_against(units(m) + #[trigger] units(k));
        side < 0 || (side == 0 && m % 2 == 0)
    } by {
        let side = x.twice_against(units(m) + units(k));
        assert(side < 0 || (side == 0 && m % 2 == 0));
    }
    lemma_rounded_is(y, m);
}

/// Twice a number is rounded to twice the magnitude's value, unless the number is subnormal or
/// large.
pub proof fn lemma_rounded_doubled(x: Exact, y: Exact)
    requires
        x.well_formed(),
        y.well_formed(),
        is_double(x, y),
        x.twice_against(2 * units(EXPONENT_UNIT as nat)) >= 0,
        x.twice_against(2 * units((INFINITY_MAGNITUDE - 2 * EXPONENT_UNIT) as nat)) <= 0,
    ensures
        rounded(x) < INFINITY_MAGNITUDE,
        rounded(y) < INFINITY_MAGNITUDE,
        units(rounded(y)) == 2 * units(rounded(x)),
{
    let e = EXPONENT_UNIT as nat;
    let top = (INFINITY_MAGNITUDE - 2 * EXPONENT_UNIT) as nat;
    lemma_rounded_at_most(x, top);
    lemma_rounded_at_least(x, e);
    let lo = lemma_magnitude_below(x, INFINITY_MAGNITUDE as nat);
    if lo > top {
        lemma_units_increase(top, lo);
        lemma_twice_against_decreases(x, 2 * units(top), 2 * units(lo));
    }
    if lo < e {
        if lo + 1 < e {
            lemma_units_increase(lo + 1, e);
            lemma_twice_against_decreases(x, 2 * units(lo + 1), 2 * units(e));
        }
        assert(false);
    }
    let half = x.twice_against(units(lo) + units(lo + 1));
    let up = half > 0 || (half == 0 && lo % 2 == 1);
    lemma_nearest_between(x, lo, up);
    lemma_rounded_is(x, lo + (if up { 1nat } else { 0nat }));
    lemma_units_doubled(lo);
    lemma_units_doubled(lo + 1);
    assert(lo + 1 + e == lo + e + 1);
    assert(same_side(x.twice_against(2 * units(lo)), y.twice_against(2 * (2 * units(lo)))));
    assert(same_side(x.twice_against(2 * units(lo + 1)), y.twice_against(2 * (2 * units(lo + 1)))));
    assert(same_side(half, y.twice_against(2 * (units(lo) + units(lo + 1)))));
    assert(2 * (units(lo) + units(lo + 1)) == units(lo + e) + units(lo + e + 1));
    lemma_nearest_between(y, lo + e, up);
    lemma_rounded_is(y, lo + e + (if up { 1nat } else { 0nat }));
}

/// A number that does not overflow is rounded to one of the two neighbours that it lies between.
pub proof fn lemma_rounded_neighbours(x: Exact) -> (lo: nat)
    requires
        x.well_formed(),
        rounded(x) < INFINITY_MAGNITUDE,
    ensures
        lo < INFINITY_MAGNITUDE,
        x.twice_against(2 * units(lo)) >= 0,
        x.twice_against(2 * units(lo + 1)) < 0,
        rounded(x) == lo || rounded(x) == lo + 1,
{
    let lo = lemma_magnitude_below(x, INFINITY_MAGNITUDE as nat);
    if lo == INFINITY_MAGNITUDE {
        lemma_nearest_infinity(x);
        lemma_rounded_is(x, lo);
    } else {
        let half = x.twice_against(units(lo) + units(lo + 1));
        let up = half > 0 || (half == 0 && lo % 2 == 1);
        lemma_nearest_between(x, lo, up);
        lemma_rounded_is(x, lo + (if up { 1nat } else { 0nat }));
    }
    lo
}

/// A number nearer than one half to a whole number of units below 2^52 is rounded to it.
pub proof fn lemma_rounded_to_whole(x: Exact, n: nat)
    requires
        x.well_formed(),
        0 < n < EXPONENT_UNIT,
        x.twice_against((2 * n - 1) as nat) > 0,
        x.twice_against(2 * n + 1) < 0,
    ensures
        rounded(x) == n,
{
    lemma_units_of_scaled(0, n);
    vstd::arithmetic::power2::lemma2_to64();
    assert(units(n) == n && units((n - 1) as nat) == n - 1);
    assert(units(n + 1) == n + 1) by {
        lemma_units_of_scaled(0, n + 1);
    }
    if x.twice_against(2 * n) >= 0 {
        lemma_twice_against_decreases(x, 2 * n + 1, 2 * units(n + 1));
        lemma_nearest_between(x, n, false);
        lemma_rounded_is(x, n);
    } else {
        let lo = (n - 1) as nat;
        lemma_twice_against_decreases(x, 2 * units(lo), (2 * n - 1) as nat);
        assert(units(lo) + units(lo + 1) == 2 * n - 1);
        lemma_nearest_between(x, lo, true);
        lemma_rounded_is(x, n);
    }
}

/// Neighbouring magnitudes differ by one unit, or by at most one part in 2^52.
pub proof fn lemma_neighbour_gap(m: nat)
    ensures
        units(m + 1) - units(m) == 1 || (units(m + 1) - units(m)) * EXPONENT_UNIT <= units(m),
{
    let e: nat = EXPONENT_UNIT as nat;
    vstd::arithmetic::power2::lemma2_to64();
    if m + 1 <= e {
        lemma_units_of_scaled(0, m);
        lemma_units_of_scaled(0, m + 1);
        assert((m + 1) * 1 == m + 1 && m * 1 == m);
    } else {
        let k = (m / e - 1) as nat;
        let s = e + m % e;
        assert(m == k * e + s) by (nonlinear_arith)
            requires
                e > 0,
                k == m / e - 1,
                s == e + m % e,
        ;
        lemma_units_of_scaled(k, s);
        lemma_units_of_scaled(k, s + 1);
        assert(units(m + 1) == (s + 1) * pow2(k));
        let g = pow2(k);
        assert((s + 1) * g - s * g == g) by (nonlinear_arith);
        assert(g * e <= s * g) by (nonlinear_arith)
            requires
                e <= s,
        ;
    }
}

/// The nearest magnitude, where `significand` is the whole part of `x` at the scale 2^`k`.
proof fn lemma_nearest_from_whole_part(x: Exact, k: nat, significand: nat, up: bool)
    requires
        x.well_formed(),
        k <= LARGEST_SCALE,
        significand < 2 * EXPONENT_UNIT,
        k == 0 || EXPONENT_UNIT <= significand,
        x.twice_against(2 * (significand * pow2(k))) >= 0,
        x.twice_against(2 * ((significand + 1) * pow2(k))) < 0,
        up == ({
            let half = x.twice_against((2 * significand + 1) * pow2(k));
            half > 0 || (half == 0 && significand % 2 == 1)
        }),
    ensures
        rounded(x) == k * (EXPONENT_UNIT as nat) + significand + (if up { 1nat } else { 0nat }),
{
    let lo = k * (EXPONENT_UNIT as nat) + significand;
    lemma_units_of_scaled(k, significand);
    lemma_units_of_scaled(k, significand + 1);
    assert(units(lo + 1) == (significand + 1) * pow2(k));
    let mid = units(lo) + units(lo + 1);
    assert(mid == (2 * significand + 1) * pow2(k)) by (nonlinear_arith)
        requires
            mid == significand * pow2(k) + (significand + 1) * pow2(k),
    ;
    lemma_nearest_between(x, lo, up);
    lemma_rounded_is(x, lo + (if up { 1nat } else { 0nat }));
}

/// Whether `x` is `p * 2^u / 2^w`, or, if `inexact`, lies strictly between that and
/// `(p + 1) * 2^u / 2^w`.
pub open spec fn is_located(x: Exact, p: nat, inexact: bool, u: nat, w: nat) -> bool {
    forall|s: nat|
        {
            let side = #[trigger] x.twice_against(s);
            let at = s * pow2(w);
            &&& at < p * pow2(u + 1) ==> side > 0
            &&& at == p * pow2(u + 1) && inexact ==> side > 0
            &&& at == p * pow2(u + 1) && !inexact ==> side == 0
            &&& at > p * pow2(u + 1) && !inexact ==> side < 0
            &&& at >= (p + 1) * pow2(u + 1) && inexact ==> side < 0
        }
}

/// The largest scale of a finite number: its significand is multiplied by 2^2045.
pub const LARGEST_SCALE: u32 = 2045;

/// 2 to the power `n`.
pub(crate) fn power_of_two(n: u32) -> (r: u128)
    requires
        n <= 127,
    ensures
        r == pow2(n as nat),
{
    let mut r: u128 = 1;
    let mut i: u32 = 0;
    proof {
        vstd::arithmetic::power2::lemma2_to64();
        lemma_pow2_127();
    }
    while i < n
        invariant
            i <= n <= 127,
            r == pow2(i as nat),
            pow2(127) == 0x8000_0000_0000_0000_0000_0000_0000_0000,
        decreases n - i,
    {
        proof {
            lemma_pow2_unfold((i + 1) as nat);
            lemma_pow2_weakly_increases((i + 1) as nat, 127);
        }
        r = r * 2;
        i = i + 1;
    }
    r
}

pub proof fn lemma_pow2_127()
    ensures
        pow2(127) == 0x8000_0000_0000_0000_0000_0000_0000_0000,
        pow2(64) == 0x1_0000_0000_0000_0000,
        pow2(63) == 0x8000_0000_0000_0000,
{
    vstd::arithmetic::power2::lemma2_to64_rest();
    vstd::arithmetic::power2::lemma2_to64();
    lemma_pow2_adds(63, 64);
}

pub proof fn lemma_pow2_weakly_increases(a: nat, b: nat)
    requires
        a <= b,
    ensures
        pow2(a) <= pow2(b),
{
    if a < b {
        lemma_pow2_strictly_increases(a, b);
    }
}

/// How many binary digits `p` has.
pub(crate) fn bit_length(p: u128) -> (n: u32)
    requires
        p > 0,
    ensures
        1 <= n <= 128,
        pow2((n - 1) as nat) <= p < pow2(n as nat),
{
    let mut q: u128 = p;
    let mut n: u32 = 0;
    proof {
        vstd::arithmetic::power2::lemma2_to64();
        lemma_pow2_127();
        lemma_pow2_unfold(128);
    }
    while q > 0
        invariant
            p > 0,
            n <= 128,
            q == 0 ==> n > 0,
            n > 0 ==> pow2((n - 1) as nat) <= p,
            q * pow2(n as nat) <= p < (q + 1) * pow2(n as nat),
            pow2(128) == 0x1_0000_0000_0000_0000_0000_0000_0000_0000,
        decreases q,
    {
        let h: u128 = q / 2;
        proof {
            let t = pow2(n as nat);
            lemma_pow2_unfold((n + 1) as nat);
            assert(t <= p) by (nonlinear_arith)
                requires
                    q * t <= p,
                    q >= 1,
            ;
            assert(h * (2 * t) <= p < (h + 1) * (2 * t)) by (nonlinear_arith)
                requires
                    q * t <= p < (q + 1) * t,
                    2 * h <= q <= 2 * h + 1,
            ;
            if n == 128 {
                assert(false);
            }
        }
        q = h;
        n = n + 1;
    }
    assert((q + 1) * pow2(n as nat) == pow2(n as nat)) by (nonlinear_arith)
        requires
            q == 0,
    ;
    n
}

/// The whole part of `x` at the scale 2^`k` and where the rest lies, for `p` cut at bit
/// `shift = k + w - u`.
proof fn lemma_cut(
    x: Exact,
    p: nat,
    inexact: bool,
    u: nat,
    w: nat,
    k: nat,
    shift: nat,
    whole: nat,
    rest: nat,
)
    requires
        is_located(x, p, inexact, u, w),
        shift >= 1,
        u + shift == k + w,
        p == whole * pow2(shift) + rest,
        rest < pow2(shift),
    ensures
        x.twice_against(2 * (whole * pow2(k))) >= 0,
        x.twice_against(2 * ((whole + 1) * pow2(k))) < 0,
        ({
            let half = x.twice_against((2 * whole + 1) * pow2(k));
            &&& 2 * rest < pow2(shift) ==> half < 0
            &&& 2 * rest > pow2(shift) ==> half > 0
            &&& 2 * rest == pow2(shift) && inexact ==> half > 0
            &&& 2 * rest == pow2(shift) && !inexact ==> half == 0
        }),
{
    let g = pow2((shift - 1) as nat);
    let b = pow2(u + 1);
    lemma_pow2_unfold(shift);
    lemma_pow2_pos(u + 1);
    // pow2(k) * pow2(w) == g * b
    lemma_pow2_adds(k, w);
    lemma_pow2_adds((shift - 1) as nat, u + 1);
    assert(pow2(k) * pow2(w) == g * b);
    assert forall|c: nat| #[trigger] ((c * pow2(k)) * pow2(w)) == (c * g) * b by {
        assert((c * pow2(k)) * pow2(w) == c * (pow2(k) * pow2(w))) by (nonlinear_arith);
        assert((c * g) * b == c * (g * b)) by (nonlinear_arith);
    }
    let lo = 2 * (whole * pow2(k));
    let mid = (2 * whole + 1) * pow2(k);
    let hi = 2 * ((whole + 1) * pow2(k));
    assert(lo == (2 * whole) * pow2(k)) by (nonlinear_arith)
        requires
            lo == 2 * (whole * pow2(k)),
    ;
    assert(hi == (2 * whole + 2) * pow2(k)) by (nonlinear_arith)
        requires
            hi == 2 * ((whole + 1) * pow2(k)),
    ;
    assert(lo * pow2(w) == ((2 * whole) * g) * b);
    assert(mid * pow2(w) == ((2 * whole + 1) * g) * b);
    assert(hi * pow2(w) == ((2 * whole + 2) * g) * b);
    assert((2 * whole) * g == whole * (2 * g)) by (nonlinear_arith);
    assert((2 * whole + 1) * g == whole * (2 * g) + g) by (nonlinear_arith);
    assert((2 * whole + 2) * g == whole * (2 * g) + 2 * g) by (nonlinear_arith);
    lemma_multiples(((2 * whole) * g) as int, p as int, b as int);
    lemma_multiples(((2 * whole + 1) * g) as int, p as int, b as int);
    lemma_multiples(((2 * whole + 2) * g) as int, p as int, b as int);
    lemma_multiples(((2 * whole + 1) * g) as int, (p + 1) as int, b as int);
    lemma_multiples(((2 * whole + 2) * g) as int, (p + 1) as int, b as int);
    assert(x.twice_against(lo) >= 0);
    assert(x.twice_against(hi) < 0);
    let half = x.twice_against(mid);
}

proof fn lemma_multiples(a: int, c: int, b: int)
    requires
        b > 0,
    ensures
        a < c <==> a * b < c * b,
        a == c <==> a * b == c * b,
{
    assert(a < c ==> a * b < c * b) by (nonlinear_arith)
        requires
            b > 0,
    ;
    assert(a > c ==> a * b > c * b) by (nonlinear_arith)
        requires
            b > 0,
    ;
}

/// A number with so many digits is rounded to infinity.
proof fn lemma_overflow(x: Exact, p: nat, inexact: bool, u: nat, w: nat, top: nat)
    requires
        x.well_formed(),
        is_located(x, p, inexact, u, w),
        pow2(top) <= p,
        u + top >= LARGEST_SCALE + 53 + w,
    ensures
        rounded(x) == INFINITY_MAGNITUDE,
{
    let m = INFINITY_MAGNITUDE as nat;
    let k = (LARGEST_SCALE + 1) as nat;
    let e = EXPONENT_UNIT as nat;
    vstd::arithmetic::power2::lemma2_to64_rest();
    lemma_units_of_scaled(k, e);
    assert(units(m) == e * pow2(k));
    lemma_pow2_adds(52, k);
    lemma_pow2_unfold(k + 53);
    let s = 2 * units(m);
    assert(s == pow2(k + 53));
    lemma_pow2_adds(k + 53, w);
    lemma_pow2_weakly_increases(k + 53 + w, top + u + 1);
    lemma_pow2_adds(top, u + 1);
    assert(pow2(top) * pow2(u + 1) <= p * pow2(u + 1)) by (nonlinear_arith)
        requires
            pow2(top) <= p,
    ;
    assert(s * pow2(w) <= p * pow2(u + 1));
    assert(x.twice_against(s) >= 0);
    lemma_nearest_infinity(x);
    lemma_rounded_is(x, m);
}

/// A number with at most 53 significant digits is its own rounding.
proof fn lemma_exact_fit(x: Exact, p: nat, u: nat, w: nat, k: nat, n: nat)
    requires
        x.well_formed(),
        is_located(x, p, false, u, w),
        u == k + w + n,
        p * pow2(n) < 2 * EXPONENT_UNIT,
        k == 0 || EXPONENT_UNIT <= p * pow2(n),
        k <= LARGEST_SCALE,
    ensures
        rounded(x) == k * (EXPONENT_UNIT as nat) + p * pow2(n),
{
    let significand = p * pow2(n);
    let m = k * (EXPONENT_UNIT as nat) + significand;
    lemma_units_of_scaled(k, significand);
    let s = 2 * units(m);
    lemma_pow2_adds(n, k);
    lemma_pow2_adds(n + k, w);
    lemma_pow2_unfold(u + 1);
    assert(s * pow2(w) == p * (2 * ((pow2(n) * pow2(k)) * pow2(w)))) by (nonlinear_arith)
        requires
            s == 2 * ((p * pow2(n)) * pow2(k)),
    ;
    assert(n + k + w == u);
    assert(s * pow2(w) == p * pow2(u + 1));
    assert(x.twice_against(s) == 0);
    lemma_rounded_exact(x, m);
}

/// Cutting `n` low digits off a number with `digits` binary digits.
proof fn lemma_digits_cut(p: nat, digits: nat, n: nat)
    requires
        pow2((digits - 1) as nat) <= p < pow2(digits),
        digits >= 1,
        n <= digits,
    ensures
        p / pow2(n) < pow2((digits - n) as nat),
        n < digits ==> pow2((digits - n - 1) as nat) <= p / pow2(n),
{
    lemma_pow2_pos(n);
    lemma_pow2_adds((digits - n) as nat, n);
    let q = p / pow2(n);
    let g = pow2(n);
    vstd::arithmetic::div_mod::lemma_fundamental_div_mod(p as int, g as int);
    vstd::arithmetic::div_mod::lemma_mod_bound(p as int, g as int);
    let top = pow2((digits - n) as nat);
    assert(q < top) by (nonlinear_arith)
        requires
            g * q <= p,
            p < top * g,
            g > 0,
    ;
    if n < digits {
        let low = pow2((digits - n - 1) as nat);
        lemma_pow2_adds((digits - n - 1) as nat, n);
        assert(low <= q) by (nonlinear_arith)
            requires
                low * g <= p,
                p < g * q + g,
                g > 0,
        ;
    }
}

/// Appending `n` zeros to a number with `digits` binary digits.
proof fn lemma_digits_append(p: nat, digits: nat, n: nat)
    requires
        pow2((digits - 1) as nat) <= p < pow2(digits),
        digits >= 1,
    ensures
        pow2((digits - 1 + n) as nat) <= p * pow2(n) < pow2(digits + n),
{
    lemma_pow2_pos(n);
    lemma_pow2_adds((digits - 1) as nat, n);
    lemma_pow2_adds(digits, n);
    let g = pow2(n);
    assert(pow2((digits - 1) as nat) * g <= p * g < pow2(digits) * g) by (nonlinear_arith)
        requires
            pow2((digits - 1) as nat) <= p < pow2(digits),
            g > 0,
    ;
}

/// Rounds the number that lies at `p * 2^t`, or, if `inexact`, between that and
/// `(p + 1) * 2^t`.
pub(crate) fn round_scaled(
    p: u128,
    t: i32,
    inexact: bool,
    Ghost(x): Ghost<Exact>,
    Ghost(u): Ghost<nat>,
    Ghost(w): Ghost<nat>,
) -> (m: u64)
    requires
        x.well_formed(),
        is_located(x, p as nat, inexact, u, w),
        t == u - w,
        -10000 < t < 10000,
        inexact ==> p >= 2 * EXPONENT_UNIT,
        p < 0x8000_0000_0000_0000_0000_0000_0000_0000,
    ensures
        m == rounded(x),
        m <= INFINITY_MAGNITUDE,
{
    proof {
        vstd::arithmetic::power2::lemma2_to64();
        vstd::arithmetic::power2::lemma2_to64_rest();
        lemma_pow2_127();
        assert(pow2(53) == 2 * EXPONENT_UNIT);
    }
    if p == 0 {
        proof {
            assert(0 * pow2(w) == 0 * pow2(u + 1)) by (nonlinear_arith);
            assert(x.twice_against(0) == 0);
            lemma_rounded_exact(x, 0);
        }
        return 0;
    }
    let digits: u32 = bit_length(p);
    let scale: i32 = t + digits as i32 - 53;
    let k: i32 = if scale > 0 {
        scale
    } else {
        0
    };
    if k > LARGEST_SCALE as i32 {
        proof {
            lemma_overflow(x, p as nat, inexact, u, w, (digits - 1) as nat);
        }
        return INFINITY_MAGNITUDE;
    }
    let shift: i32 = k - t;
    proof {
        if digits < 54 {
            lemma_pow2_weakly_increases(digits as nat, 53);
        }
    }
    if shift <= 0 {
        let n: u32 = (-shift) as u32;
        proof {
            lemma_digits_append(p as nat, digits as nat, n as nat);
            if scale > 0 {
                assert(digits + n == 53);
            } else {
                lemma_pow2_weakly_increases((digits + n) as nat, 53);
            }
            lemma_exact_fit(x, p as nat, u, w, k as nat, n as nat);
        }
        let significand: u128 = p * power_of_two(n);
        return k as u64 * EXPONENT_UNIT + significand as u64;
    }
    let whole: u64;
    let up: bool;
    let ghost cut: nat = shift as nat;
    if shift > 127 {
        whole = 0;
        up = false;
        proof {
            lemma_pow2_unfold(128);
            lemma_pow2_weakly_increases(128, cut);
            lemma_cut(x, p as nat, inexact, u, w, k as nat, cut, 0, p as nat);
        }
    } else {
        let divisor: u128 = power_of_two(shift as u32);
        proof {
            lemma_pow2_pos(cut);
        }
        let quotient: u128 = p / divisor;
        let rest: u128 = p % divisor;
        proof {
            lemma_pow2_unfold(cut);
            vstd::arithmetic::div_mod::lemma_fundamental_div_mod(p as int, divisor as int);
            assert(p == quotient * divisor + rest) by (nonlinear_arith)
                requires
                    p == divisor * quotient + rest,
            ;
            lemma_cut(x, p as nat, inexact, u, w, k as nat, cut, quotient as nat, rest as nat);
            if cut <= digits {
                lemma_digits_cut(p as nat, digits as nat, cut);
                if scale > 0 {
                    assert(digits - cut == 53);
                } else {
                    lemma_pow2_weakly_increases((digits - cut) as nat, 53);
                }
            } else {
                lemma_pow2_weakly_increases(digits as nat, cut);
                assert(quotient == 0) by (nonlinear_arith)
                    requires
                        p == quotient * divisor + rest,
                        p < divisor,
                        rest >= 0,
                        quotient >= 0,
                ;
            }
        }
        let half: u128 = divisor / 2;
        whole = quotient as u64;
        up = rest > half || (rest == half && (inexact || whole % 2 == 1));
    }
    proof {
        lemma_nearest_from_whole_part(x, k as nat, whole as nat, up);
    }
    let floor: u64 = k as u64 * EXPONENT_UNIT + whole;
    if up {
        floor + 1
    } else {
        floor
    }
}

} // verus!
