//! Arithmetic on [`Binary64`]: every result is the exact one, rounded to the nearest number.

use vstd::arithmetic::power2::{lemma_pow2_adds, lemma_pow2_pos, pow2};
use vstd::prelude::*;

use crate::binary64::{
    lemma_units_increase, lemma_units_of_scaled, signed_magnitude, units, Binary64, EXPONENT_UNIT,
    INFINITY_MAGNITUDE, NAN_BITS, SIGN_BIT,
};
use crate::rounding::{
    bit_length, is_located, lemma_pow2_127, lemma_pow2_weakly_increases, lemma_rounded_exact,
    power_of_two, round_scaled, rounded, Exact,
};

verus! {

/// A value of 1 has this many units: 2^1074.
pub open spec fn one_in_units() -> nat {
    pow2(1074)
}

/// The finite number nearest to `v` units, or an infinity; `v` is not zero.
pub open spec fn from_units(v: int) -> Binary64 {
    if v < 0 {
        signed_magnitude(true, rounded(Exact::Ratio { dividend: (-v) as nat, divisor: 1 }))
    } else {
        signed_magnitude(false, rounded(Exact::Ratio { dividend: v as nat, divisor: 1 }))
    }
}

impl Binary64 {
    /// The sum.
    pub open spec fn plus(self, other: Binary64) -> Binary64 {
        if self.nan() || other.nan() {
            Binary64 { bits: NAN_BITS }
        } else if self.infinite() && other.infinite() && self.negative() != other.negative() {
            Binary64 { bits: NAN_BITS }
        } else if self.infinite() {
            self
        } else if other.infinite() {
            other
        } else if self.value() + other.value() == 0 {
            // Zero, negative only as the sum of two negative zeros.
            signed_magnitude(self.negative() && other.negative(), 0)
        } else {
            from_units(self.value() + other.value())
        }
    }

    /// The difference.
    pub open spec fn minus(self, other: Binary64) -> Binary64 {
        self.plus(other.negated())
    }

    /// The product.
    pub open spec fn times(self, other: Binary64) -> Binary64 {
        let negative = self.negative() != other.negative();
        if self.nan() || other.nan() {
            Binary64 { bits: NAN_BITS }
        } else if (self.infinite() && other.zero()) || (self.zero() && other.infinite()) {
            Binary64 { bits: NAN_BITS }
        } else if self.infinite() || other.infinite() {
            signed_magnitude(negative, INFINITY_MAGNITUDE as nat)
        } else {
            signed_magnitude(
                negative,
                rounded(
                    Exact::Ratio {
                        dividend: units(self.magnitude()) * units(other.magnitude()),
                        divisor: one_in_units(),
                    },
                ),
            )
        }
    }

    /// The quotient.
    pub open spec fn over(self, other: Binary64) -> Binary64 {
        let negative = self.negative() != other.negative();
        if self.nan() || other.nan() {
            Binary64 { bits: NAN_BITS }
        } else if (self.infinite() && other.infinite()) || (self.zero() && other.zero()) {
            Binary64 { bits: NAN_BITS }
        } else if self.infinite() || other.zero() {
            signed_magnitude(negative, INFINITY_MAGNITUDE as nat)
        } else if other.infinite() {
            signed_magnitude(negative, 0)
        } else {
            signed_magnitude(
                negative,
                rounded(
                    Exact::Ratio {
                        dividend: units(self.magnitude()) * one_in_units(),
                        divisor: units(other.magnitude()),
                    },
                ),
            )
        }
    }

    /// The square root.
    pub open spec fn root(self) -> Binary64 {
        if self.nan() {
            Binary64 { bits: NAN_BITS }
        } else if self.zero() {
            self
        } else if self.negative() {
            Binary64 { bits: NAN_BITS }
        } else if self.infinite() {
            self
        } else {
            signed_magnitude(
                false,
                rounded(Exact::Root { square: units(self.magnitude()) * one_in_units() }),
            )
        }
    }
}

/// The number nearest to the integer `n`.
pub open spec fn integer(n: nat) -> Binary64 {
    signed_magnitude(false, rounded(Exact::Ratio { dividend: n * one_in_units(), divisor: 1 }))
}

/// Joins a sign and a magnitude.
fn join(negative: bool, m: u64) -> (r: Binary64)
    requires
        m < SIGN_BIT,
    ensures
        r == signed_magnitude(negative, m as nat),
{
    if negative {
        Binary64 { bits: SIGN_BIT + m }
    } else {
        Binary64 { bits: m }
    }
}

/// Splits a finite magnitude into significand and scale.
fn split(m: u64) -> (r: (u64, i32))
    requires
        m < INFINITY_MAGNITUDE,
    ensures
        0 <= r.1 <= 2045,
        r.0 < 2 * EXPONENT_UNIT,
        r.1 == 0 || EXPONENT_UNIT <= r.0,
        units(m as nat) == r.0 * pow2(r.1 as nat),
        r.0 == 0 <==> m == 0,
{
    let field: u64 = m / EXPONENT_UNIT;
    let (s, k): (u64, i32) = if field == 0 {
        (m, 0)
    } else {
        (EXPONENT_UNIT + m % EXPONENT_UNIT, (field - 1) as i32)
    };
    proof {
        assert(m == k * EXPONENT_UNIT + s);
        lemma_units_of_scaled(k as nat, s as nat);
    }
    (s, k)
}

/// Scales a significand up to its full 53 digits.
fn normalize(s: u64) -> (r: (u64, i32))
    requires
        0 < s < 2 * EXPONENT_UNIT,
    ensures
        EXPONENT_UNIT <= r.0 < 2 * EXPONENT_UNIT,
        0 <= r.1 <= 52,
        r.0 == s * pow2(r.1 as nat),
{
    let digits: u32 = bit_length(s as u128);
    proof {
        vstd::arithmetic::power2::lemma2_to64();
        vstd::arithmetic::power2::lemma2_to64_rest();
        if digits > 53 {
            lemma_pow2_weakly_increases(53, (digits - 1) as nat);
        }
        let n = (53 - digits) as nat;
        lemma_pow2_pos(n);
        lemma_pow2_adds((digits - 1) as nat, n);
        lemma_pow2_adds(digits as nat, n);
        assert(pow2((digits - 1) as nat) * pow2(n) <= s * pow2(n) < pow2(digits as nat) * pow2(n))
            by (nonlinear_arith)
            requires
                pow2((digits - 1) as nat) <= s < pow2(digits as nat),
                pow2(n) > 0,
        ;
    }
    let n: u32 = 53 - digits;
    let r: u128 = s as u128 * power_of_two(n);
    (r as u64, n as i32)
}

impl Binary64 {
    /// Multiplies two numbers.
    pub fn mul(self, other: Binary64) -> (r: Binary64)
        ensures
            r == self.times(other),
    {
        let negative: bool = self.is_sign_negative() != other.is_sign_negative();
        let a: u64 = self.magnitude_bits();
        let b: u64 = other.magnitude_bits();
        if a > INFINITY_MAGNITUDE || b > INFINITY_MAGNITUDE {
            return Binary64 { bits: NAN_BITS };
        }
        if a == INFINITY_MAGNITUDE || b == INFINITY_MAGNITUDE {
            return if a == 0 || b == 0 {
                Binary64 { bits: NAN_BITS }
            } else {
                join(negative, INFINITY_MAGNITUDE)
            };
        }
        let (sa, ka): (u64, i32) = split(a);
        let (sb, kb): (u64, i32) = split(b);
        let ghost x = Exact::Ratio {
            dividend: units(a as nat) * units(b as nat),
            divisor: one_in_units(),
        };
        let ghost u = (ka + kb) as nat;
        proof {
            lemma_pow2_pos(1074);
            assert(sa * sb < 0x80_0000_0000_0000_0000_0000_0000_0000) by (nonlinear_arith)
                requires
                    0 <= sa < 0x20_0000_0000_0000,
                    0 <= sb < 0x20_0000_0000_0000,
            ;
            lemma_pow2_adds(ka as nat, kb as nat);
            vstd::arithmetic::power2::lemma_pow2_unfold(u + 1);
            assert((sa * pow2(ka as nat)) * (sb * pow2(kb as nat)) * 2 == (sa * sb) * (2 * (pow2(
                ka as nat,
            ) * pow2(kb as nat)))) by (nonlinear_arith);
            assert(is_located(x, (sa * sb) as nat, false, u, 1074)) by {
                assert forall|s: nat|
                    #[trigger] x.twice_against(s) == (sa * sb) * pow2(u + 1) - s * pow2(1074) by {
                    assert(pow2(1074) * s == s * pow2(1074)) by (nonlinear_arith);
                }
            }
        }
        let p: u128 = sa as u128 * sb as u128;
        let m: u64 = round_scaled(p, ka + kb - 1074, false, Ghost(x), Ghost(u), Ghost(1074));
        join(negative, m)
    }
}

/// The integer square root.
fn integer_root(n: u128) -> (r: u128)
    requires
        n < 0x1_0000_0000_0000_0000_0000_0000_0000,
    ensures
        r * r <= n < (r + 1) * (r + 1),
        r < 0x100_0000_0000_0000,
{
    let mut lo: u128 = 0;
    let mut hi: u128 = 0x100_0000_0000_0000;
    assert(hi * hi == 0x1_0000_0000_0000_0000_0000_0000_0000) by (nonlinear_arith)
        requires
            hi == 0x100_0000_0000_0000,
    ;
    while hi - lo > 1
        invariant
            lo < hi <= 0x100_0000_0000_0000,
            lo * lo <= n < hi * hi,
        decreases hi - lo,
    {
        let mid: u128 = (lo + hi) / 2;
        assert(mid * mid <= 0x1_0000_0000_0000_0000_0000_0000_0000) by (nonlinear_arith)
            requires
                0 <= mid <= 0x100_0000_0000_0000,
        ;
        if mid * mid <= n {
            lo = mid;
        } else {
            hi = mid;
        }
    }
    lo
}

/// The magnitude of the sum or difference of two finite magnitudes, the larger one first.
fn combine(a: u64, b: u64, subtract: bool) -> (m: u64)
    requires
        b <= a < INFINITY_MAGNITUDE,
    ensures
        m <= INFINITY_MAGNITUDE,
        m == rounded(
            Exact::Ratio {
                dividend: if subtract {
                    (units(a as nat) - units(b as nat)) as nat
                } else {
                    units(a as nat) + units(b as nat)
                },
                divisor: 1,
            },
        ),
{
    let (sa, ka): (u64, i32) = split(a);
    let (sb, kb): (u64, i32) = split(b);
    let ghost larger = units(a as nat);
    let ghost smaller = units(b as nat);
    let ghost total: nat = if subtract {
        (larger - smaller) as nat
    } else {
        larger + smaller
    };
    let ghost x = Exact::Ratio { dividend: total, divisor: 1 };
    proof {
        vstd::arithmetic::power2::lemma2_to64();
        vstd::arithmetic::power2::lemma2_to64_rest();
        if b < a {
            lemma_units_increase(b as nat, a as nat);
        }
        lemma_scale_order(a, b, sa, ka as nat, sb, kb as nat);
        assert forall|s: nat| #[trigger] x.twice_against(s) == 2 * total - s * pow2(0) by {
            assert(s * 1 == s) by (nonlinear_arith);
        }
    }
    let apart: i32 = ka - kb;
    if apart <= 74 {
        let factor: u128 = power_of_two(apart as u32);
        proof {
            let n = apart as nat;
            lemma_pow2_weakly_increases(n, 74);
            lemma_pow2_adds(64, 10);
            assert(pow2(74) == 0x400_0000_0000_0000_0000);
            assert(sa * factor <= (2 * EXPONENT_UNIT - 1) * pow2(74)) by (nonlinear_arith)
                requires
                    0 <= sa <= 2 * EXPONENT_UNIT - 1,
                    0 <= factor <= pow2(74),
            ;
            lemma_pow2_adds(n, kb as nat);
            assert(larger == (sa * factor) * pow2(kb as nat)) by (nonlinear_arith)
                requires
                    larger == sa * pow2(ka as nat),
                    pow2(ka as nat) == factor * pow2(kb as nat),
            ;
            lemma_pow2_pos(kb as nat);
            assert(smaller <= larger ==> sb <= sa * factor) by (nonlinear_arith)
                requires
                    larger == (sa * factor) * pow2(kb as nat),
                    smaller == sb * pow2(kb as nat),
                    pow2(kb as nat) > 0,
            ;
        }
        let shifted: u128 = sa as u128 * factor;
        let p: u128 = if subtract {
            shifted - sb as u128
        } else {
            shifted + sb as u128
        };
        proof {
            let g = pow2(kb as nat);
            vstd::arithmetic::power2::lemma_pow2_unfold((kb + 1) as nat);
            assert(2 * total == p * (2 * g)) by (nonlinear_arith)
                requires
                    total == (if subtract {
                        shifted * g - sb * g
                    } else {
                        shifted * g + sb * g
                    }),
                    p == (if subtract {
                        shifted - sb
                    } else {
                        shifted + sb
                    }),
            ;
            assert(is_located(x, p as nat, false, kb as nat, 0));
        }
        round_scaled(p, kb, false, Ghost(x), Ghost(kb as nat), Ghost(0))
    } else {
        let shifted: u128 = sa as u128 * 0x40_0000;
        let inexact: bool = sb > 0;
        let p: u128 = if subtract && inexact {
            shifted - 1
        } else {
            shifted
        };
        let ghost u = (ka - 22) as nat;
        proof {
            let g = pow2(u);
            vstd::arithmetic::power2::lemma_pow2_unfold(u + 1);
            lemma_pow2_adds(22, u);
            assert(larger == shifted * g) by (nonlinear_arith)
                requires
                    larger == sa * pow2(ka as nat),
                    pow2(ka as nat) == 0x40_0000 * g,
                    shifted == sa * 0x40_0000,
            ;
            lemma_pow2_adds(53, kb as nat);
            lemma_pow2_weakly_increases((53 + kb) as nat, u);
            lemma_pow2_pos(kb as nat);
            assert(smaller < g) by (nonlinear_arith)
                requires
                    smaller == sb * pow2(kb as nat),
                    sb < pow2(53),
                    pow2(53) * pow2(kb as nat) <= g,
                    pow2(kb as nat) > 0,
            ;
            assert(sb > 0 ==> smaller > 0) by (nonlinear_arith)
                requires
                    smaller == sb * pow2(kb as nat),
                    pow2(kb as nat) > 0,
            ;
            assert(sb == 0 ==> smaller == 0) by (nonlinear_arith)
                requires
                    smaller == sb * pow2(kb as nat),
            ;
            assert(shifted * (2 * g) == 2 * (shifted * g)) by (nonlinear_arith);
            assert((shifted - 1) * (2 * g) == 2 * (shifted * g) - 2 * g) by (nonlinear_arith);
            assert((shifted + 1) * (2 * g) == 2 * (shifted * g) + 2 * g) by (nonlinear_arith);
            assert(is_located(x, p as nat, inexact, u, 0));
        }
        round_scaled(p, ka - 22, inexact, Ghost(x), Ghost(u), Ghost(0))
    }
}

/// The larger of two magnitudes has the larger scale.
proof fn lemma_scale_order(a: u64, b: u64, sa: u64, ka: nat, sb: u64, kb: nat)
    requires
        b <= a,
        sa < 2 * EXPONENT_UNIT,
        sb < 2 * EXPONENT_UNIT,
        ka == 0 || EXPONENT_UNIT <= sa,
        kb == 0 || EXPONENT_UNIT <= sb,
        units(a as nat) == sa * pow2(ka),
        units(b as nat) == sb * pow2(kb),
    ensures
        kb <= ka,
{
    if ka < kb {
        if b < a {
            lemma_units_increase(b as nat, a as nat);
        }
        lemma_pow2_adds(1, ka);
        lemma_pow2_weakly_increases(ka + 1, kb);
        vstd::arithmetic::power2::lemma2_to64();
        lemma_pow2_pos(ka);
        assert(sa * pow2(ka) < sb * pow2(kb)) by (nonlinear_arith)
            requires
                sa < 2 * EXPONENT_UNIT,
                EXPONENT_UNIT <= sb,
                2 * pow2(ka) <= pow2(kb),
                pow2(ka) > 0,
        ;
    }
}

impl Binary64 {
    /// The number with the other sign.
    pub fn neg(self) -> (r: Binary64)
        ensures
            r == self.negated(),
    {
        join(!self.is_sign_negative(), self.magnitude_bits())
    }

    /// Adds two numbers.
    pub fn add(self, other: Binary64) -> (r: Binary64)
        ensures
            r == self.plus(other),
    {
        let a: u64 = self.magnitude_bits();
        let b: u64 = other.magnitude_bits();
        let subtract: bool = self.is_sign_negative() != other.is_sign_negative();
        if a > INFINITY_MAGNITUDE || b > INFINITY_MAGNITUDE {
            return Binary64 { bits: NAN_BITS };
        }
        if a == INFINITY_MAGNITUDE {
            return if b == INFINITY_MAGNITUDE && subtract {
                Binary64 { bits: NAN_BITS }
            } else {
                self
            };
        }
        if b == INFINITY_MAGNITUDE {
            return other;
        }
        proof {
            if a < b {
                lemma_units_increase(a as nat, b as nat);
            }
            if b < a {
                lemma_units_increase(b as nat, a as nat);
            }
            if 0 < a {
                lemma_units_increase(0, a as nat);
            }
            if 0 < b {
                lemma_units_increase(0, b as nat);
            }
        }
        if subtract && a == b {
            return Binary64 { bits: 0 };
        }
        if a == 0 && b == 0 {
            return self;
        }
        if a >= b {
            join(self.is_sign_negative(), combine(a, b, subtract))
        } else {
            join(other.is_sign_negative(), combine(b, a, subtract))
        }
    }

    /// Subtracts `other`.
    pub fn sub(self, other: Binary64) -> (r: Binary64)
        ensures
            r == self.minus(other),
    {
        self.add(other.neg())
    }

    /// Divides by `other`.
    pub fn div(self, other: Binary64) -> (r: Binary64)
        ensures
            r == self.over(other),
    {
        let negative: bool = self.is_sign_negative() != other.is_sign_negative();
        let a: u64 = self.magnitude_bits();
        let b: u64 = other.magnitude_bits();
        if a > INFINITY_MAGNITUDE || b > INFINITY_MAGNITUDE {
            return Binary64 { bits: NAN_BITS };
        }
        if (a == INFINITY_MAGNITUDE && b == INFINITY_MAGNITUDE) || (a == 0 && b == 0) {
            return Binary64 { bits: NAN_BITS };
        }
        if a == INFINITY_MAGNITUDE || b == 0 {
            return join(negative, INFINITY_MAGNITUDE);
        }
        if b == INFINITY_MAGNITUDE {
            return join(negative, 0);
        }
        let ghost x = Exact::Ratio {
            dividend: units(a as nat) * one_in_units(),
            divisor: units(b as nat),
        };
        proof {
            lemma_units_increase(0, b as nat);
        }
        if a == 0 {
            proof {
                assert(0 * one_in_units() == 0);
                assert(units(b as nat) * 0 == 0);
                lemma_rounded_exact(x, 0);
            }
            return join(negative, 0);
        }
        let (sa, ka): (u64, i32) = split(a);
        let (sb, kb): (u64, i32) = split(b);
        let (na, z): (u64, i32) = normalize(sa);
        let ghost u = (ka + 1074 - z) as nat;
        let ghost w = (kb + 74) as nat;
        proof {
            vstd::arithmetic::power2::lemma2_to64();
            vstd::arithmetic::power2::lemma2_to64_rest();
            lemma_pow2_adds(64, 10);
            lemma_pow2_127();
        }
        let dividend: u128 = na as u128 * 0x400_0000_0000_0000_0000;
        let q: u128 = dividend / sb as u128;
        let rest: u128 = dividend % sb as u128;
        proof {
            vstd::arithmetic::div_mod::lemma_fundamental_div_mod(dividend as int, sb as int);
            lemma_quotient_located(
                x,
                units(a as nat),
                units(b as nat),
                sa as nat,
                ka as nat,
                sb as nat,
                kb as nat,
                na as nat,
                z as nat,
                q as nat,
                rest as nat,
            );
            assert(q >= 2 * EXPONENT_UNIT) by (nonlinear_arith)
                requires
                    dividend == sb * q + rest,
                    rest < sb,
                    0 < sb < 0x20_0000_0000_0000,
                    dividend >= 0x10_0000_0000_0000 * 0x400_0000_0000_0000_0000,
                    q >= 0,
            ;
            assert(q <= dividend) by (nonlinear_arith)
                requires
                    dividend == sb * q + rest,
                    rest >= 0,
                    sb >= 1,
                    q >= 0,
            ;
        }
        let m: u64 = round_scaled(
            q,
            ka + 1000 - z - kb,
            rest > 0,
            Ghost(x),
            Ghost(u),
            Ghost(w),
        );
        join(negative, m)
    }

    /// The square root.
    pub fn sqrt(self) -> (r: Binary64)
        ensures
            r == self.root(),
    {
        let a: u64 = self.magnitude_bits();
        if a > INFINITY_MAGNITUDE {
            return Binary64 { bits: NAN_BITS };
        }
        if a == 0 {
            return self;
        }
        if self.is_sign_negative() {
            return Binary64 { bits: NAN_BITS };
        }
        if a == INFINITY_MAGNITUDE {
            return self;
        }
        let (sa, ka): (u64, i32) = split(a);
        let (na, z): (u64, i32) = normalize(sa);
        // The exponent left over is even, so that its root is a power of two.
        let odd: bool = (ka - z) % 2 != 0;
        let square: u128 = if odd {
            na as u128 * 0x200_0000_0000_0000
        } else {
            na as u128 * 0x100_0000_0000_0000
        };
        let scale: i32 = if odd {
            (ka - z + 1017) / 2
        } else {
            (ka - z + 1018) / 2
        };
        let r: u128 = integer_root(square);
        let inexact: bool = r * r < square;
        let ghost x = Exact::Root { square: units(a as nat) * one_in_units() };
        proof {
            vstd::arithmetic::power2::lemma2_to64();
            vstd::arithmetic::power2::lemma2_to64_rest();
            lemma_root_located(
                x,
                units(a as nat),
                sa as nat,
                ka as nat,
                na as nat,
                z as nat,
                if odd {
                    57
                } else {
                    56
                },
                square as nat,
                scale as nat,
                r as nat,
            );
            assert(r >= 2 * EXPONENT_UNIT) by (nonlinear_arith)
                requires
                    square < (r + 1) * (r + 1),
                    square >= 0x10_0000_0000_0000 * 0x100_0000_0000_0000,
                    r >= 0,
            ;
        }
        let m: u64 = round_scaled(r, scale, inexact, Ghost(x), Ghost(scale as nat), Ghost(0));
        join(false, m)
    }

    /// The number nearest to an integer.
    pub fn from_usize(n: usize) -> (r: Binary64)
        ensures
            r == integer(n as nat),
    {
        let ghost x = Exact::Ratio { dividend: n as nat * one_in_units(), divisor: 1 };
        proof {
            vstd::arithmetic::power2::lemma2_to64();
            vstd::arithmetic::power2::lemma_pow2_unfold(1075);
            assert(2 * (n * pow2(1074)) == n * (2 * pow2(1074))) by (nonlinear_arith);
            assert forall|s: nat|
                #[trigger] x.twice_against(s) == n * pow2(1075) - s * pow2(0) by {
                assert(s * 1 == s) by (nonlinear_arith);
            }
            assert(is_located(x, n as nat, false, 1074, 0));
        }
        let m: u64 = round_scaled(n as u128, 1074, false, Ghost(x), Ghost(1074), Ghost(0));
        join(false, m)
    }
}

/// Where the quotient of two numbers lies, from the quotient of their significands.
proof fn lemma_quotient_located(
    x: Exact,
    a: nat,
    b: nat,
    sa: nat,
    ka: nat,
    sb: nat,
    kb: nat,
    na: nat,
    z: nat,
    q: nat,
    rest: nat,
)
    requires
        x == (Exact::Ratio { dividend: a * one_in_units(), divisor: b }),
        a == sa * pow2(ka),
        b == sb * pow2(kb),
        na == sa * pow2(z),
        z <= 52,
        sb > 0,
        na * pow2(74) == sb * q + rest,
        rest < sb,
    ensures
        is_located(x, q, rest > 0, (ka + 1074 - z) as nat, kb + 74),
{
    let u = (ka + 1074 - z) as nat;
    let w = kb + 74;
    let g = pow2(u + 1);
    let j = pow2(74);
    lemma_pow2_pos(74);
    lemma_pow2_pos(u + 1);
    lemma_pow2_adds(ka, 1074);
    lemma_pow2_adds(z, u);
    vstd::arithmetic::power2::lemma_pow2_unfold(u + 1);
    lemma_pow2_adds(kb, 74);
    // a * one == na * pow2(u)
    assert(a * one_in_units() == na * pow2(u)) by (nonlinear_arith)
        requires
            a == sa * pow2(ka),
            na == sa * pow2(z),
            pow2(ka) * one_in_units() == pow2(z) * pow2(u),
    ;
    assert forall|s: nat| #![trigger x.twice_against(s)]
        x.twice_against(s) * j == (sb * q + rest) * g - sb * (s * pow2(w)) by {
        let d = a * one_in_units();
        let side = x.twice_against(s);
        assert(side == 2 * d - b * s);
        assert(side * j == (2 * d) * j - (b * s) * j) by (nonlinear_arith)
            requires
                side == 2 * d - b * s,
        ;
        assert((2 * d) * j == (na * j) * g) by (nonlinear_arith)
            requires
                d == na * pow2(u),
                g == 2 * pow2(u),
        ;
        assert((b * s) * j == sb * (s * pow2(w))) by (nonlinear_arith)
            requires
                b == sb * pow2(kb),
                pow2(w) == pow2(kb) * j,
        ;
    }
    assert forall|s: nat| {
        let side = #[trigger] x.twice_against(s);
        let at = s * pow2(w);
        let inexact = rest > 0;
        &&& at < q * g ==> side > 0
        &&& at == q * g && inexact ==> side > 0
        &&& at == q * g && !inexact ==> side == 0
        &&& at > q * g && !inexact ==> side < 0
        &&& at >= (q + 1) * g && inexact ==> side < 0
    } by {
        let side = x.twice_against(s);
        let at = s * pow2(w);
        assert(side * j == sb * (q * g - at) + rest * g) by (nonlinear_arith)
            requires
                side * j == (sb * q + rest) * g - sb * at,
        ;
        let lead = q * g - at;
        assert((q + 1) * g == q * g + g) by (nonlinear_arith);
        assert(rest * g >= 0) by (nonlinear_arith)
            requires
                g > 0,
                rest >= 0,
        ;
        if lead > 0 {
            assert(side > 0) by (nonlinear_arith)
                requires
                    side * j == sb * lead + rest * g,
                    rest * g >= 0,
                    sb > 0,
                    lead > 0,
                    j > 0,
            ;
        } else if lead == 0 {
            assert(side * j == rest * g) by (nonlinear_arith)
                requires
                    side * j == sb * lead + rest * g,
                    lead == 0,
            ;
            if rest > 0 {
                assert(side > 0) by (nonlinear_arith)
                    requires
                        side * j == rest * g,
                        rest > 0,
                        g > 0,
                        j > 0,
                ;
            } else {
                assert(side == 0) by (nonlinear_arith)
                    requires
                        side * j == rest * g,
                        rest == 0,
                        j > 0,
                ;
            }
        } else if rest == 0 {
            assert(side < 0) by (nonlinear_arith)
                requires
                    side * j == sb * lead + rest * g,
                    rest == 0,
                    sb > 0,
                    lead < 0,
                    j > 0,
            ;
        } else if at >= (q + 1) * g {
            assert(lead <= -g) by (nonlinear_arith)
                requires
                    lead == q * g - at,
                    at >= (q + 1) * g,
            ;
            assert(side < 0) by (nonlinear_arith)
                requires
                    side * j == sb * lead + rest * g,
                    rest < sb,
                    lead <= -g,
                    g > 0,
                    j > 0,
            ;
        }
    }
}

/// Where the root of a number lies, from the integer root of its scaled significand.
proof fn lemma_root_located(
    x: Exact,
    a: nat,
    sa: nat,
    ka: nat,
    na: nat,
    z: nat,
    n: nat,
    square: nat,
    scale: nat,
    r: nat,
)
    requires
        x == (Exact::Root { square: a * one_in_units() }),
        a == sa * pow2(ka),
        na == sa * pow2(z),
        square == na * pow2(n),
        ka + 1074 == z + n + 2 * scale,
        r * r <= square < (r + 1) * (r + 1),
    ensures
        is_located(x, r, r * r < square, scale, 0),
{
    let h = pow2(scale + 1);
    let d = a * one_in_units();
    lemma_pow2_pos(scale + 1);
    lemma_pow2_adds(ka, 1074);
    lemma_pow2_adds(z, n);
    lemma_pow2_adds(z + n, 2 * scale);
    lemma_pow2_adds(scale, scale);
    vstd::arithmetic::power2::lemma_pow2_unfold(scale + 1);
    vstd::arithmetic::power2::lemma2_to64();
    assert(d == square * (pow2(scale) * pow2(scale))) by (nonlinear_arith)
        requires
            d == (sa * pow2(ka)) * one_in_units(),
            pow2(ka) * one_in_units() == (pow2(z) * pow2(n)) * (pow2(scale) * pow2(scale)),
            square == (sa * pow2(z)) * pow2(n),
    ;
    assert(4 * d == square * (h * h)) by (nonlinear_arith)
        requires
            d == square * (pow2(scale) * pow2(scale)),
            h == 2 * pow2(scale),
    ;
    assert forall|s: nat| {
        let side = #[trigger] x.twice_against(s);
        let at = s * pow2(0);
        let inexact = r * r < square;
        &&& at < r * h ==> side > 0
        &&& at == r * h && inexact ==> side > 0
        &&& at == r * h && !inexact ==> side == 0
        &&& at > r * h && !inexact ==> side < 0
        &&& at >= (r + 1) * h && inexact ==> side < 0
    } by {
        let side = x.twice_against(s);
        assert(s * pow2(0) == s) by (nonlinear_arith)
            requires
                pow2(0) == 1,
        ;
        assert(side == square * (h * h) - s * s);
        let low = r * h;
        let high = (r + 1) * h;
        let hh = h * h;
        assert(low * low == (r * r) * hh) by (nonlinear_arith)
            requires
                low == r * h,
                hh == h * h,
        ;
        assert(high * high == ((r + 1) * (r + 1)) * hh) by (nonlinear_arith)
            requires
                high == (r + 1) * h,
                hh == h * h,
        ;
        assert(hh > 0) by (nonlinear_arith)
            requires
                hh == h * h,
                h > 0,
        ;
        assert((r * r) * hh <= square * hh < ((r + 1) * (r + 1)) * hh) by (nonlinear_arith)
            requires
                r * r <= square < (r + 1) * (r + 1),
                hh > 0,
        ;
        if r * r < square {
            assert((r * r) * hh < square * hh) by (nonlinear_arith)
                requires
                    r * r < square,
                    hh > 0,
            ;
        }
        if s < low {
            assert(s * s < low * low) by (nonlinear_arith)
                requires
                    0 <= s < low,
            ;
        } else if s > low {
            assert(s * s > low * low) by (nonlinear_arith)
                requires
                    0 <= low < s,
            ;
        }
        if s >= high {
            assert(s * s >= high * high) by (nonlinear_arith)
                requires
                    0 <= high <= s,
            ;
        }
    }
}

} // verus!
