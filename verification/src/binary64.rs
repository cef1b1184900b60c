//! IEEE 754 double precision numbers, held by their bit pattern.
//!
//! The bit pattern splits into a sign bit and a *magnitude*, the 63 bits below it. Magnitudes
//! are ordered as the numbers they stand for, so the magnitude next above `m` is `m + 1`.
//! Every finite number is a whole multiple of the smallest positive one, 2 to the power -1074;
//! the mathematical value of a number is an integer that counts these multiples, its *units*.

use vstd::arithmetic::power2::{lemma_pow2_pos, lemma_pow2_unfold, pow2};
use vstd::prelude::*;

verus! {

/// The weight of the sign bit.
pub const SIGN_BIT: u64 = 0x8000_0000_0000_0000;

/// The magnitude of the infinities; a larger magnitude is that of a NaN.
pub const INFINITY_MAGNITUDE: u64 = 0x7ff0_0000_0000_0000;

/// The weight of the exponent field: 2 to the power 52.
pub const EXPONENT_UNIT: u64 = 0x10_0000_0000_0000;

/// The bit pattern of the NaN that arithmetic returns.
pub const NAN_BITS: u64 = 0x7ff8_0000_0000_0000;

/// An IEEE 754 double precision number.
#[derive(Clone, Copy, Debug)]
pub struct Binary64 {
    pub bits: u64,
}

/// How many units the number of magnitude `m` has.
///
/// Below 2^52 lie zero and the subnormal numbers. Above, the exponent field `m / 2^52` scales
/// the significand, 2^52 plus the fraction field. The magnitude of infinity is given the value
/// that would follow the largest finite number; a result is rounded to infinity when that value
/// is the nearest.
pub open spec fn units(m: nat) -> nat {
    if m < EXPONENT_UNIT {
        m
    } else {
        ((EXPONENT_UNIT as nat) + m % (EXPONENT_UNIT as nat)) * pow2(
            (m / (EXPONENT_UNIT as nat) - 1) as nat,
        )
    }
}

/// The number with the given sign and magnitude.
pub open spec fn signed_magnitude(negative: bool, m: nat) -> Binary64 {
    Binary64 {
        bits: if negative {
            (SIGN_BIT + m) as u64
        } else {
            m as u64
        },
    }
}

impl Binary64 {
    pub open spec fn negative(self) -> bool {
        self.bits >= SIGN_BIT
    }

    pub open spec fn magnitude(self) -> nat {
        if self.negative() {
            (self.bits - SIGN_BIT) as nat
        } else {
            self.bits as nat
        }
    }

    pub open spec fn nan(self) -> bool {
        self.magnitude() > INFINITY_MAGNITUDE
    }

    pub open spec fn infinite(self) -> bool {
        self.magnitude() == INFINITY_MAGNITUDE
    }

    pub open spec fn finite(self) -> bool {
        self.magnitude() < INFINITY_MAGNITUDE
    }

    pub open spec fn zero(self) -> bool {
        self.magnitude() == 0
    }

    /// The mathematical value in units. An infinity lies beyond every finite value.
    pub open spec fn value(self) -> int {
        if self.negative() {
            -(units(self.magnitude()) as int)
        } else {
            units(self.magnitude()) as int
        }
    }

    /// The same number with the other sign.
    pub open spec fn negated(self) -> Binary64 {
        signed_magnitude(!self.negative(), self.magnitude())
    }

    /// The order of numbers: a NaN is neither above nor below anything, zeros are equal.
    pub open spec fn below(self, other: Binary64) -> bool {
        !self.nan() && !other.nan() && self.value() < other.value()
    }

    pub open spec fn at_least(self, other: Binary64) -> bool {
        !self.nan() && !other.nan() && self.value() >= other.value()
    }

    /// Whether the two are the same number: a NaN equals nothing, zeros are equal.
    pub open spec fn equals(self, other: Binary64) -> bool {
        !self.nan() && !other.nan() && self.value() == other.value()
    }

    /// The larger of two numbers. A NaN gives way to the other; negative zero counts as less
    /// than positive zero.
    pub open spec fn larger(self, other: Binary64) -> Binary64 {
        if self.nan() {
            other
        } else if other.nan() {
            self
        } else if self.value() < other.value() || (self.value() == other.value()
            && self.negative()) {
            other
        } else {
            self
        }
    }

    /// The smaller of two numbers, in the same order.
    pub open spec fn smaller(self, other: Binary64) -> Binary64 {
        if self.nan() {
            other
        } else if other.nan() {
            self
        } else if other.value() < self.value() || (self.value() == other.value()
            && other.negative()) {
            other
        } else {
            self
        }
    }
}

proof fn lemma_pow2_at_zero()
    ensures
        pow2(0) == 1,
{
    vstd::arithmetic::power2::lemma2_to64();
}

/// Magnitudes are ordered as their units.
pub proof fn lemma_units_order(a: nat, b: nat)
    ensures
        a < b <==> units(a) < units(b),
        a == b <==> units(a) == units(b),
{
    if a < b {
        lemma_units_increase(a, b);
    }
    if b < a {
        lemma_units_increase(b, a);
    }
}

/// Magnitude `k * 2^52 + s` has `s * 2^k` units, where `s` is a significand for that scale.
/// A significand one too large, 2^53, carries into the exponent field.
pub proof fn lemma_units_of_scaled(k: nat, s: nat)
    requires
        s <= 2 * EXPONENT_UNIT,
        k == 0 || EXPONENT_UNIT <= s,
    ensures
        units(k * (EXPONENT_UNIT as nat) + s) == s * pow2(k),
{
    let e: nat = EXPONENT_UNIT as nat;
    let m: nat = k * e + s;
    lemma_pow2_at_zero();
    if s < e {
        assert(m == s);
    } else if s < 2 * e {
        let f = (s - e) as nat;
        assert(m == (k + 1) * e + f) by (nonlinear_arith)
            requires
                m == k * e + s,
                f == s - e,
        ;
        vstd::arithmetic::div_mod::lemma_fundamental_div_mod_converse(
            m as int,
            e as int,
            (k + 1) as int,
            f as int,
        );
        assert(m >= e);
    } else {
        assert(m == (k + 2) * e + 0) by (nonlinear_arith)
            requires
                m == k * e + s,
                s == 2 * e,
        ;
        vstd::arithmetic::div_mod::lemma_fundamental_div_mod_converse(
            m as int,
            e as int,
            (k + 2) as int,
            0,
        );
        assert(m >= e);
        lemma_pow2_unfold(k + 1);
        assert(e * (2 * pow2(k)) == (2 * e) * pow2(k)) by (nonlinear_arith);
    }
}

/// A number one magnitude higher has more units.
pub proof fn lemma_units_step(m: nat)
    ensures
        units(m) < units(m + 1),
{
    let e: nat = EXPONENT_UNIT as nat;
    let k: nat = if m < e {
        0
    } else {
        (m / e - 1) as nat
    };
    let s: nat = if m < e {
        m
    } else {
        e + m % e
    };
    assert(m == k * e + s) by (nonlinear_arith)
        requires
            e > 0,
            m < e ==> k == 0 && s == m,
            m >= e ==> k == m / e - 1 && s == e + m % e,
    ;
    assert(m + 1 == k * e + (s + 1));
    lemma_units_of_scaled(k, s);
    lemma_units_of_scaled(k, s + 1);
    lemma_pow2_pos(k);
    assert(s * pow2(k) < (s + 1) * pow2(k)) by (nonlinear_arith)
        requires
            pow2(k) > 0,
    ;
}

/// Units grow with the magnitude.
pub proof fn lemma_units_increase(a: nat, b: nat)
    requires
        a < b,
    ensures
        units(a) < units(b),
    decreases b - a,
{
    lemma_units_step((b - 1) as nat);
    if a < b - 1 {
        lemma_units_increase(a, (b - 1) as nat);
    }
}

/// One step of the exponent field doubles the units.
pub proof fn lemma_units_doubled(m: nat)
    requires
        m >= EXPONENT_UNIT,
    ensures
        units(m + EXPONENT_UNIT as nat) == 2 * units(m),
{
    let e: nat = EXPONENT_UNIT as nat;
    let k: nat = (m / e - 1) as nat;
    let s: nat = e + m % e;
    assert(m == k * e + s) by (nonlinear_arith)
        requires
            e > 0,
            k == m / e - 1,
            s == e + m % e,
    ;
    assert(m + e == (k + 1) * e + s) by (nonlinear_arith)
        requires
            m == k * e + s,
    ;
    lemma_units_of_scaled(k, s);
    lemma_units_of_scaled(k + 1, s);
    lemma_pow2_unfold(k + 1);
    assert(s * (2 * pow2(k)) == 2 * (s * pow2(k))) by (nonlinear_arith);
}

impl Binary64 {
    /// The number whose bit pattern is `bits`.
    pub fn from_bits(bits: u64) -> (r: Self)
        ensures
            r.bits == bits,
    {
        Binary64 { bits }
    }

    /// The bit pattern.
    pub fn to_bits(self) -> (r: u64)
        ensures
            r == self.bits,
    {
        self.bits
    }

    pub fn is_sign_negative(self) -> (r: bool)
        ensures
            r == self.negative(),
    {
        self.bits >= SIGN_BIT
    }

    /// The bit pattern without the sign.
    pub fn magnitude_bits(self) -> (r: u64)
        ensures
            r as nat == self.magnitude(),
            r < SIGN_BIT,
    {
        if self.bits >= SIGN_BIT {
            self.bits - SIGN_BIT
        } else {
            self.bits
        }
    }

    pub fn is_nan(self) -> (r: bool)
        ensures
            r == self.nan(),
    {
        self.magnitude_bits() > INFINITY_MAGNITUDE
    }

    pub fn is_zero(self) -> (r: bool)
        ensures
            r == self.zero(),
    {
        self.magnitude_bits() == 0
    }

    /// Whether this number is less than `other`.
    pub fn less_than(self, other: Binary64) -> (r: bool)
        ensures
            r == self.below(other),
    {
        let a: u64 = self.magnitude_bits();
        let b: u64 = other.magnitude_bits();
        proof {
            lemma_units_order(a as nat, b as nat);
            lemma_units_order(0, a as nat);
            lemma_units_order(0, b as nat);
        }
        if a > INFINITY_MAGNITUDE || b > INFINITY_MAGNITUDE {
            false
        } else if self.is_sign_negative() {
            if other.is_sign_negative() {
                b < a
            } else {
                a != 0 || b != 0
            }
        } else if other.is_sign_negative() {
            false
        } else {
            a < b
        }
    }

    /// Whether this number is at least `other`.
    pub fn greater_or_equal(self, other: Binary64) -> (r: bool)
        ensures
            r == self.at_least(other),
    {
        !self.is_nan() && !other.is_nan() && !self.less_than(other)
    }

    /// The larger of two numbers, ignoring a NaN.
    pub fn max(self, other: Binary64) -> (r: Binary64)
        ensures
            r == self.larger(other),
    {
        if self.is_nan() {
            other
        } else if other.is_nan() {
            self
        } else if self.less_than(other) || (self.is_sign_negative() && !other.less_than(self)) {
            other
        } else {
            self
        }
    }

    /// The smaller of two numbers, ignoring a NaN.
    pub fn min(self, other: Binary64) -> (r: Binary64)
        ensures
            r == self.smaller(other),
    {
        if self.is_nan() {
            other
        } else if other.is_nan() {
            self
        } else if other.less_than(self) || (other.is_sign_negative() && !self.less_than(other)) {
            other
        } else {
            self
        }
    }
}

impl PartialEq for Binary64 {
    fn eq(&self, other: &Self) -> (r: bool) {
        !self.is_nan() && !other.is_nan() && !self.less_than(*other) && !other.less_than(*self)
    }
}

impl vstd::std_specs::cmp::PartialEqSpecImpl for Binary64 {
    open spec fn obeys_eq_spec() -> bool {
        true
    }

    open spec fn eq_spec(&self, other: &Self) -> bool {
        self.equals(*other)
    }
}

} // verus!
