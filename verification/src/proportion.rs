//! Integers that are bounded by one another to within a few parts in 2^52.

use vstd::prelude::*;

use crate::binary64::EXPONENT_UNIT;

verus! {

/// Squaring keeps the order.
pub proof fn lemma_square_monotone(a: int, b: int)
    requires
        0 <= a <= b,
    ensures
        a * a <= b * b,
{
    assert(a * a <= b * b) by (nonlinear_arith)
        requires
            0 <= a <= b,
    ;
}

/// Whether `x` is at most `y`, or exceeds it by no more than `k` parts in 2^52.
pub open spec fn at_most(x: int, y: int, k: int) -> bool {
    x * EXPONENT_UNIT <= y * (EXPONENT_UNIT + k)
}

/// Two steps together.
pub proof fn lemma_at_most_chain(x: int, y: int, z: int, j: int, k: int)
    requires
        at_most(x, y, j),
        at_most(y, z, k),
        0 <= j,
        0 <= k,
        j * k <= EXPONENT_UNIT,
        0 <= z,
    ensures
        at_most(x, z, j + k + 1),
{
    let e = EXPONENT_UNIT as int;
    assert(x * e * e <= z * ((e + k) * (e + j))) by (nonlinear_arith)
        requires
            x * e <= y * (e + j),
            y * e <= z * (e + k),
            e > 0,
            j >= 0,
    ;
    assert(z * ((e + k) * (e + j)) <= z * (e * (e + j + k + 1))) by (nonlinear_arith)
        requires
            0 <= z,
            j * k <= e,
    ;
    assert(x * e <= z * (e + (j + k + 1))) by (nonlinear_arith)
        requires
            x * e * e <= z * (e * (e + j + k + 1)),
            e > 0,
    ;
}

/// Both sides multiplied.
pub proof fn lemma_at_most_scaled(x: int, y: int, k: int, f: int)
    requires
        at_most(x, y, k),
        f >= 0,
    ensures
        at_most(x * f, y * f, k),
{
    let e = EXPONENT_UNIT as int;
    assert((x * f) * e <= (y * f) * (e + k)) by (nonlinear_arith)
        requires
            x * e <= y * (e + k),
            f >= 0,
    ;
}

/// The same added to both sides.
pub proof fn lemma_at_most_shifted(x: int, y: int, k: int, n: int)
    requires
        at_most(x, y, k),
        n >= 0,
        k >= 0,
    ensures
        at_most(x + n, y + n, k),
{
    let e = EXPONENT_UNIT as int;
    assert((x + n) * e <= (y + n) * (e + k)) by (nonlinear_arith)
        requires
            x * e <= y * (e + k),
            n >= 0,
            k >= 0,
    ;
}

/// Both sides squared.
pub proof fn lemma_at_most_square(x: int, y: int, j: int, k: int)
    requires
        at_most(x, y, j),
        0 <= x,
        0 <= y,
        0 <= j,
        (EXPONENT_UNIT + j) * (EXPONENT_UNIT + j) <= EXPONENT_UNIT * (EXPONENT_UNIT + k),
    ensures
        at_most(x * x, y * y, k),
{
    let e = EXPONENT_UNIT as int;
    assert(0 <= x * e) by (nonlinear_arith)
        requires
            0 <= x,
            e > 0,
    ;
    lemma_square_monotone(x * e, y * (e + j));
    assert((x * e) * (x * e) == (x * x) * e * e) by (nonlinear_arith);
    assert((y * (e + j)) * (y * (e + j)) == (y * y) * ((e + j) * (e + j))) by (nonlinear_arith);
    assert(y * y >= 0) by (nonlinear_arith);
    assert((y * y) * ((e + j) * (e + j)) <= (y * y) * (e * (e + k))) by (nonlinear_arith)
        requires
            (e + j) * (e + j) <= e * (e + k),
            y * y >= 0,
    ;
    assert((x * x) * e <= (y * y) * (e + k)) by (nonlinear_arith)
        requires
            (x * x) * e * e <= (y * y) * (e * (e + k)),
            e > 0,
    ;
}

/// Two bounds added.
pub proof fn lemma_at_most_sum(x: int, y: int, v: int, w: int, k: int)
    requires
        at_most(x, y, k),
        at_most(v, w, k),
    ensures
        at_most(x + v, y + w, k),
{
    let e = EXPONENT_UNIT as int;
    assert((x + v) * e <= (y + w) * (e + k)) by (nonlinear_arith)
        requires
            x * e <= y * (e + k),
            v * e <= w * (e + k),
    ;
}

/// `k` parts in 2^52 are at most one part in `p`.
pub proof fn lemma_parts(x: int, y: int, k: int, p: int)
    requires
        at_most(x, y, k),
        p >= 0,
        p * k <= EXPONENT_UNIT,
        y >= 0,
    ensures
        x * p <= y * (p + 1),
{
    let e = EXPONENT_UNIT as int;
    assert((x * p) * e <= y * (p * e + p * k)) by (nonlinear_arith)
        requires
            x * e <= y * (e + k),
            p >= 0,
    ;
    assert(y * (p * e + p * k) <= (y * (p + 1)) * e) by (nonlinear_arith)
        requires
            p * k <= e,
            y >= 0,
    ;
    assert(x * p <= y * (p + 1)) by (nonlinear_arith)
        requires
            (x * p) * e <= (y * (p + 1)) * e,
            e > 0,
    ;
}

/// One step of the Cauchy-Schwarz inequality.
pub proof fn lemma_cauchy_step(x: int, y: int, i: int, v: int, w: int)
    requires
        x >= 0,
        y >= 0,
        i * i <= x * y,
    ensures
        (i + v * w) * (i + v * w) <= (x + v * v) * (y + w * w),
{
    // 2 * i * v * w <= x * w^2 + y * v^2, since the square of the left is at most 4 * x * y *
    // (v * w)^2, and that at most the square of the right.
    let p = v * w;
    let f = x * (w * w);
    let g = y * (v * v);
    assert(f >= 0 && g >= 0) by (nonlinear_arith)
        requires
            f == x * (w * w),
            g == y * (v * v),
            x >= 0,
            y >= 0,
    ;
    assert(f * g == (x * y) * (p * p)) by (nonlinear_arith)
        requires
            f == x * (w * w),
            g == y * (v * v),
            p == v * w,
    ;
    assert((i * p) * (i * p) == (i * i) * (p * p)) by (nonlinear_arith);
    assert(p * p >= 0) by (nonlinear_arith);
    assert((i * i) * (p * p) <= (x * y) * (p * p)) by (nonlinear_arith)
        requires
            i * i <= x * y,
            p * p >= 0,
    ;
    let h = i * p;
    assert(4 * (f * g) <= (f + g) * (f + g)) by (nonlinear_arith);
    assert(2 * h <= f + g) by (nonlinear_arith)
        requires
            h * h <= f * g,
            4 * (f * g) <= (f + g) * (f + g),
            f + g >= 0,
    ;
    assert((i + p) * (i + p) == i * i + 2 * h + p * p) by (nonlinear_arith)
        requires
            h == i * p,
    ;
    assert((x + v * v) * (y + w * w) == x * y + f + g + p * p) by (nonlinear_arith)
        requires
            f == x * (w * w),
            g == y * (v * v),
            p == v * w,
    ;
}

} // verus!
