//! How accurate distances are.

use vstd::arithmetic::power2::{lemma_pow2_adds, lemma_pow2_pos, pow2};
use vstd::prelude::*;

use crate::accuracy::{
    apart, lemma_nonnegative_sum_error, lemma_power_magnitude, lemma_root_square,
    lemma_sum_against_total, total,
};
use crate::arithmetic::one_in_units;
use crate::arithmetic_laws::{law_square, lemma_value_zero};
use crate::binary64::{lemma_units_order, signed_magnitude, units, Binary64, EXPONENT_UNIT};
use crate::output::all_equal;
use crate::proportion::{at_most, lemma_at_most_chain, lemma_at_most_scaled, lemma_at_most_sum};
use crate::range_laws::lemma_product;
use crate::rounding::{
    lemma_pow2_weakly_increases, lemma_rounded_at_least, lemma_rounded_at_most, rounded, Exact,
};
use crate::sequence_laws::{is_running_sum, law_running_sum};
use crate::sequences::sum;
use crate::similarity_laws::law_extra_components_ignored;
use crate::triangle_laws::{
    exact_square, exact_squares, is_near, lemma_difference, rounded_square, rounded_squares,
};
use crate::vector::{distance, squared_differences};

verus! {

/// Whether two finite numbers are equal, or from 2^-499 to 2^499 apart. These bounds lie beyond
/// 10^-150 and 10^150.
pub open spec fn is_moderately_apart(x: Binary64, y: Binary64) -> bool {
    &&& x.finite()
    &&& y.finite()
    &&& x.value() == y.value() || pow2(575) <= apart(x.value(), y.value()) <= pow2(1573)
}

/// Whether the vectors are moderately apart in each component.
pub open spec fn all_moderately_apart(a: Seq<Binary64>, b: Seq<Binary64>) -> bool {
    &&& a.len() == b.len()
    &&& forall|i: int| 0 <= i < a.len() ==> is_moderately_apart(#[trigger] a[i], b[i])
}

/// The rounded difference of such numbers, and its square.
proof fn lemma_moderate_square(x: Binary64, y: Binary64)
    requires
        is_moderately_apart(x, y),
    ensures
        ({
            let r = x.minus(y);
            let s = r.times(r);
            let q = rounded_square(x, y);
            let one = one_in_units() as int;
            &&& s.finite()
            &&& 0 <= s.value() <= pow2(2072)
            &&& q >= 0
            &&& at_most(exact_square(x, y), q, 5)
            &&& at_most(q, exact_square(x, y), 3)
            &&& at_most(q, s.value() * one, 2)
            &&& at_most(s.value() * one, q, 1)
        }),
{
    let z = y.negated();
    assert(z.magnitude() == y.magnitude() && z.negative() == !y.negative());
    let v = x.value() - y.value();
    assert(x.value() + z.value() == v);
    let r = x.minus(y);
    lemma_pow2_weakly_increases(1573, 1574);
    lemma_pow2_pos(1574);
    assert(is_near(x, y));
    lemma_difference(x, y);
    if v != 0 {
        let n = apart(v, 0) as nat;
        let exact = Exact::Ratio { dividend: n, divisor: 1 };
        let low = lemma_power_magnitude(575);
        let high = lemma_power_magnitude(1573);
        assert(1 * (2 * units(low)) == 2 * units(low));
        assert(1 * (2 * units(high)) == 2 * units(high));
        lemma_rounded_at_least(exact, low);
        lemma_rounded_at_most(exact, high);
        let m = rounded(exact);
        lemma_units_order(m, low);
        lemma_units_order(high, m);
        assert(r == signed_magnitude(v < 0, m));
        assert(r.magnitude() == m);
    } else {
        assert(r.zero());
    }
    lemma_product(r, r, 1573);
    law_square(r, r);
}

/// The sums of the exact, the rounded and the twice rounded squares.
proof fn lemma_moderate_squares(a: Seq<Binary64>, b: Seq<Binary64>, n: nat)
    requires
        all_moderately_apart(a, b),
        n <= a.len(),
    ensures
        ({
            let x = exact_squares(a, b, n);
            let r = rounded_squares(a, b, n);
            let t = total(squared_differences(a, b, n));
            let one = one_in_units() as int;
            &&& at_most(x, r, 5)
            &&& at_most(r, x, 3)
            &&& at_most(r, t * one, 2)
            &&& at_most(t * one, r, 1)
            &&& 0 <= t <= n * pow2(2072)
            &&& x >= 0
            &&& r >= 0
        }),
    decreases n,
{
    let one = one_in_units() as int;
    let s = squared_differences(a, b, n);
    if n == 0 {
        assert(s =~= Seq::<Binary64>::empty());
        assert(0 * one == 0 && 0 * pow2(2072) == 0);
    } else {
        let k = (n - 1) as nat;
        let (x, y) = (a[k as int], b[k as int]);
        let p = squared_differences(a, b, k);
        assert(s.drop_last() =~= p);
        lemma_moderate_squares(a, b, k);
        assert(is_moderately_apart(x, y));
        lemma_moderate_square(x, y);
        let v = s.last().value();
        assert(s.last() == x.minus(y).times(x.minus(y)));
        let t = total(p);
        assert((t + v) * one == t * one + v * one) by (nonlinear_arith);
        assert(n * pow2(2072) == k * pow2(2072) + pow2(2072)) by (nonlinear_arith)
            requires
                n == k + 1,
        ;
        let q = rounded_square(x, y);
        let z = exact_square(x, y);
        assert(z >= 0) by (nonlinear_arith)
            requires
                z == (x.value() - y.value()) * (x.value() - y.value()),
        ;
        lemma_at_most_sum(exact_squares(a, b, k), rounded_squares(a, b, k), z, q, 5);
        lemma_at_most_sum(rounded_squares(a, b, k), exact_squares(a, b, k), q, z, 3);
        lemma_at_most_sum(rounded_squares(a, b, k), t * one, q, v * one, 2);
        lemma_at_most_sum(t * one, rounded_squares(a, b, k), v * one, q, 1);
    }
}

/// The square of a distance and the exact squared distance are in proportion: neither exceeds
/// the other by more than two parts in 2^52 for each component, and thirteen. In each component
/// the vectors are equal, or from 2^-499 to 2^499 apart.
pub proof fn law_distance_in_proportion(a: Seq<Binary64>, b: Seq<Binary64>)
    requires
        all_moderately_apart(a, b),
        a.len() <= 0x10_0000,
    ensures
        distance(a, b).finite(),
        distance(a, b).value() >= 0,
        exact_squares(a, b, a.len()) >= 0,
        ({
            let d = distance(a, b).value();
            let x = exact_squares(a, b, a.len());
            let k = 2 * a.len() + 13;
            at_most(x, d * d, k as int) && at_most(d * d, x, k as int)
        }),
{
    let n = a.len();
    let k = n as int;
    let e = EXPONENT_UNIT as int;
    let one = one_in_units() as int;
    let s = squared_differences(a, b, n);
    lemma_moderate_squares(a, b, n);
    assert forall|i: int| 0 <= i < s.len() implies (#[trigger] s[i]).finite() && s[i].value()
        >= 0 by {
        assert(is_moderately_apart(a[i], b[i]));
        lemma_moderate_square(a[i], b[i]);
    }
    vstd::arithmetic::power2::lemma2_to64();
    lemma_pow2_adds(20, 2072);
    lemma_pow2_weakly_increases(2092, 2096);
    assert(n * pow2(2072) <= pow2(20) * pow2(2072)) by (nonlinear_arith)
        requires
            n <= pow2(20),
    ;
    lemma_nonnegative_sum_error(s);
    let p = sum(s);
    lemma_root_square(p);
    let (x, r, t) = (exact_squares(a, b, n), rounded_squares(a, b, n), total(s));
    let v = p.value();
    let d = distance(a, b).value();
    let d2 = d * d;
    lemma_sum_against_total(v, t, k);
    assert(t * one >= 0 && v * one >= 0 && d2 >= 0) by (nonlinear_arith)
        requires
            t >= 0,
            v >= 0,
            one >= 0,
            d2 == d * d,
    ;
    // From the exact squares to the distance.
    lemma_at_most_scaled(t, v, 2 * k, one);
    lemma_at_most_chain(x, r, t * one, 5, 2);
    lemma_at_most_chain(x, t * one, v * one, 8, 2 * k);
    lemma_at_most_chain(x, v * one, d2, 2 * k + 9, 3);
    // From the distance to the exact squares.
    lemma_at_most_scaled(v, t, k, one);
    lemma_at_most_chain(d2, v * one, t * one, 3, k);
    lemma_at_most_chain(d2, t * one, r, k + 4, 1);
    lemma_at_most_chain(d2, r, x, k + 6, 3);
    assert(x * (e + (k + 10)) <= x * (e + (2 * k + 13))) by (nonlinear_arith)
        requires
            x >= 0,
            k >= 0,
    ;
}

/// The exact squared distance is zero exactly where all components are equal.
proof fn lemma_no_squares(a: Seq<Binary64>, b: Seq<Binary64>, n: nat)
    ensures
        exact_squares(a, b, n) >= 0,
        exact_squares(a, b, n) == 0 <==> forall|i: int|
            0 <= i < n ==> (#[trigger] a[i]).value() == b[i].value(),
    decreases n,
{
    if n > 0 {
        let k = n - 1;
        lemma_no_squares(a, b, k as nat);
        let v = a[k].value() - b[k].value();
        assert(v * v >= 0) by (nonlinear_arith);
        assert(v * v == 0 <==> v == 0) by (nonlinear_arith);
    }
}

/// Vectors are at distance zero exactly where their components are equal numbers, if each two
/// are equal or from 2^-499 to 2^499 apart. The square of a smaller difference may vanish.
pub proof fn law_distance_zero(a: Seq<Binary64>, b: Seq<Binary64>)
    requires
        all_moderately_apart(a, b),
        a.len() <= 0x10_0000,
    ensures
        distance(a, b).zero() <==> all_equal(a, b),
{
    let n = a.len();
    let e = EXPONENT_UNIT as int;
    let k = (2 * n + 13) as int;
    law_distance_in_proportion(a, b);
    lemma_no_squares(a, b, n);
    let d = distance(a, b).value();
    let x = exact_squares(a, b, n);
    lemma_value_zero(distance(a, b));
    assert(d == 0 <==> x == 0) by (nonlinear_arith)
        requires
            x * e <= (d * d) * (e + k),
            (d * d) * e <= x * (e + k),
            x >= 0,
            e > 0,
            k > 0,
    ;
    if x == 0 {
        assert forall|i: int| 0 <= i < n implies (#[trigger] a[i]).equals(b[i]) by {
            assert(is_moderately_apart(a[i], b[i]));
        }
    }
    if all_equal(a, b) {
        assert forall|i: int| 0 <= i < n implies (#[trigger] a[i]).value() == b[i].value() by {
            assert(a[i].equals(b[i]));
        }
    }
}

/// A distance is accurate to one part in 10^12: `(1 - 10^-12)^2` and `(1 + 10^-12)^2` times the
/// exact squared distance enclose its square. The vectors have up to a thousand components, each
/// two equal or from 2^-499 to 2^499 apart.
pub proof fn law_distance_accurate(a: Seq<Binary64>, b: Seq<Binary64>)
    requires
        all_moderately_apart(a, b),
        a.len() <= 1000,
    ensures
        distance(a, b).finite(),
        distance(a, b).value() >= 0,
        ({
            let d = 1_000_000_000_000 * distance(a, b).value();
            let x = exact_squares(a, b, a.len());
            &&& 999_999_999_999int * 999_999_999_999int * x <= d * d
            &&& d * d <= 1_000_000_000_001int * 1_000_000_000_001int * x
        }),
{
    let n = a.len();
    let e = EXPONENT_UNIT as int;
    law_distance_in_proportion(a, b);
    let x = exact_squares(a, b, n);
    let d = distance(a, b).value();
    let d2 = d * d;
    let k = (2 * n + 13) as int;
    assert(d2 >= 0) by (nonlinear_arith)
        requires
            d2 == d * d,
    ;
    assert(d2 * (e + k) <= d2 * (e + 2013) && x * (e + k) <= x * (e + 2013)) by (nonlinear_arith)
        requires
            d2 >= 0,
            x >= 0,
            k <= 2013,
    ;
    let f = 1_000_000_000_000 * d;
    assert(f * f == 1_000_000_000_000int * 1_000_000_000_000int * d2) by (nonlinear_arith)
        requires
            f == 1_000_000_000_000 * d,
            d2 == d * d,
    ;
}

/// Whether `n` is the smaller of two lengths.
pub open spec fn is_shorter(n: nat, a: Seq<Binary64>, b: Seq<Binary64>) -> bool {
    n <= a.len() && n <= b.len() && (n == a.len() || n == b.len())
}

/// The distance of vectors of any two lengths is the root of the running sum of the squared
/// differences of all components that both have.
pub proof fn law_distance_components(
    a: Seq<Binary64>,
    b: Seq<Binary64>,
    n: nat,
    squares: Seq<Binary64>,
    sums: Seq<Binary64>,
)
    requires
        is_shorter(n, a, b),
        squares.len() == n,
        forall|i: int|
            0 <= i < n ==> #[trigger] squares[i] == a[i].minus(b[i]).times(a[i].minus(b[i])),
        is_running_sum(sums, squares),
    ensures
        distance(a, b) == sums[n as int].root(),
{
    assert(squared_differences(a, b, n) =~= squares);
    law_running_sum(sums, squares);
}

/// The exact squared distance goes by the components alone.
proof fn lemma_exact_squares_of_prefix(a: Seq<Binary64>, b: Seq<Binary64>, m: nat, n: nat)
    requires
        m <= n <= a.len(),
        n <= b.len(),
    ensures
        exact_squares(a.take(n as int), b.take(n as int), m) == exact_squares(a, b, m),
    decreases m,
{
    if m > 0 {
        lemma_exact_squares_of_prefix(a, b, (m - 1) as nat, n);
    }
}

/// The distance of vectors of any two lengths is accurate to one part in 10^12 against the exact
/// distance over all components that both have, up to a thousand, each two equal or from 2^-499
/// to 2^499 apart; and it is zero exactly where all of these are equal.
pub proof fn law_distance_accurate_over_shorter(a: Seq<Binary64>, b: Seq<Binary64>, n: nat)
    requires
        is_shorter(n, a, b),
        n <= 1000,
        forall|i: int| 0 <= i < n ==> is_moderately_apart(#[trigger] a[i], b[i]),
    ensures
        distance(a, b).finite(),
        distance(a, b).value() >= 0,
        ({
            let d = 1_000_000_000_000 * distance(a, b).value();
            let x = exact_squares(a, b, n);
            &&& 999_999_999_999int * 999_999_999_999int * x <= d * d
            &&& d * d <= 1_000_000_000_001int * 1_000_000_000_001int * x
        }),
        distance(a, b).zero() <==> forall|i: int|
            0 <= i < n ==> (#[trigger] a[i]).value() == b[i].value(),
{
    let (c, d) = (a.take(n as int), b.take(n as int));
    law_extra_components_ignored(a, b);
    assert forall|i: int| 0 <= i < n implies is_moderately_apart(#[trigger] c[i], d[i]) by {
        assert(c[i] == a[i] && d[i] == b[i]);
    }
    lemma_exact_squares_of_prefix(a, b, n, n);
    law_distance_accurate(c, d);
    law_distance_zero(c, d);
    if all_equal(c, d) {
        assert forall|i: int| 0 <= i < n implies (#[trigger] a[i]).value() == b[i].value() by {
            assert(c[i].equals(d[i]));
        }
    }
    if forall|i: int| 0 <= i < n ==> (#[trigger] a[i]).value() == b[i].value() {
        assert forall|i: int| 0 <= i < n implies (#[trigger] c[i]).equals(d[i]) by {
            assert(is_moderately_apart(a[i], b[i]));
        }
    }
}

} // verus!
