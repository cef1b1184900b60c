use prediction_vector::sequences::{max_of, mean_of, min_of, sum_of};
use prediction_vector::Binary64;

fn num(x: f64) -> Binary64 {
    Binary64::from_bits(x.to_bits())
}

fn val(x: Binary64) -> f64 {
    f64::from_bits(x.to_bits())
}

/// The same number, down to the sign of zero; all NaNs count as the same.
fn same(x: Binary64, y: f64) -> bool {
    x.to_bits() == y.to_bits() || (x.is_nan() && y.is_nan())
}

fn next(state: &mut u64) -> u64 {
    *state ^= *state << 13;
    *state ^= *state >> 7;
    *state ^= *state << 17;
    *state
}

/// Numbers of all kinds: arbitrary patterns, numbers near one, subnormal and huge numbers.
fn sample(state: &mut u64) -> f64 {
    let bits = next(state);
    let sign = bits & (1 << 63);
    let frac = bits & ((1 << 52) - 1);
    let kind = next(state) % 8;
    let exponent = match kind {
        0 | 1 => (bits >> 52) & 0x7ff,
        2 | 3 => 1023 - 60 + next(state) % 120,
        4 => next(state) % 60,
        5 => 2046 - next(state) % 60,
        6 => 1023 - 540 + next(state) % 40,
        _ => 1023,
    };
    let trimmed = if next(state) % 4 == 0 { frac & !((1 << 30) - 1) } else { frac };
    f64::from_bits(sign | (exponent << 52) | trimmed)
}

fn specials() -> Vec<f64> {
    vec![
        0.0,
        -0.0,
        1.0,
        -1.0,
        0.5,
        2.0,
        3.0,
        1.0 / 3.0,
        f64::MAX,
        f64::MIN,
        f64::MIN_POSITIVE,
        -f64::MIN_POSITIVE,
        f64::from_bits(1),
        f64::from_bits(2),
        f64::from_bits((1 << 52) - 1),
        -f64::from_bits(1),
        f64::EPSILON,
        f64::INFINITY,
        f64::NEG_INFINITY,
        f64::NAN,
    ]
}

fn check_pair(x: f64, y: f64) {
    let (a, b) = (num(x), num(y));
    assert!(same(a.add(b), x + y), "{:e} + {:e}", x, y);
    assert!(same(a.sub(b), x - y), "{:e} - {:e}", x, y);
    assert!(same(a.mul(b), x * y), "{:e} * {:e}", x, y);
    assert!(same(a.div(b), x / y), "{:e} / {:e}", x, y);
    assert_eq!(a.less_than(b), x < y);
    assert_eq!(a.greater_or_equal(b), x >= y);
    assert_eq!(a == b, x == y);
    assert_eq!(a.max(b) == num(x.max(y)), !x.max(y).is_nan());
    assert_eq!(a.min(b) == num(x.min(y)), !x.min(y).is_nan());
}

#[test]
fn special_numbers_match_hardware() {
    for x in specials() {
        for y in specials() {
            check_pair(x, y);
        }
        assert!(same(num(x).sqrt(), x.sqrt()), "sqrt {:e}", x);
        assert!(same(num(x).neg(), -x));
        assert_eq!(num(x).is_nan(), x.is_nan());
        assert_eq!(num(x).is_zero(), x == 0.0);
        assert_eq!(num(x).is_sign_negative(), x.is_sign_negative());
    }
}

#[test]
fn sampled_numbers_match_hardware() {
    let mut state = 0x9e37_79b9_7f4a_7c15;
    for _ in 0..60_000 {
        let x = sample(&mut state);
        let y = sample(&mut state);
        check_pair(x, y);
        assert!(same(num(x.abs()).sqrt(), x.abs().sqrt()), "sqrt {:e}", x.abs());
    }
}

#[test]
fn special_against_sampled_matches_hardware() {
    let mut state = 0x1234_5678_9abc_def1;
    for x in specials() {
        for _ in 0..500 {
            let y = sample(&mut state);
            check_pair(x, y);
            check_pair(y, x);
        }
    }
}

#[test]
fn neighbours_match_hardware() {
    // Differences of close numbers, and halfway cases.
    let mut state = 0x0dd_ba11;
    for _ in 0..20_000 {
        let x = sample(&mut state);
        let y = f64::from_bits(x.to_bits() ^ (next(&mut state) % 8));
        check_pair(x, y);
        let half = f64::from_bits((x.to_bits() & !((1 << 52) - 1)).wrapping_sub(53 << 52));
        check_pair(x, half);
        check_pair(x, -half);
    }
}

#[test]
fn integers_match_hardware() {
    let mut state = 77;
    for i in 0..1000usize {
        assert!(same(Binary64::from_usize(i), i as f64));
    }
    for _ in 0..5000 {
        let shift = next(&mut state) % 64;
        let n = (next(&mut state) >> shift) as usize;
        assert!(same(Binary64::from_usize(n), n as f64), "{}", n);
    }
    assert!(same(Binary64::from_usize(usize::MAX), usize::MAX as f64));
}

#[test]
fn arithmetic_examples() {
    assert_eq!(num(0.1).add(num(0.2)).to_bits(), 0x3fd3_3333_3333_3334);
    assert_eq!(num(1.0).div(num(3.0)).to_bits(), 0x3fd5_5555_5555_5555);
    assert_eq!(num(2.0).sqrt().to_bits(), 0x3ff6_a09e_667f_3bcd);
    assert_eq!(num(1e308).mul(num(10.0)).to_bits(), f64::INFINITY.to_bits());
    assert_eq!(num(f64::MAX).add(num(f64::MAX)).to_bits(), f64::INFINITY.to_bits());
    assert!(num(-1.0).sqrt().is_nan());
    assert!(num(f64::INFINITY).sub(num(f64::INFINITY)).is_nan());
    assert!(num(0.0).div(num(0.0)).is_nan());
    assert_eq!(num(-0.0).sqrt().to_bits(), (-0.0f64).to_bits());
    assert_eq!(num(-0.0).max(num(0.0)).to_bits(), 0);
    assert_eq!(num(0.0).min(num(-0.0)).to_bits(), (-0.0f64).to_bits());
}

#[test]
fn sums_and_extremes_match_the_standard_library() {
    let mut state = 4242;
    for len in 0..40usize {
        let xs: Vec<f64> = (0..len).map(|_| sample(&mut state)).collect();
        let ns: Vec<Binary64> = xs.iter().map(|x| num(*x)).collect();
        assert!(same(sum_of(&ns), xs.iter().sum::<f64>()));
        assert!(same(mean_of(&ns), xs.iter().sum::<f64>() / len as f64));
        assert_eq!(val(max_of(&ns)), xs.iter().cloned().fold(f64::NEG_INFINITY, f64::max));
        assert_eq!(val(min_of(&ns)), xs.iter().cloned().fold(f64::INFINITY, f64::min));
    }
}

#[test]
fn extremes_ignore_nan() {
    let ns = [num(f64::NAN), num(2.0), num(f64::NAN), num(-3.0)];
    assert_eq!(val(max_of(&ns)), 2.0);
    assert_eq!(val(min_of(&ns)), -3.0);
    assert_eq!(val(max_of(&ns[..1])), f64::NEG_INFINITY);
    assert_eq!(val(min_of(&ns[..1])), f64::INFINITY);
}

#[test]
fn adding_negative_zero_changes_nothing() {
    for x in specials() {
        assert!(same(num(x).add(num(-0.0)), x));
    }
}

#[test]
fn one_is_neutral() {
    for x in specials() {
        assert!(same(num(x).mul(Binary64::from_usize(1)), x));
        assert!(same(num(x).div(Binary64::from_usize(1)), x));
    }
}
