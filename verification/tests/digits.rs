//! Digit extraction against known constants, the floating mirror, and the
//! boundary behaviour at digit index 0.

use droplet::modular::mod_pow_primitive;
use droplet::polynomial::Polynomial;
use droplet::{Formula, PolyFormula};

fn pi_formula() -> Formula {
    Formula::new(16, 8, 1, vec![4, 0, 0, -2, -1, -1, 0, 0])
}

fn pi_poly_formula() -> PolyFormula {
    let numerators = vec![
        Polynomial::new(vec![4]),
        Polynomial::new(vec![-2]),
        Polynomial::new(vec![-1]),
        Polynomial::new(vec![-1]),
    ];
    let denominators = vec![
        Polynomial::new(vec![1, 8]),
        Polynomial::new(vec![4, 8]),
        Polynomial::new(vec![5, 8]),
        Polynomial::new(vec![6, 8]),
    ];
    PolyFormula::new(16, numerators, denominators)
}

#[test]
fn pi_hex_digits_from_the_start() {
    // pi = 3.243f6a8885a308d3... in base 16; the fixed-point query at digit
    // index k starts the stream at digit k.
    let f = pi_formula();
    assert_eq!(f.compute_integer(0) >> 16, 0x243f6a8885a3);
    assert_eq!(f.compute_integer(1) >> 16, 0x43f6a8885a30);
    assert_eq!(f.compute_integer(2) >> 16, 0x3f6a8885a308);
    assert_eq!(f.compute_integer(6) >> 16, 0x8885a308d313);
}

#[test]
fn pi_hex_digit_stream_nibbles() {
    let digits: [u64; 12] = [0x2, 0x4, 0x3, 0xf, 0x6, 0xa, 0x8, 0x8, 0x8, 0x5, 0xa, 0x3];
    let f = pi_formula();
    for (k, &d) in digits.iter().enumerate() {
        assert_eq!(f.compute_integer(k as u32) >> 60, d, "digit {}", k);
    }
}

#[test]
fn poly_formula_matches_linear_formula_for_pi() {
    let f = pi_formula();
    let p = pi_poly_formula();
    for k in [0u32, 1, 2, 3, 10, 100].iter().copied() {
        // both queries compute the same series; the truncation error sits in
        // the lowest bits only
        let a = f.compute_integer(k);
        let b = p.evaluate(k);
        assert_eq!(a >> 16, b >> 16, "digit index {}", k);
    }
}

#[test]
fn ln2_binary_digits() {
    // ln 2 = 0.b17217f7d1cf79ab... in base 16 (series sum_i 1/(i*2^i))
    let f = Formula::new(2, 2, 1, vec![0, 1]);
    assert_eq!(f.compute_integer(0) >> 16, 0xb17217f7d1cf);
}

#[test]
fn queries_are_pure() {
    let f = pi_formula();
    assert_eq!(f.compute_integer(5), f.compute_integer(5));
    assert_eq!(f.compute_term_integer(1, 9), f.compute_term_integer(1, 9));
    let p = pi_poly_formula();
    assert_eq!(p.evaluate(7), p.evaluate(7));
    assert_eq!(p.evaluate_term(2, 7), p.evaluate_term(2, 7));
}

/// Direct fixed-point evaluation of one term of the base-16 formula at
/// digit index 0, straight from the definition: a single head entry at
/// i = 0 plus the convergent tail.
fn pi_term_at_zero_direct(j: u64) -> u64 {
    let den = j; // (8*0 + j)^1
    let mut sum: u64 = (((1u128 % den as u128) << 64) / den as u128) as u64;
    let num_terms = 64 / 4; // ilog2(16) == 4
    for i in 1..=num_terms {
        let den_i = (8 * i + j) as u128;
        let wide = 16u128.pow(i as u32) * den_i;
        sum = sum.wrapping_add(((1u128 << 64) / wide) as u64);
    }
    sum
}

#[test]
fn boundary_digit_zero_single_head_term() {
    // at k = 0 the head sum is the single entry i = 0; the tail length is
    // exactly enough that every omitted entry truncates to zero.
    let f = pi_formula();
    for j in [1u32, 4, 5, 6].iter().copied() {
        assert_eq!(f.compute_term_integer(j, 0), pi_term_at_zero_direct(j as u64));
    }
    // lengthening the tail changes nothing: entries beyond 16 vanish
    for j in [1u64, 4, 5, 6].iter().copied() {
        let den_i = 8 * 17 + j;
        let wide = 16u128.pow(17) * den_i as u128;
        assert_eq!((1u128 << 64) / wide, 0);
    }
}

fn compute_term_float(b: u32, n: u32, s: u32, j: u32, k: u32) -> f64 {
    let mut sum = 0.0f64;
    for i in 0..=k {
        let denominator: u64 = ((n * i + j) as u64).pow(s);
        let exponent = (k - i) as u64;
        let numerator = mod_pow_primitive(b as u64, exponent, denominator);
        sum = (sum + numerator as f64 / denominator as f64).fract();
    }
    let num_terms = 53 / b.ilog2();
    for i in (k + 1)..=(k + num_terms) {
        let denominator = ((n * i + j) as u64).pow(s);
        let numerator = (b as f64).powi(-((i - k) as i32));
        sum = (sum + numerator / denominator as f64).fract();
    }
    sum
}

fn compute_float(b: u32, n: u32, s: u32, a: &[i32], k: u32) -> f64 {
    let mut sum = 0.0f64;
    for (idx, &c) in a.iter().enumerate() {
        if c == 0 {
            continue;
        }
        let j = idx as u32 + 1;
        sum = (sum + c as f64 * compute_term_float(b, n, s, j, k)).fract();
    }
    if sum < 0.0 {
        1.0 + sum
    } else {
        sum
    }
}

#[test]
fn floating_and_fixed_point_agree() {
    let coeffs = [4, 0, 0, -2, -1, -1, 0, 0];
    let f = pi_formula();
    for k in [0u32, 1, 2, 3, 7, 20, 100, 500, 2000].iter().copied() {
        let fixed = f.compute_integer(k) as f64 / 18446744073709551616.0;
        let float = compute_float(16, 8, 1, &coeffs, k);
        let mut diff = (fixed - float).abs();
        if diff > 0.5 {
            diff = 1.0 - diff; // both represent a value modulo 1
        }
        assert!(diff < 1.0 / (1u64 << 40) as f64, "k = {}, diff = {}", k, diff);
    }
}
