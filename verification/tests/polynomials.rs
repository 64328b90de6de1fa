//! Horner evaluation and the generalized formula's per-index sign rule.

use droplet::polynomial::Polynomial;
use droplet::PolyFormula;

#[test]
fn horner_worked_example() {
    // 3 + 2x + x^2 at x = 2 is 3 + 4 + 4 = 11
    let p = Polynomial::new(vec![3, 2, 1]);
    assert_eq!(p.evaluate(2), 11);
}

#[test]
fn horner_edge_cases() {
    let zero = Polynomial::new(vec![]);
    assert_eq!(zero.evaluate(5), 0);
    let constant = Polynomial::new(vec![42]);
    assert_eq!(constant.evaluate(-7), 42);
    let line = Polynomial::new(vec![1, 8]);
    assert_eq!(line.evaluate(0), 1);
    assert_eq!(line.evaluate(10), 81);
    let signed = Polynomial::new(vec![-5, 3, -2]);
    assert_eq!(signed.evaluate(4), -5 + 12 - 32);
    assert_eq!(signed.evaluate(-4), -5 - 12 - 32);
}

/// Direct evaluation of one term of a generalized formula in 128-bit
/// arithmetic, following the head/tail definition with the sign decided
/// independently at every summation index.
fn poly_term_direct(base: i64, nums: &[i64], dens: &[i64], digit: u32) -> u64 {
    let babs = base.unsigned_abs();
    let base_positive = base > 0 || digit % 2 == 0;
    let eval = |cs: &[i64], x: i64| -> i64 {
        let mut r: i64 = 0;
        for &c in cs.iter().rev() {
            r = r * x + c;
        }
        r
    };
    let mut sum: u64 = 0;
    for i in 0..=digit as i64 {
        let den = eval(dens, i).unsigned_abs();
        let num = eval(nums, i);
        let positive = if base_positive { num > 0 } else { num < 0 };
        let mut residue = num.unsigned_abs() as u128 % den as u128;
        for _ in 0..(digit as i64 - i) {
            residue = residue * babs as u128 % den as u128;
        }
        let mag = ((residue << 64) / den as u128) as u64;
        sum = if positive { sum.wrapping_add(mag) } else { sum.wrapping_sub(mag) };
    }
    let num_terms = 64 / babs.ilog2();
    for c in 1..=num_terms {
        let i = digit as i64 + c as i64;
        let den = eval(dens, i).unsigned_abs();
        let num = eval(nums, i);
        let positive = if base_positive { num > 0 } else { num < 0 };
        let wide = (babs as u128).pow(c) * den as u128;
        let mag = (((num.unsigned_abs() as u128) << 64) / wide) as u64;
        sum = if positive { sum.wrapping_add(mag) } else { sum.wrapping_sub(mag) };
    }
    sum
}

#[test]
fn poly_formula_negative_base_sign_alternation() {
    // base -2: the sign of a contribution flips with the digit parity
    let f = PolyFormula::new(-2, vec![Polynomial::new(vec![1])], vec![Polynomial::new(vec![2, 2])]);
    for digit in 0u32..8 {
        let expected = poly_term_direct(-2, &[1], &[2, 2], digit);
        assert_eq!(f.evaluate(digit), expected, "digit {}", digit);
        assert_eq!(f.evaluate_term(0, digit), expected, "digit {}", digit);
    }
}

#[test]
fn poly_formula_two_negative_signs_add() {
    // negative base at an odd digit index gives a negative base factor; a
    // negative numerator value there makes the product of signs positive,
    // so the entry must be added, not subtracted
    let f = PolyFormula::new(-2, vec![Polynomial::new(vec![-1])], vec![Polynomial::new(vec![3])]);
    let digit = 1u32;
    // hand-built expected value: every entry is positive at this digit
    let mut expected: u64 = ((2u128 << 64) / 3) as u64; // head i = 0: (1*2 mod 3) = 2
    expected = expected.wrapping_add(((1u128 << 64) / 3) as u64); // head i = 1: 1 mod 3
    for c in 1..=64u32 {
        expected = expected.wrapping_add(((1u128 << 64) / (3u128 << c)) as u64);
    }
    assert_eq!(f.evaluate_term(0, digit), expected);
    assert_eq!(f.evaluate(digit), expected);
    assert_eq!(f.evaluate(digit), poly_term_direct(-2, &[-1], &[3], digit));
    // at an even digit index the base factor is positive and the negative
    // numerator flips every sign
    assert_eq!(f.evaluate(2), poly_term_direct(-2, &[-1], &[3], 2));
    assert_eq!(f.evaluate(2), 0u64.wrapping_sub(poly_term_direct(2, &[1], &[3], 2)));
}

#[test]
fn poly_formula_sign_varies_with_numerator_index() {
    // numerator 3 - x changes sign across the summation range, so the sign
    // must be decided per index, not once per term
    let f = PolyFormula::new(
        2,
        vec![Polynomial::new(vec![3, -1])],
        vec![Polynomial::new(vec![5, 2])],
    );
    for digit in 0u32..10 {
        let expected = poly_term_direct(2, &[3, -1], &[5, 2], digit);
        assert_eq!(f.evaluate(digit), expected, "digit {}", digit);
    }
}
