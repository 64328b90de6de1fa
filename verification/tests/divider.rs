//! Exact division and modular exponentiation through the reciprocal divider.

use droplet::modular::{mod_pow_primitive, Reciprocal};

fn check_divide(d: u64, x: u128) {
    assert!(d != 0);
    assert!(x < (d as u128) << 64);
    let rec = Reciprocal::new(d);
    let (q, r) = rec.divide(x);
    assert_eq!(q as u128, x / d as u128, "quotient for {} / {}", x, d);
    assert_eq!(r as u128, x % d as u128, "remainder for {} % {}", x, d);
}

#[test]
fn divide_exact_small_divisors() {
    for d in 1u64..=64 {
        let xs = [
            0u128,
            1,
            d as u128 - 1,
            d as u128,
            d as u128 + 1,
            12345678901234567890u128 % ((d as u128) << 64),
            ((d as u128) << 64) - 1,
        ];
        for &x in xs.iter() {
            check_divide(d, x);
        }
    }
}

#[test]
fn divide_exact_large_divisors() {
    let divisors = [
        3u64,
        10,
        1000003,
        0x8000_0000_0000_0000,
        0x8000_0000_0000_0001,
        u64::MAX - 1,
        u64::MAX,
        0xdead_beef_cafe_f00d,
    ];
    for &d in divisors.iter() {
        let top = (d as u128) << 64;
        let xs = [
            0u128,
            d as u128,
            top / 2,
            top - 1,
            top / 3,
            0x1234_5678_9abc_def0_1122_3344_5566_7788u128 % top,
        ];
        for &x in xs.iter() {
            check_divide(d, x);
        }
    }
}

#[test]
fn divide_remainder_for_modular_multiply() {
    let rec = Reciprocal::new(1_000_000_007);
    let a: u64 = 123_456_789_012;
    let b: u64 = 987_654_321_098;
    let (_, r) = rec.divide((a as u128) * (b as u128));
    assert_eq!(r as u128, (a as u128 * b as u128) % 1_000_000_007u128);
    assert_eq!(rec.mod_mul(123, 456), (123 * 456) % 1_000_000_007);
}

fn slow_pow_mod(base: u64, exponent: u64, modulus: u64) -> u64 {
    let mut acc: u128 = 1 % modulus as u128;
    for _ in 0..exponent {
        acc = acc * (base as u128) % (modulus as u128);
    }
    acc as u64
}

#[test]
fn mod_pow_small_exponents_match_repeated_multiplication() {
    let moduli = [2u64, 3, 7, 97, 1 << 32, 1_000_000_007];
    for &m in moduli.iter() {
        let rec = Reciprocal::new(m);
        for base in [0u64, 1, 2, 16, 1234567].iter().copied() {
            for e in 0u64..12 {
                let expected = slow_pow_mod(base, e, m);
                assert_eq!(mod_pow_primitive(base, e, m), expected);
                assert_eq!(rec.mod_pow(base, e), expected);
            }
        }
    }
}

#[test]
fn mod_pow_split_exponent_law() {
    // base^(e1+e2) == base^e1 * base^e2 (mod m) for large exponents
    let m = 1_000_000_007u64;
    let rec = Reciprocal::new(m);
    let base = 16u64;
    let pairs = [(1u64 << 40, 12345u64), (999_999_999, 1), (1 << 60, 1 << 60)];
    for &(e1, e2) in pairs.iter() {
        let p1 = rec.mod_pow(base, e1);
        let p2 = rec.mod_pow(base, e2);
        let whole = rec.mod_pow(base, e1 + e2);
        assert_eq!(whole as u128, (p1 as u128 * p2 as u128) % m as u128);
        assert_eq!(mod_pow_primitive(base, e1 + e2, m), whole);
    }
}

#[test]
fn mod_pow_degenerate_moduli() {
    assert_eq!(mod_pow_primitive(5, 10, 0), 0);
    assert_eq!(mod_pow_primitive(5, 10, 1), 0);
    assert_eq!(mod_pow_primitive(5, 0, 7), 1);
    let rec = Reciprocal::new(1);
    assert_eq!(rec.mod_pow(16, 0), 0);
    assert_eq!(rec.mod_pow(16, 5), 0);
    assert_eq!(rec.mod_pow_init(9, 16, 0), 0);
    let rec7 = Reciprocal::new(7);
    assert_eq!(rec7.mod_pow(16, 0), 1);
    assert_eq!(rec7.mod_pow_init(9, 16, 0), 2);
    assert_eq!(rec7.mod_pow_init(9, 16, 3), (9u64 * 16 * 16 * 16) % 7);
}
