//! Shared arithmetic support: the fixed-point radix, base-2 logarithms,
//! and small division / modulus lemmas used across the crate.

use vstd::prelude::*;
use vstd::arithmetic::div_mod::*;
use vstd::arithmetic::mul::*;
use vstd::arithmetic::power::pow;
use vstd::arithmetic::power::lemma_pow_adds;
use vstd::arithmetic::power::lemma_pow_positive;
use vstd::arithmetic::power2::*;

verus! {

/// The radix of the fixed-point fraction representation: a value `v: u64`
/// stands for the fraction `v / two64()`.
pub open spec fn two64() -> int {
    0x1_0000_0000_0000_0000
}

pub proof fn lemma_two64_is_pow2()
    ensures
        two64() == pow2(64),
        two64() * two64() == pow2(128),
{
    lemma2_to64();
    lemma2_to64_rest();
    lemma_pow2_adds(64, 64);
}

/// Floor of the base-2 logarithm; 0 for inputs below 2.
pub open spec fn log2f(x: int) -> nat
    decreases x,
{
    if x < 2 {
        0
    } else {
        1 + log2f(x / 2)
    }
}

/// The defining bracket of the base-2 logarithm.
pub proof fn lemma_log2f_bounds(x: int)
    requires
        x >= 1,
    ensures
        pow2(log2f(x)) <= x < pow2(log2f(x) + 1),
    decreases x,
{
    if x < 2 {
        lemma2_to64();
    } else {
        lemma_log2f_bounds(x / 2);
        lemma_pow2_unfold(log2f(x) + 1);
        lemma_pow2_unfold(log2f(x));
        lemma_fundamental_div_mod(x, 2);
    }
}

/// Exponentiation is monotone in the base (for nonnegative bases).
pub proof fn lemma_pow_base_le(b1: int, b2: int, e: nat)
    requires
        0 <= b1 <= b2,
    ensures
        0 <= pow(b1, e) <= pow(b2, e),
    decreases e,
{
    reveal(pow);
    if e > 0 {
        lemma_pow_base_le(b1, b2, (e - 1) as nat);
        lemma_mul_upper_bound(b1, b2, pow(b1, (e - 1) as nat), pow(b2, (e - 1) as nat));
        lemma_mul_nonnegative(b1, pow(b1, (e - 1) as nat));
    }
}

/// Scaling dividend and divisor by a common positive factor leaves the
/// quotient unchanged and scales the remainder.
pub proof fn lemma_div_mod_scaled(c: int, x: int, m: int)
    requires
        c > 0,
        m > 0,
        x >= 0,
    ensures
        (c * x) / (c * m) == x / m,
        (c * x) % (c * m) == c * (x % m),
{
    lemma_fundamental_div_mod(x, m);
    lemma_mod_bound(x, m);
    let q = x / m;
    let r = x % m;
    assert(c * x == q * (c * m) + c * r) by (nonlinear_arith)
        requires
            x == m * q + r,
    ;
    assert(c * r < c * m) by {
        lemma_mul_strict_inequality(r, m, c);
    }
    assert(c * r >= 0) by {
        lemma_mul_nonnegative(c, r);
    }
    lemma_mul_nonnegative(x / m, m);
    assert(q >= 0) by {
        lemma_div_pos_is_pos(x, m);
    }
    assert(c * m > 0) by {
        lemma_mul_strictly_positive(c, m);
    }
    lemma_fundamental_div_mod_converse(c * x, c * m, q, c * r);
}

/// A wrapping 64-bit add is addition modulo the fixed-point radix.
pub proof fn lemma_wrapping_add_is_mod(x: u64, y: u64, r: u64)
    requires
        r as int == if x + y > u64::MAX {
            x + y - 0x1_0000_0000_0000_0000
        } else {
            x + y
        },
    ensures
        r as int == (x + y) % two64(),
{
    let m = two64();
    if x + y <= u64::MAX {
        lemma_small_mod((x + y) as nat, m as nat);
    } else {
        lemma_fundamental_div_mod_converse(x + y, m, 1, x + y - m);
    }
}

/// A wrapping 64-bit subtract is subtraction modulo the fixed-point radix.
pub proof fn lemma_wrapping_sub_is_mod(x: u64, y: u64, r: u64)
    requires
        r as int == if x - y < 0 {
            x - y + 0x1_0000_0000_0000_0000
        } else {
            x - y
        },
    ensures
        r as int == (x - y) % two64(),
{
    let m = two64();
    if x >= y {
        lemma_small_mod((x - y) as nat, m as nat);
    } else {
        lemma_fundamental_div_mod_converse(x - y, m, -1, x - y + m);
    }
}

/// `2^e` as an executable `u64`.
pub fn pow2_u64(e: u32) -> (r: u64)
    requires
        e < 64,
    ensures
        r as int == pow2(e as nat),
{
    let mut r: u64 = 1;
    let mut t: u32 = 0;
    proof {
        lemma2_to64();
        lemma2_to64_rest();
    }
    while t < e
        invariant
            t <= e,
            e < 64,
            r as int == pow2(t as nat),
            r <= 0x8000_0000_0000_0000u64,
        decreases e - t,
    {
        proof {
            lemma_pow2_unfold(t as nat + 1);
            if (t + 1) < 63 {
                lemma_pow2_strictly_increases(t as nat + 1, 63);
            }
            lemma2_to64_rest();
            assert(pow2(t as nat + 1) <= pow2(63));
        }
        r = r * 2;
        t = t + 1;
    }
    r
}

/// Floor of the base-2 logarithm of a `u64`, executable form.
pub fn ilog2_u64(x: u64) -> (r: u32)
    requires
        x >= 1,
    ensures
        r as nat == log2f(x as int),
        r < 64,
{
    let mut v: u64 = x;
    let mut r: u32 = 0;
    proof {
        lemma_log2f_bounds(x as int);
        if log2f(x as int) >= 64 {
            lemma2_to64_rest();
            if log2f(x as int) > 64 {
                lemma_pow2_strictly_increases(64, log2f(x as int));
            }
            assert(pow2(64) <= pow2(log2f(x as int)));
            assert(false);
        }
    }
    while v >= 2
        invariant
            v >= 1,
            log2f(x as int) == r + log2f(v as int),
            log2f(x as int) <= 63,
        decreases v,
    {
        proof {
            assert(log2f(v as int) == 1 + log2f(v as int / 2));
        }
        v = v / 2;
        r = r + 1;
    }
    r
}

/// `b^e * den`, saturating: `None` exactly when the product exceeds `u128`.
pub fn pow_mul_u128(b: u64, e: u32, den: u64) -> (r: Option<u128>)
    requires
        b >= 2,
        den >= 1,
    ensures
        match r {
            Some(w) => w as int == pow(b as int, e as nat) * den,
            None => pow(b as int, e as nat) * den > u128::MAX,
        },
{
    let mut acc: u128 = den as u128;
    let mut t: u32 = 0;
    proof {
        vstd::arithmetic::power::lemma_pow0(b as int);
    }
    while t < e
        invariant
            t <= e,
            b >= 2,
            den >= 1,
            acc as int == pow(b as int, t as nat) * den,
            acc >= 1,
        decreases e - t,
    {
        proof {
            lemma_pow_positive(b as int, t as nat);
        }
        if acc > u128::MAX / (b as u128) {
            proof {
                // acc * b already exceeds u128::MAX, and the remaining
                // factors only increase the product.
                let bi = b as int;
                let full = pow(bi, e as nat) * den;
                let part = pow(bi, (t + 1) as nat) * den;
                assert(acc * bi > u128::MAX) by {
                    lemma_fundamental_div_mod(u128::MAX as int, bi);
                    assert(acc >= u128::MAX as int / bi + 1);
                    lemma_mul_inequality(u128::MAX as int / bi + 1, acc as int, bi);
                    assert((u128::MAX as int / bi + 1) * bi > u128::MAX) by (nonlinear_arith)
                        requires
                            bi >= 2,
                            u128::MAX as int == (u128::MAX as int / bi) * bi + u128::MAX as int % bi,
                            u128::MAX as int % bi < bi,
                    ;
                }
                assert(part == acc * bi) by {
                    lemma_pow_adds(bi, t as nat, 1);
                    vstd::arithmetic::power::lemma_pow1(bi);
                    assert(pow(bi, (t + 1) as nat) == pow(bi, t as nat) * bi);
                    assert(pow(bi, t as nat) * bi * den == pow(bi, t as nat) * den * bi)
                        by (nonlinear_arith);
                }
                assert(full >= part) by {
                    lemma_pow_adds(bi, (t + 1) as nat, (e - t - 1) as nat);
                    lemma_pow_positive(bi, (e - t - 1) as nat);
                    lemma_pow_positive(bi, (t + 1) as nat);
                    let rest = pow(bi, (e - t - 1) as nat);
                    assert(pow(bi, e as nat) == pow(bi, (t + 1) as nat) * rest);
                    assert(pow(bi, (t + 1) as nat) * rest * den >= pow(bi, (t + 1) as nat) * den)
                        by (nonlinear_arith)
                        requires
                            rest >= 1,
                            den >= 1,
                            pow(bi, (t + 1) as nat) >= 1,
                    ;
                }
            }
            return None;
        }
        proof {
            let bi = b as int;
            lemma_fundamental_div_mod(u128::MAX as int, bi);
            assert(acc * bi <= u128::MAX) by (nonlinear_arith)
                requires
                    bi >= 2,
                    acc <= u128::MAX as int / bi,
                    u128::MAX as int == (u128::MAX as int / bi) * bi + u128::MAX as int % bi,
                    u128::MAX as int % bi >= 0,
            ;
            lemma_pow_adds(bi, t as nat, 1);
            vstd::arithmetic::power::lemma_pow1(bi);
            assert(pow(bi, (t + 1) as nat) * den == pow(bi, t as nat) * den * bi)
                by (nonlinear_arith)
                requires
                    pow(bi, (t + 1) as nat) == pow(bi, t as nat) * bi,
            ;
            lemma_pow_positive(bi, (t + 1) as nat);
            lemma_mul_strictly_positive(pow(bi, (t + 1) as nat), den as int);
        }
        acc = acc * (b as u128);
        t = t + 1;
    }
    Some(acc)
}

} // verus!
