//! Divisor-invariant fast division and modular exponentiation.
//!
//! `Reciprocal` precomputes, for one nonzero 64-bit divisor, a normalized
//! divisor, a 64-bit reciprocal constant and a shift amount; `divide` then
//! performs exact 128-by-64-bit division with one wide multiply and at most
//! two correction branches in place of a hardware divide. The reciprocal
//! itself is also derived without a wide division: a 9-bit seed quotient is
//! refined through widening correction steps and finished by an exact
//! overshoot correction.

use vstd::prelude::*;
use vstd::arithmetic::div_mod::*;
use vstd::arithmetic::mul::*;
use vstd::arithmetic::power::pow;
use vstd::arithmetic::power::lemma_pow0;
use vstd::arithmetic::power::lemma_pow1;
use vstd::arithmetic::power::lemma_pow_adds;
use vstd::arithmetic::power::lemma_pow_mod_noop;
use vstd::arithmetic::power::lemma_pow_multiplies;
use vstd::arithmetic::power::lemma_pow_positive;
use vstd::arithmetic::power2::*;
use crate::arith::two64;
use crate::arith::lemma_two64_is_pow2;
use crate::arith::pow2_u64;

verus! {

/// Widening modular multiply: `(lhs * rhs) % modulus` through a 128-bit
/// intermediate product.
fn mod_mul_primitive(lhs: u64, rhs: u64, modulus: u64) -> (r: u64)
    requires
        modulus >= 1,
    ensures
        r as int == (lhs as int * rhs as int) % (modulus as int),
{
    proof {
        lemma_mul_upper_bound(lhs as int, u64::MAX as int, rhs as int, u64::MAX as int);
        lemma_mul_nonnegative(lhs as int, rhs as int);
        lemma_mod_bound(lhs as int * rhs as int, modulus as int);
    }
    let product: u128 = (lhs as u128) * (rhs as u128);
    (product % (modulus as u128)) as u64
}

/// Binary exponentiation `base^exponent % modulus` over the widening
/// multiply; a modulus of 0 or 1 short-circuits to 0.
pub fn mod_pow_primitive(base: u64, exponent: u64, modulus: u64) -> (r: u64)
    ensures
        modulus == 0 ==> r == 0,
        modulus >= 1 ==> r as int == pow(base as int, exponent as nat) % (modulus as int),
{
    if modulus <= 1 {
        proof {
            if modulus == 1 {
                crate::arith::lemma_pow_base_le(base as int, base as int, exponent as nat);
                lemma_mod_bound(pow(base as int, exponent as nat), 1);
            }
        }
        return 0;
    }
    let m = modulus;
    let mut result: u64 = 1;
    let mut b: u64 = base % m;
    let mut e: u64 = exponent;
    let ghost goal = pow(base as int, exponent as nat) % (m as int);
    proof {
        lemma_pow0(base as int);
        lemma_pow_mod_noop(base as int, exponent as nat, m as int);
        lemma_mod_bound(base as int, m as int);
    }
    while e > 0
        invariant
            m >= 2,
            result < m,
            b < m,
            (result as int * pow(b as int, e as nat)) % (m as int) == goal,
        decreases e,
    {
        let ghost mi = m as int;
        let ghost bi = b as int;
        let ghost ri = result as int;
        let ghost ei = e as nat;
        if e % 2 == 1 {
            result = mod_mul_primitive(result, b, m);
            proof {
                // result' * b^(e-1) keeps the running product, modulo m.
                lemma_mod_bound(ri * bi, mi);
                lemma_pow_adds(bi, 1, (ei - 1) as nat);
                lemma_pow1(bi);
                lemma_mul_mod_noop_left(ri * bi, pow(bi, (ei - 1) as nat), mi);
                assert(ri * bi * pow(bi, (ei - 1) as nat) == ri * (bi * pow(bi, (ei - 1) as nat)))
                    by (nonlinear_arith);
            }
        }
        e = e / 2;
        proof {
            // Squaring the base halves the exponent: b^(2e') == (b^2)^e'.
            let e2 = e as nat;
            lemma_mod_bound(bi * bi, mi);
            lemma_pow_mod_noop(bi * bi, e2, mi);
            lemma_pow_multiplies(bi, 2, e2);
            lemma_pow_adds(bi, 1, 1);
            lemma_pow1(bi);
            assert(pow(bi, 2) == bi * bi);
            lemma_mul_mod_noop_right(result as int, pow((bi * bi) % mi, e2), mi);
            lemma_mul_mod_noop_right(result as int, pow(bi * bi, e2), mi);
        }
        if e > 0 {
            b = mod_mul_primitive(b, b, m);
        }
    }
    proof {
        lemma_pow0(b as int);
        lemma_small_mod(result as nat, m as nat);
    }
    result
}

/// Precomputed constants for exact division by one nonzero 64-bit divisor.
pub struct Reciprocal {
    divisor: u64,
    reciprocal: u64,
    shift: u32,
}

impl Reciprocal {
    /// The normalized divisor (top bit set).
    pub closed spec fn norm(self) -> int {
        self.divisor as int
    }

    /// The normalization shift amount.
    pub closed spec fn shift_amt(self) -> nat {
        self.shift as nat
    }

    /// The divisor this value was built from.
    pub open spec fn divisor_of(self) -> int {
        self.norm() / pow2(self.shift_amt()) as int
    }

    /// Invariant: the normalized divisor has its top bit set, is the
    /// original divisor scaled by `2^shift`, and the reciprocal is
    /// `floor((2^128 - 1) / norm) - 2^64`.
    pub closed spec fn wf(self) -> bool {
        &&& self.shift < 64
        &&& pow2(63) <= self.divisor as nat
        &&& self.norm() % pow2(self.shift_amt()) as int == 0
        &&& self.reciprocal as int == (pow2(128) - 1) as int / self.norm() - pow2(64)
    }

    pub proof fn lemma_divisor_of_bounds(self)
        requires
            self.wf(),
        ensures
            1 <= self.divisor_of() <= u64::MAX,
            self.norm() == self.divisor_of() * pow2(self.shift_amt()),
            pow2(self.shift_amt()) <= self.norm() <= u64::MAX,
    {
        let p = pow2(self.shift_amt()) as int;
        lemma_pow2_pos(self.shift_amt());
        lemma_fundamental_div_mod(self.norm(), p);
        lemma2_to64_rest();
        if self.shift_amt() < 63 {
            lemma_pow2_strictly_increases(self.shift_amt(), 63);
        }
        assert(p <= pow2(63));
        assert(self.norm() >= p);
        lemma_div_non_zero(self.norm(), p);
        lemma_multiply_divide_le(self.norm(), p, u64::MAX as int);
        assert(p * u64::MAX >= self.norm()) by (nonlinear_arith)
            requires
                p >= 1,
                self.norm() <= u64::MAX,
        ;
    }

    /// Build the divider: normalize the divisor so its top bit is set and
    /// derive the 64-bit reciprocal of the normalized divisor, division-free
    /// but for the small seed quotient.
    pub fn new(divisor: u64) -> (r: Self)
        requires
            divisor >= 1,
        ensures
            r.wf(),
            r.divisor_of() == divisor,
    {
        let mut norm: u64 = divisor;
        let mut shift: u32 = 0;
        proof {
            lemma_pow2_pos(0);
            lemma2_to64();
            lemma_pow1(2);
        }
        while norm < 0x8000_0000_0000_0000u64
            invariant
                divisor >= 1,
                shift < 64,
                norm as int == divisor as int * pow2(shift as nat),
            decreases 64 - shift,
        {
            proof {
                lemma_pow2_pos(shift as nat);
                if shift == 63 {
                    lemma2_to64_rest();
                    assert(divisor as int * pow2(63) >= pow2(63)) by (nonlinear_arith)
                        requires
                            divisor >= 1,
                            pow2(63) >= 1,
                    ;
                    assert(false);
                }
                lemma_pow2_unfold(shift as nat + 1);
                assert(divisor as int * pow2(shift as nat + 1) == divisor as int * pow2(
                    shift as nat,
                ) * 2) by (nonlinear_arith)
                    requires
                        pow2(shift as nat + 1) == 2 * pow2(shift as nat),
                ;
            }
            norm = norm * 2;
            shift = shift + 1;
        }
        proof {
            lemma_two64_is_pow2();
            lemma2_to64_rest();
            // the original divisor is recovered by the shift
            lemma_pow2_pos(shift as nat);
            lemma_mod_multiples_basic(divisor as int, pow2(shift as nat) as int);
            lemma_div_by_multiple(divisor as int, pow2(shift as nat) as int);
        }
        let d: u64 = norm;
        // Branch-light reciprocal derivation: a low-precision quotient from
        // the top 9 bits, refined through widening correction steps
        // (9 -> 19 -> 33/40 -> 64 bits). The shifts of the classical
        // presentation are written as multiplications and divisions by fixed
        // powers of two; the wraparound of the intermediate steps is part of
        // the algorithm.
        let lsb_1: u64 = d % 2;
        let msb_9: u64 = d / 0x80_0000_0000_0000; // top 9 bits
        let msb_40: u64 = d / 0x100_0000 + 1; // top 40 bits, rounded up
        let msb_63: u64 = (d - 1) / 2 + 1; // ceil(d / 2)
        let r0: u64 = (0x80000 - 0x300) / msb_9; // seed: (2^19 - 3*2^8) / d9
        let r1: u64 = r0.wrapping_mul(0x800).wrapping_sub(
            r0.wrapping_mul(r0).wrapping_mul(msb_40) / 0x100_0000_0000,
        ).wrapping_sub(1);
        let r2: u64 = r1.wrapping_mul(0x2000).wrapping_add(
            r1.wrapping_mul(0x1000_0000_0000_0000u64.wrapping_sub(r1.wrapping_mul(msb_40)))
                / 0x8000_0000_0000,
        );
        proof {
            assert((r2 / 2) as int * lsb_1 as int <= u64::MAX as int) by (nonlinear_arith)
                requires
                    lsb_1 <= 1,
                    r2 / 2 <= u64::MAX,
            ;
            assert((r2 as int) * (msb_63 as int) <= u128::MAX as int) by (nonlinear_arith)
                requires
                    r2 <= 0xffff_ffff_ffff_ffffu64 as int,
                    msb_63 <= 0xffff_ffff_ffff_ffffu64 as int,
                    u128::MAX as int == 0xffff_ffff_ffff_ffff_ffff_ffff_ffff_ffffu128 as int,
            ;
        }
        // 96-bit error term, then the step to full 64-bit precision
        let err: u128 = 0x1_0000_0000_0000_0000_0000_0000u128.wrapping_sub(
            (r2 as u128) * (msb_63 as u128),
        ).wrapping_add(((r2 / 2) * lsb_1) as u128);
        let r3: u64 = r2.wrapping_mul(0x8000_0000).wrapping_add(
            (err.wrapping_mul(r2 as u128) / 0x2_0000_0000_0000_0000u128) as u64,
        );
        let t: u128 = ((r3 as u128) + 0x1_0000_0000_0000_0000u128 + 1).wrapping_mul(d as u128);
        let mut rec: u64 = r3.wrapping_sub((t / 0x1_0000_0000_0000_0000u128) as u64);

        // Final overshoot correction, made exact: the reciprocal must be
        // floor((2^128 - 1) / d) - 2^64, i.e. rec*d must land in
        // [t1 - d + 1, t1] for t1 = (2^128 - 1) - 2^64*d. Only comparisons
        // and additions or subtractions of d are needed, never a wide
        // divide; with the refinement above the candidate is already there
        // or one step away.
        let t1: u128 = (0x1_0000_0000_0000_0000u128 - d as u128) * 0x1_0000_0000_0000_0000u128
            - 1;
        proof {
            assert((0x1_0000_0000_0000_0000u128 - d as u128) as int * 0x1_0000_0000_0000_0000
                <= u128::MAX as int) by (nonlinear_arith)
                requires
                    (0x1_0000_0000_0000_0000u128 - d as u128) as int <= 0x8000_0000_0000_0000,
                    u128::MAX as int == 0xffff_ffff_ffff_ffff_ffff_ffff_ffff_ffffu128 as int,
            ;
            assert((rec as int) * (d as int) <= u128::MAX as int) by (nonlinear_arith)
                requires
                    rec <= 0xffff_ffff_ffff_ffffu64 as int,
                    d <= 0xffff_ffff_ffff_ffffu64 as int,
                    u128::MAX as int == 0xffff_ffff_ffff_ffff_ffff_ffff_ffff_ffffu128 as int,
            ;
            lemma_mul_nonnegative(rec as int, d as int);
        }
        let mut p: u128 = (rec as u128) * (d as u128);
        while p > t1
            invariant
                d >= 0x8000_0000_0000_0000u64,
                t1 as int == (0x1_0000_0000_0000_0000 - d as int) * 0x1_0000_0000_0000_0000 - 1,
                p as int == rec as int * d as int,
            decreases rec,
        {
            proof {
                assert(rec >= 1 && p >= d) by (nonlinear_arith)
                    requires
                        p as int == rec as int * d as int,
                        p > t1,
                        t1 >= 0,
                        d >= 1,
                        rec >= 0,
                ;
                assert((rec - 1) as int * d as int == rec as int * d as int - d as int)
                    by (nonlinear_arith);
            }
            rec = rec - 1;
            p = p - d as u128;
        }
        while t1 - p >= d as u128
            invariant
                d >= 0x8000_0000_0000_0000u64,
                t1 as int == (0x1_0000_0000_0000_0000 - d as int) * 0x1_0000_0000_0000_0000 - 1,
                p as int == rec as int * d as int,
                p <= t1,
            decreases t1 - p,
        {
            proof {
                assert(rec as int + 1 <= u64::MAX as int) by (nonlinear_arith)
                    requires
                        p as int == rec as int * d as int,
                        p as int + d as int <= t1 as int,
                        t1 as int <= 0x8000_0000_0000_0000 * 0x1_0000_0000_0000_0000 - 1,
                        d >= 0x8000_0000_0000_0000u64 as int,
                        rec >= 0,
                ;
                assert((rec + 1) as int * d as int == rec as int * d as int + d as int)
                    by (nonlinear_arith);
            }
            rec = rec + 1;
            p = p + d as u128;
        }
        proof {
            // 2^128 - 1 == (2^64 + rec)*d + (t1 - p) with the remainder in
            // [0, d), so rec is exactly floor((2^128 - 1)/d) - 2^64.
            let bb: int = 0x1_0000_0000_0000_0000;
            let di = d as int;
            assert(bb * bb - 1 == bb * di + t1 as int) by (nonlinear_arith)
                requires
                    t1 as int == (bb - di) * bb - 1,
            ;
            assert((bb + rec as int) * di == bb * di + rec as int * di) by (nonlinear_arith);
            lemma_fundamental_div_mod_converse(
                bb * bb - 1,
                di,
                bb + rec as int,
                t1 as int - p as int,
            );
            assert((pow2(128) - 1) as int / d as int == bb + rec as int);
        }
        Reciprocal { divisor: norm, reciprocal: rec, shift }
    }

    /// Core 128-by-64 division by the normalized divisor: one wide multiply
    /// by the reciprocal, then at most two correction branches.
    fn divide_impl(&self, dividend: u128) -> (r: (u64, u64))
        requires
            self.wf(),
            (dividend as int) < self.norm() * two64(),
        ensures
            r.0 as int == dividend as int / self.norm(),
            r.1 as int == dividend as int % self.norm(),
    {
        proof {
            lemma_two64_is_pow2();
            lemma2_to64_rest();
        }
        let ghost bb = two64();
        let ghost nn = self.norm();
        let ghost du = dividend as int;
        let ghost vv = self.reciprocal as int;

        let d: u64 = self.divisor;
        let v: u64 = self.reciprocal;
        let u0: u64 = (dividend % 0x1_0000_0000_0000_0000u128) as u64;
        let u1: u64 = (dividend / 0x1_0000_0000_0000_0000u128) as u64;

        proof {
            lemma_mod_bound(du, bb);
            // u1 <= nn - 1 since dividend < nn * 2^64
            lemma_multiply_divide_lt(du, bb, nn);
            assert(bb * nn == nn * bb) by (nonlinear_arith);
        }
        let ghost e = (bb * bb - 1) - (bb + vv) * nn;
        proof {
            // e is the remainder of (2^128 - 1) by nn: 0 <= e < nn.
            lemma_fundamental_div_mod(bb * bb - 1, nn);
            lemma_mod_bound(bb * bb - 1, nn);
            assert((bb * bb - 1) / nn == bb + vv);
            assert(nn * ((bb * bb - 1) / nn) == (bb + vv) * nn) by (nonlinear_arith)
                requires
                    (bb * bb - 1) / nn == bb + vv,
            ;
            // no overflow in u1 * v + dividend
            assert(u1 as int * vv + du < bb * bb) by (nonlinear_arith)
                requires
                    u1 as int <= nn - 1,
                    0 <= vv < bb,
                    du < nn * bb,
                    0 <= e,
                    (bb + vv) * nn == bb * bb - 1 - e,
            ;
            lemma_mul_nonnegative(u1 as int, vv);
        }
        let q: u128 = (u1 as u128) * (v as u128) + dividend;
        let q0: u64 = (q % 0x1_0000_0000_0000_0000u128) as u64;
        let q1: u64 = (q / 0x1_0000_0000_0000_0000u128) as u64;

        let ghost qi = q as int;
        let ghost bigq = qi / bb + 1;
        let ghost rstar = du - bigq * nn;

        proof {
            lemma_mod_bound(qi, bb);
            lemma_multiply_divide_lt(qi, bb, bb);
            lemma_fundamental_div_mod(qi, bb);
            lemma_fundamental_div_mod(du, bb);
            // The master identity relating the provisional remainder to the
            // low quotient word:
            //   bb * rstar == u0*(bb - nn) + u1*(1 + e) + nn*q0 - nn*bb
            assert(bb * rstar == u0 as int * (bb - nn) + u1 as int * (1 + e) + nn * q0 as int - nn
                * bb) by (nonlinear_arith)
                requires
                    rstar == du - ((qi / bb) + 1) * nn,
                    qi == u1 as int * vv + du,
                    qi == bb * (qi / bb) + q0,
                    q0 == qi % bb,
                    du == bb * (du / bb) + u0,
                    u0 == du % bb,
                    u1 as int == du / bb,
                    (bb + vv) * nn == bb * bb - 1 - e,
                    bb > 0,
            ;
            // Range of rstar: -nn <= rstar < bb.
            assert(bb * rstar >= -(nn * bb)) by (nonlinear_arith)
                requires
                    bb * rstar == u0 as int * (bb - nn) + u1 as int * (1 + e) + nn * q0 as int - nn
                        * bb,
                    0 <= u0 as int,
                    0 <= u1 as int,
                    0 <= e,
                    0 <= q0 as int,
                    0 < nn <= bb,
                    0 < bb,
            ;
            assert(rstar >= -nn) by (nonlinear_arith)
                requires
                    bb * rstar >= -(nn * bb),
                    bb > 0,
            ;
            assert(bb * rstar < bb * bb) by (nonlinear_arith)
                requires
                    bb * rstar == u0 as int * (bb - nn) + u1 as int * (1 + e) + nn * q0 as int - nn
                        * bb,
                    u0 as int <= bb - 1,
                    u1 as int <= nn - 1,
                    e <= nn - 1,
                    q0 as int <= bb - 1,
                    0 < nn <= bb,
            ;
            assert(rstar < bb) by (nonlinear_arith)
                requires
                    bb * rstar < bb * bb,
                    bb > 0,
            ;
        }

        let mut quotient: u64 = q1.wrapping_add(1);
        let mut remainder: u64 = u0.wrapping_sub(quotient.wrapping_mul(d));

        proof {
            // quotient == bigq % bb and remainder == rstar % bb.
            assert(quotient as int == bigq % bb) by {
                if q1 as int + 1 == bb {
                    lemma_mod_self_0(bb);
                } else {
                    lemma_small_mod((q1 + 1) as nat, bb as nat);
                }
            }
            assert(remainder as int == rstar % bb) by {
                let w = quotient as int;
                assert(quotient.wrapping_mul(d) as int == (w * nn) % bb);
                lemma_mul_mod_noop_left(bigq, nn, bb);
                assert((bigq % bb) * nn % bb == (bigq * nn) % bb);
                assert(remainder as int == (u0 as int - (bigq * nn) % bb) % bb);
                lemma_sub_mod_noop_right(u0 as int, bigq * nn, bb);
                assert((u0 as int - bigq * nn) % bb == rstar % bb) by {
                    assert(du % bb == u0 as int % bb) by {
                        lemma_small_mod(u0 as nat, bb as nat);
                    }
                    lemma_sub_mod_noop(du, bigq * nn, bb);
                    lemma_sub_mod_noop(u0 as int, bigq * nn, bb);
                }
            }
        }

        if remainder > q0 {
            proof {
                if rstar >= 0 {
                    // The condition can fire with rstar >= 0 only below
                    // bb - nn; at or above that point the identity forbids it.
                    lemma_small_mod(rstar as nat, bb as nat);
                    assert(remainder as int == rstar);
                    if rstar >= bb - nn {
                        // nn*q0 <= nn*(rstar - 1), then the identity bounds
                        // (bb - nn)*rstar below (bb-1)*(bb-nn) + nn*nn - 2*nn
                        // - nn*bb, contradicting rstar >= bb - nn.
                        lemma_mul_inequality(q0 as int, rstar - 1, nn);
                        lemma_mul_inequality(u0 as int, bb - 1, bb - nn);
                        lemma_mul_upper_bound(u1 as int, nn - 1, 1 + e, nn);
                        lemma_mul_inequality(bb - nn, rstar, bb - nn);
                        assert(false) by (nonlinear_arith)
                            requires
                                bb * rstar == u0 as int * (bb - nn) + u1 as int * (1 + e) + nn
                                    * q0 as int - nn * bb,
                                q0 as int * nn <= (rstar - 1) * nn,
                                u0 as int * (bb - nn) <= (bb - 1) * (bb - nn),
                                u1 as int * (1 + e) <= (nn - 1) * nn,
                                (bb - nn) * (bb - nn) <= (bb - nn) * rstar,
                                0 < nn < bb,
                        ;
                    }
                    assert(rstar + nn < bb);
                } else {
                    assert(remainder as int == rstar + bb) by {
                        lemma_mod_equivalence(rstar, rstar + bb, bb);
                        lemma_small_mod((rstar + bb) as nat, bb as nat);
                    }
                }
            }
            quotient = quotient.wrapping_sub(1);
            remainder = remainder.wrapping_add(d);
            proof {
                // either way the remainder lands on rstar + nn
                assert(remainder as int == rstar + nn);
                assert(quotient as int == (bigq - 1) % bb) by {
                    lemma_sub_mod_noop(bigq, 1, bb);
                    lemma_mod_twice(bigq, bb);
                    lemma_mod_twice(bigq - 1, bb);
                    lemma_small_mod(1nat, bb as nat);
                }
                assert(rstar < bb - nn);
            }
        } else {
            proof {
                // No fire: rstar cannot be negative, for then the identity
                // would have made the condition fire.
                if rstar < 0 {
                    lemma_mod_equivalence(rstar, rstar + bb, bb);
                    lemma_small_mod((rstar + bb) as nat, bb as nat);
                    assert(remainder as int == rstar + bb);
                    let rw = rstar + bb;
                    assert(nn * (rw - q0 as int) == (bb - nn) * (u0 as int - rstar) + u1 as int * (
                    1 + e)) by (nonlinear_arith)
                        requires
                            bb * rstar == u0 as int * (bb - nn) + u1 as int * (1 + e) + nn
                                * q0 as int - nn * bb,
                            rw == rstar + bb,
                    ;
                    assert(nn * (rw - q0 as int) > 0) by (nonlinear_arith)
                        requires
                            nn * (rw - q0 as int) == (bb - nn) * (u0 as int - rstar) + u1 as int * (
                            1 + e),
                            0 <= u0 as int,
                            0 <= u1 as int,
                            0 <= e,
                            rstar < 0,
                            nn < bb,
                    ;
                    assert(rw > q0 as int) by (nonlinear_arith)
                        requires
                            nn * (rw - q0 as int) > 0,
                            nn > 0,
                    ;
                    assert(false);
                }
                lemma_small_mod(rstar as nat, bb as nat);
                assert(remainder as int == rstar);
            }
        }

        proof {
            // After the first correction, exactly one of two shapes holds.
            assert((quotient as int == (bigq - 1) % bb && remainder as int == rstar + nn && -nn
                <= rstar < bb - nn) || (quotient as int == bigq % bb && remainder as int == rstar
                && 0 <= rstar < bb));
            // bigq and its neighbours stay in range of the true quotient
            lemma_div_pos_is_pos(du, nn);
            lemma_multiply_divide_lt(du, nn, bb);
        }

        if remainder >= d {
            proof {
                if quotient as int == (bigq - 1) % bb && remainder as int == rstar + nn {
                    // fired before, so rstar >= 0 here: the true quotient is
                    // bigq and the true remainder rstar.
                    assert(0 <= rstar < bb - nn);
                    assert(du == bigq * nn + rstar) by (nonlinear_arith)
                        requires
                            rstar == du - bigq * nn,
                    ;
                    lemma_fundamental_div_mod_converse(du, nn, bigq, rstar);
                    lemma_small_mod(bigq as nat, bb as nat);
                } else {
                    // no earlier fire: remainder == rstar >= nn, one more
                    // divisor fits.
                    assert(remainder as int == rstar && rstar >= nn);
                    assert(du == (bigq + 1) * nn + (rstar - nn)) by (nonlinear_arith)
                        requires
                            rstar == du - bigq * nn,
                    ;
                    lemma_fundamental_div_mod_converse(du, nn, bigq + 1, rstar - nn);
                    lemma_small_mod((bigq + 1) as nat, bb as nat);
                }
            }
            quotient = quotient.wrapping_add(1);
            remainder = remainder - d;
            proof {
                assert(quotient as int == bigq % bb || quotient as int == (bigq + 1) % bb);
                // ((x - 1) % bb + 1) % bb == x % bb and ((x) % bb + 1) % bb == (x + 1) % bb
                lemma_add_mod_noop(bigq - 1, 1, bb);
                lemma_add_mod_noop(bigq, 1, bb);
                lemma_mod_twice(bigq - 1, bb);
                lemma_mod_twice(bigq, bb);
                lemma_small_mod(1nat, bb as nat);
                lemma_mod_twice(bigq + 1, bb);
                if du / nn == bigq {
                    lemma_small_mod(bigq as nat, bb as nat);
                } else {
                    lemma_small_mod((bigq + 1) as nat, bb as nat);
                }
            }
        } else {
            proof {
                if quotient as int == (bigq - 1) % bb && remainder as int == rstar + nn && rstar
                    < bb - nn {
                    // remainder below the divisor: rstar was negative, and
                    // bigq - 1 is the true quotient.
                    assert(-nn <= rstar < 0);
                    assert(du == (bigq - 1) * nn + (rstar + nn)) by (nonlinear_arith)
                        requires
                            rstar == du - bigq * nn,
                    ;
                    lemma_fundamental_div_mod_converse(du, nn, bigq - 1, rstar + nn);
                    lemma_small_mod((bigq - 1) as nat, bb as nat);
                } else {
                    assert(remainder as int == rstar && 0 <= rstar < nn);
                    assert(du == bigq * nn + rstar) by (nonlinear_arith)
                        requires
                            rstar == du - bigq * nn,
                    ;
                    lemma_fundamental_div_mod_converse(du, nn, bigq, rstar);
                    lemma_small_mod(bigq as nat, bb as nat);
                }
            }
        }
        (quotient, remainder)

    }

    /// Exact division of a 128-bit dividend by the original divisor,
    /// returning quotient and remainder; the quotient must fit in 64 bits.
    pub fn divide(&self, dividend: u128) -> (r: (u64, u64))
        requires
            self.wf(),
            (dividend as int) < self.divisor_of() * two64(),
        ensures
            r.0 as int == dividend as int / self.divisor_of(),
            r.1 as int == dividend as int % self.divisor_of(),
    {
        proof {
            self.lemma_divisor_of_bounds();
            lemma_two64_is_pow2();
            lemma_pow2_pos(self.shift_amt());
        }
        let p: u64 = pow2_u64(self.shift);
        let ghost pi = pow2(self.shift_amt()) as int;
        let ghost dd = self.divisor_of();
        proof {
            // dividend * 2^shift < norm * 2^64 <= 2^128
            assert(dividend as int * pi < self.norm() * two64()) by (nonlinear_arith)
                requires
                    (dividend as int) < dd * two64(),
                    self.norm() == dd * pi,
                    pi >= 1,
                    dd >= 1,
                    two64() > 0,
            ;
            assert(self.norm() * two64() <= (pow2(64) - 1) * pow2(64)) by {
                lemma_mul_inequality(self.norm(), pow2(64) - 1, two64());
                lemma2_to64_rest();
            }
            assert((pow2(64) - 1) * pow2(64) < pow2(128)) by (nonlinear_arith)
                requires
                    pow2(128) == pow2(64) * pow2(64),
                    pow2(64) > 0,
            ;
            lemma_pow2_adds(64, 64);
            lemma_mul_nonnegative(dividend as int, pi);
        }
        let shifted: u128 = dividend * (p as u128);
        let (q, r) = self.divide_impl(shifted);
        proof {
            crate::arith::lemma_div_mod_scaled(pi, dividend as int, dd);
            assert(pi * dividend as int == dividend as int * pi) by (nonlinear_arith);
            assert(pi * dd == dd * pi) by (nonlinear_arith);
            // remainder of the scaled division is the true remainder scaled
            lemma_mod_bound(dividend as int, dd);
            lemma_div_multiples_vanish(dividend as int % dd, pi);
            assert(pi * (dividend as int % dd) == (dividend as int % dd) * pi)
                by (nonlinear_arith);
        }
        let rem = r / p;
        (q, rem)
    }

    /// `(a * b) % divisor` through one wide multiply and `divide`.
    pub fn mod_mul(&self, a: u64, b: u64) -> (r: u64)
        requires
            self.wf(),
            (a as int * b as int) < self.divisor_of() * two64(),
        ensures
            r as int == (a as int * b as int) % self.divisor_of(),
    {
        proof {
            lemma_mul_nonnegative(a as int, b as int);
            lemma_mul_upper_bound(a as int, u64::MAX as int, b as int, u64::MAX as int);
            lemma_two64_is_pow2();
            lemma2_to64_rest();
            assert((u64::MAX as int) * (u64::MAX as int) < pow2(64) * pow2(64))
                by (nonlinear_arith)
                requires
                    (u64::MAX as int) < pow2(64),
                    pow2(64) > 0,
            ;
            lemma_pow2_adds(64, 64);
        }
        let product: u128 = (a as u128) * (b as u128);
        self.divide(product).1
    }

    /// `init * base^exponent % divisor` by square-and-multiply in the
    /// shifted representation, every reduction through `divide_impl`.
    pub fn mod_pow_init(&self, init: u64, base: u64, exponent: u64) -> (r: u64)
        requires
            self.wf(),
            base < 0x8000_0000_0000_0000u64,
        ensures
            r as int == (init as int * pow(base as int, exponent as nat)) % self.divisor_of(),
    {
        proof {
            self.lemma_divisor_of_bounds();
            lemma_two64_is_pow2();
            lemma2_to64_rest();
            lemma_pow2_pos(self.shift_amt());
        }
        let ghost nn = self.norm();
        let ghost dd = self.divisor_of();
        let ghost pi = pow2(self.shift_amt()) as int;
        let p: u64 = pow2_u64(self.shift);

        // reduce the initial value into the shifted representation
        proof {
            assert(init as int * pi < nn * two64()) by (nonlinear_arith)
                requires
                    (init as int) < two64(),
                    pi <= nn,
                    pi >= 1,
                    nn >= 1,
                    two64() > 0,
            ;
            assert(nn * two64() <= u128::MAX as int) by (nonlinear_arith)
                requires
                    nn <= 0xffff_ffff_ffff_ffffu64 as int,
                    two64() == 0x1_0000_0000_0000_0000,
                    u128::MAX as int == 0xffff_ffff_ffff_ffff_ffff_ffff_ffff_ffffu128 as int,
            ;
            lemma_mul_nonnegative(init as int, pi);
            crate::arith::lemma_div_mod_scaled(pi, init as int, dd);
            assert(pi * init as int == init as int * pi) by (nonlinear_arith);
            assert(pi * dd == dd * pi) by (nonlinear_arith);
            lemma_mod_bound(init as int, dd);
            assert(pi * (init as int % dd) == (init as int % dd) * pi) by (nonlinear_arith);
        }
        let init_shifted: u128 = (init as u128) * (p as u128);
        let mut result: u64 = self.divide_impl(init_shifted).1;
        let ghost rr0 = init as int % dd;
        proof {
            assert(result as int == rr0 * pi);
            lemma_mod_multiples_basic(rr0, pi);
            assert(rr0 * pi % pi == 0);
            lemma_div_by_multiple(rr0, pi);
            assert(rr0 * pi / pi == rr0);
            assert(result as int <= nn - pi) by (nonlinear_arith)
                requires
                    result as int == rr0 * pi,
                    rr0 <= dd - 1,
                    nn == dd * pi,
                    pi >= 1,
            ;
        }

        let mut b: u64 = base;
        let mut e: u64 = exponent;
        let ghost goal = (init as int * pow(base as int, exponent as nat)) % dd;
        proof {
            lemma_mul_mod_noop_left(init as int, pow(base as int, exponent as nat), dd);
            lemma_mod_bound(init as int, dd);
        }

        while e > 0
            invariant
                self.wf(),
                nn == self.norm(),
                dd == self.divisor_of(),
                pi == pow2(self.shift_amt()) as int,
                result as int % pi == 0,
                (result as int) / pi < dd,
                result as int <= nn - pi,
                (b as int) < nn || (b as int) < 0x8000_0000_0000_0000u64 as int,
                ((result as int / pi) * pow(b as int, e as nat)) % dd == goal,
            decreases e,
        {
            proof {
                self.lemma_divisor_of_bounds();
                lemma2_to64_rest();
            }
            let ghost bi = b as int;
            let ghost ri = result as int / pi;
            let ghost ei = e as nat;
            if e % 2 == 1 {
                let ghost res0 = result as int;
                proof {
                    // result * b stays below norm * 2^64
                    assert(res0 * bi < nn * two64()) by (nonlinear_arith)
                        requires
                            res0 <= nn - pi,
                            0 <= bi < two64(),
                            pi >= 1,
                            nn >= 1,
                            two64() > 0,
                    ;
                    assert(nn * two64() <= u128::MAX as int) by (nonlinear_arith)
                        requires
                            nn <= 0xffff_ffff_ffff_ffffu64 as int,
                            two64() == 0x1_0000_0000_0000_0000,
                            u128::MAX as int == 0xffff_ffff_ffff_ffff_ffff_ffff_ffff_ffffu128
                                as int,
                    ;
                    lemma_mul_nonnegative(res0, bi);
                    lemma_fundamental_div_mod(res0, pi);
                    assert(res0 == ri * pi) by (nonlinear_arith)
                        requires
                            res0 == pi * (res0 / pi) + res0 % pi,
                            res0 % pi == 0,
                            ri == res0 / pi,
                    ;
                }
                let prod: u128 = (result as u128) * (b as u128);
                result = self.divide_impl(prod).1;
                proof {
                    // (ri*pi * b) mod (dd*pi) == ((ri*b) mod dd) * pi
                    lemma_mul_nonnegative(ri, bi);
                    crate::arith::lemma_div_mod_scaled(pi, ri * bi, dd);
                    assert(prod as int == pi * (ri * bi)) by (nonlinear_arith)
                        requires
                            prod as int == (ri * pi) * bi,
                    ;
                    assert(pi * dd == dd * pi) by (nonlinear_arith);
                    assert(result as int == pi * ((ri * bi) % dd)) by {
                        assert(prod as int % (dd * pi) == result as int);
                    }
                    assert(result as int == ((ri * bi) % dd) * pi) by (nonlinear_arith)
                        requires
                            result as int == pi * ((ri * bi) % dd),
                    ;
                    lemma_mod_bound(ri * bi, dd);
                    lemma_mod_multiples_basic((ri * bi) % dd, pi);
                    lemma_div_by_multiple((ri * bi) % dd, pi);
                    assert(result as int <= nn - pi) by (nonlinear_arith)
                        requires
                            result as int == ((ri * bi) % dd) * pi,
                            (ri * bi) % dd <= dd - 1,
                            nn == dd * pi,
                            pi >= 1,
                    ;
                    // invariant: fold one factor of b into the accumulator
                    let rb = (ri * bi) % dd;
                    lemma_mul_mod_noop_left(ri * bi, pow(bi, (ei - 1) as nat), dd);
                    lemma_pow_adds(bi, 1, (ei - 1) as nat);
                    lemma_pow1(bi);
                    assert(ri * bi * pow(bi, (ei - 1) as nat) == ri * (bi * pow(
                        bi,
                        (ei - 1) as nat,
                    ))) by (nonlinear_arith);
                    lemma_mul_mod_noop_left(rb, pow(bi, (ei - 1) as nat), dd);
                }
            }
            e = e / 2;
            proof {
                // squaring the base: b^(2e') == (b^2)^e' modulo dd
                let e2 = e as nat;
                let ghost rcur = result as int / pi;
                lemma_mod_bound(bi * bi, dd);
                lemma_pow_mod_noop(bi * bi, e2, dd);
                lemma_pow_multiplies(bi, 2, e2);
                lemma_pow_adds(bi, 1, 1);
                lemma_pow1(bi);
                assert(pow(bi, 2) == bi * bi);
                lemma_mul_mod_noop_right(rcur, pow((bi * bi) % dd, e2), dd);
                lemma_mul_mod_noop_right(rcur, pow(bi * bi, e2), dd);
            }
            if e > 0 {
                proof {
                    assert((b as int * b as int) < nn * two64()) by (nonlinear_arith)
                        requires
                            (b as int) < nn || (b as int) < 0x8000_0000_0000_0000u64 as int,
                            0 <= b as int,
                            pow2(63) <= nn <= two64() - 1,
                            two64() == 0x1_0000_0000_0000_0000,
                            pow2(63) == 0x8000_0000_0000_0000,
                    ;
                    lemma_mul_nonnegative(b as int, b as int);
                }
                let sq: u128 = (b as u128) * (b as u128);
                let bsq = self.divide_impl(sq).1;
                proof {
                    // the new base is congruent to b^2 modulo dd
                    let ghost rcur = result as int / pi;
                    lemma_mod_bound(bi * bi, nn);
                    assert(bsq as int == (bi * bi) % nn);
                    // norm is a multiple of dd, so reduction mod norm
                    // preserves the residue mod dd
                    lemma_fundamental_div_mod(bi * bi, nn);
                    let kq = (bi * bi) / nn;
                    assert(bi * bi == kq * (pi * dd) + bsq as int) by (nonlinear_arith)
                        requires
                            bi * bi == nn * kq + bsq as int,
                            nn == dd * pi,
                    ;
                    assert((bi * bi) % dd == bsq as int % dd) by {
                        lemma_mod_multiples_vanish(kq * pi, bsq as int, dd);
                        assert(kq * (pi * dd) + bsq as int == (kq * pi) * dd + bsq as int)
                            by (nonlinear_arith);
                    }
                    lemma_pow_mod_noop(bsq as int, e as nat, dd);
                    lemma_pow_mod_noop(bi * bi, e as nat, dd);
                    lemma_mul_mod_noop_right(rcur, pow(bsq as int, e as nat), dd);
                    lemma_mul_mod_noop_right(rcur, pow((bi * bi) % dd, e as nat), dd);
                }
                b = bsq;
            } else {
                proof {
                    lemma_pow0(b as int);
                    let rcur = result as int / pi;
                    lemma_small_mod(rcur as nat, dd as nat);
                }
            }
        }
        proof {
            lemma_pow0(b as int);
        }
        let r = result / p;
        proof {
            lemma_small_mod((result as int / pi) as nat, dd as nat);
        }
        r
    }

    /// `base^exponent % divisor`: modular exponentiation against the
    /// divider's divisor.
    pub fn mod_pow(&self, base: u64, exponent: u64) -> (r: u64)
        requires
            self.wf(),
            base < 0x8000_0000_0000_0000u64,
        ensures
            r as int == pow(base as int, exponent as nat) % self.divisor_of(),
    {
        let r = self.mod_pow_init(1, base, exponent);
        proof {
            lemma_mul_basics_2(pow(base as int, exponent as nat));
        }
        r
    }
}

} // verus!
