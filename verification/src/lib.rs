//! Digit extraction for constants given by BBP-type series: modular
//! exponentiation over a fast divisor-invariant divider, and head/tail
//! summation of the per-term series in an exact 64-bit fixed-point fraction.
//!
//! A query for digit index `k` sums, for every term `j` with a nonzero
//! coefficient, the head entries `i = 0..=k` (each the top 64 bits of
//! `(b^(k-i) mod den) / den`, exact through the divider) and a short
//! convergent tail, folding everything together with wraparound addition —
//! arithmetic modulo 1, the only arithmetic that matters for a fractional
//! digit of an infinite sum.

use vstd::prelude::*;
use vstd::arithmetic::div_mod::*;
use vstd::arithmetic::mul::*;
use vstd::arithmetic::power::pow;
use vstd::arithmetic::power::lemma_pow1;
use vstd::arithmetic::power::lemma_pow_positive;
use vstd::arithmetic::power::lemma_pow_increases;

use vstd::math::abs;

use crate::arith::two64;
use crate::arith::log2f;
use crate::arith::ilog2_u64;
use crate::arith::lemma_wrapping_add_is_mod;
use crate::arith::lemma_wrapping_sub_is_mod;
use crate::modular::Reciprocal;
use crate::polynomial::Polynomial;
use crate::polynomial::poly_eval;
use crate::polynomial::horner_in_range;
use vstd::arithmetic::power2::pow2;

pub mod arith;
pub mod modular;
pub mod polynomial;

verus! {

/// Denominator of term `j` at summation index `i`: `(n*i + j)^s`.
pub open spec fn lin_denom(n: int, j: int, s: nat, i: int) -> int {
    pow(n * i + j, s)
}

/// Machine bounds under which the denominator is computable: it and its
/// base fit in 32 bits.
pub open spec fn lin_denom_ok(n: int, j: int, s: nat, i: int) -> bool {
    &&& n * i + j <= u32::MAX
    &&& lin_denom(n, j, s, i) <= u32::MAX
}

/// Head entry `i` (with `0 <= i <= k`) of term `j`: the top 64 bits of the
/// fractional value `(b^(k-i) mod den) / den`.
pub open spec fn lin_head_term(b: int, n: int, j: int, s: nat, k: int, i: int) -> int {
    (pow(b, (k - i) as nat) % lin_denom(n, j, s, i)) * two64() / lin_denom(n, j, s, i)
}

/// Sum of the head entries `i = 0..count-1` of term `j`.
pub open spec fn lin_head_sum(b: int, n: int, j: int, s: nat, k: int, count: nat) -> int
    decreases count,
{
    if count == 0 {
        0
    } else {
        lin_head_sum(b, n, j, s, k, (count - 1) as nat) + lin_head_term(
            b,
            n,
            j,
            s,
            k,
            count - 1,
        )
    }
}

/// Tail entry at index `i > k` of term `j`: the fixed-point truncation of
/// `1 / (b^(i-k) * den)`.
pub open spec fn lin_tail_term(b: int, n: int, j: int, s: nat, k: int, i: int) -> int {
    two64() / (pow(b, (i - k) as nat) * lin_denom(n, j, s, i))
}

/// Sum of the tail entries `i = k+1 ..= k+t` of term `j`.
pub open spec fn lin_tail_sum(b: int, n: int, j: int, s: nat, k: int, t: nat) -> int
    decreases t,
{
    if t == 0 {
        0
    } else {
        lin_tail_sum(b, n, j, s, k, (t - 1) as nat) + lin_tail_term(b, n, j, s, k, k + t)
    }
}

/// Number of tail entries retained: `64 / floor(log2 b)`; beyond them every
/// fixed-point tail entry truncates to zero.
pub open spec fn tail_len(b: int) -> nat {
    64nat / log2f(b)
}

/// Full fixed-point value of term `j` at digit index `k` before reduction
/// modulo 1.
pub open spec fn lin_term_value(b: int, n: int, j: int, s: nat, k: int, t: nat) -> int {
    lin_head_sum(b, n, j, s, k, (k + 1) as nat) + lin_tail_sum(b, n, j, s, k, t)
}

/// Signed combination of all terms, coefficient `a[j-1]` scaling term `j`.
pub open spec fn lin_formula_sum(b: int, n: int, s: nat, a: Seq<int>, k: int, cnt: nat) -> int
    decreases cnt,
{
    if cnt == 0 {
        0
    } else {
        lin_formula_sum(b, n, s, a, k, (cnt - 1) as nat) + a[cnt - 1] * lin_term_value(
            b,
            n,
            cnt as int,
            s,
            k,
            tail_len(b),
        )
    }
}

/// The sign rule of the generalized formula: a negative base contributes a
/// positive factor exactly at even digit indices.
pub open spec fn pform_base_positive(b: int, k: int) -> bool {
    b > 0 || k % 2 == 0
}

/// An entry's sign is the product of the base factor's sign and the sign of
/// the numerator value at that index: it is folded in positively iff the
/// two signs agree.
pub open spec fn pform_entry_positive(numval: int, b: int, k: int) -> bool {
    if pform_base_positive(b, k) {
        numval > 0
    } else {
        numval < 0
    }
}

/// Magnitude of the denominator polynomial at index `i`.
pub open spec fn pform_den(dens: Seq<int>, i: int) -> int {
    abs(poly_eval(dens, i)) as int
}

/// Magnitude of the numerator polynomial at index `i`.
pub open spec fn pform_num_mag(nums: Seq<int>, i: int) -> int {
    abs(poly_eval(nums, i)) as int
}

/// Signed head entry at index `i <= k`: the top 64 bits of
/// `(|num| * |b|^(k-i) mod den) / den`, with the sign rule applied at `i`.
pub open spec fn pform_head_entry(nums: Seq<int>, dens: Seq<int>, b: int, k: int, i: int) -> int {
    let den = pform_den(dens, i);
    let mag = (pform_num_mag(nums, i) * pow(abs(b) as int, (k - i) as nat)) % den * two64() / den;
    if pform_entry_positive(poly_eval(nums, i), b, k) {
        mag
    } else {
        -mag
    }
}

pub open spec fn pform_head_sum(nums: Seq<int>, dens: Seq<int>, b: int, k: int, count: nat) -> int
    decreases count,
{
    if count == 0 {
        0
    } else {
        pform_head_sum(nums, dens, b, k, (count - 1) as nat) + pform_head_entry(
            nums,
            dens,
            b,
            k,
            count - 1,
        )
    }
}

/// Signed tail entry at index `i > k`: the fixed-point truncation of
/// `|num| / (|b|^(i-k) * den)` modulo 1, with the sign rule applied at `i`.
pub open spec fn pform_tail_entry(nums: Seq<int>, dens: Seq<int>, b: int, k: int, i: int) -> int {
    let den = pform_den(dens, i);
    let mag = (pform_num_mag(nums, i) * two64() / (pow(abs(b) as int, (i - k) as nat) * den))
        % two64();
    if pform_entry_positive(poly_eval(nums, i), b, k) {
        mag
    } else {
        -mag
    }
}

pub open spec fn pform_tail_sum(nums: Seq<int>, dens: Seq<int>, b: int, k: int, t: nat) -> int
    decreases t,
{
    if t == 0 {
        0
    } else {
        pform_tail_sum(nums, dens, b, k, (t - 1) as nat) + pform_tail_entry(
            nums,
            dens,
            b,
            k,
            k + t,
        )
    }
}

/// Full fixed-point value of one term of the generalized formula.
pub open spec fn pform_term_value(nums: Seq<int>, dens: Seq<int>, b: int, k: int) -> int {
    pform_head_sum(nums, dens, b, k, (k + 1) as nat) + pform_tail_sum(
        nums,
        dens,
        b,
        k,
        tail_len(abs(b) as int),
    )
}

/// Sum of the first `cnt` terms of the generalized formula.
pub open spec fn pform_sum(nums: Seq<Seq<int>>, dens: Seq<Seq<int>>, b: int, k: int, cnt: nat) -> int
    decreases cnt,
{
    if cnt == 0 {
        0
    } else {
        pform_sum(nums, dens, b, k, (cnt - 1) as nat) + pform_term_value(
            nums[cnt - 1],
            dens[cnt - 1],
            b,
            k,
        )
    }
}

/// What a summation index must satisfy for the generalized formula to be
/// computable there: both polynomial evaluations stay in 64-bit range and
/// the denominator is nonzero.
pub open spec fn pform_index_ok(nums: Seq<int>, dens: Seq<int>, i: int) -> bool {
    &&& horner_in_range(nums, i)
    &&& horner_in_range(dens, i)
    &&& poly_eval(dens, i) != 0
}

/// A BBP-type formula: base `b >= 2`, linear coefficient `n`, exponent `s`,
/// and signed term coefficients `a[1..=J]` (zero entries are skipped).
pub struct Formula {
    b: u32,
    n: u32,
    s: u32,
    a: Vec<i32>,
}

impl Formula {
    pub closed spec fn b_spec(self) -> int {
        self.b as int
    }

    pub closed spec fn n_spec(self) -> int {
        self.n as int
    }

    pub closed spec fn s_spec(self) -> nat {
        self.s as nat
    }

    pub closed spec fn coeffs_spec(self) -> Seq<int> {
        self.a@.map_values(|c: i32| c as int)
    }

    pub open spec fn wf(self) -> bool {
        &&& self.b_spec() >= 2
        &&& self.coeffs_spec().len() <= u32::MAX
    }

    pub fn new(b: u32, n: u32, s: u32, a: Vec<i32>) -> (r: Self)
        requires
            b >= 2,
            a@.len() <= u32::MAX,
        ensures
            r.wf(),
            r.b_spec() == b,
            r.n_spec() == n,
            r.s_spec() == s,
            r.coeffs_spec() == a@.map_values(|c: i32| c as int),
            r.coeffs_spec().len() == a@.len(),
    {
        Formula { b, n, s, a }
    }

    /// `(n*i + j)^s`, computed in 32-bit arithmetic under the caller's
    /// bounds.
    fn denominator(&self, i: u32, j: u32) -> (r: u32)
        requires
            j >= 1,
            lin_denom_ok(self.n_spec(), j as int, self.s_spec(), i as int),
        ensures
            r as int == lin_denom(self.n_spec(), j as int, self.s_spec(), i as int),
            r >= 1,
    {
        proof {
            lemma_mul_nonnegative(self.n_spec(), i as int);
        }
        let base: u32 = self.n * i + j;
        let mut acc: u32 = 1;
        let mut t: u32 = 0;
        proof {
            vstd::arithmetic::power::lemma_pow0(base as int);
            lemma_pow_increases(base as nat, 0, self.s as nat);
            lemma_pow_positive(base as int, self.s as nat);
        }
        while t < self.s
            invariant
                base >= 1,
                t <= self.s,
                acc as int == pow(base as int, t as nat),
                pow(base as int, self.s as nat) <= u32::MAX,
            decreases self.s - t,
        {
            proof {
                vstd::arithmetic::power::lemma_pow_adds(base as int, t as nat, 1);
                lemma_pow1(base as int);
                lemma_pow_increases(base as nat, (t + 1) as nat, self.s as nat);
                lemma_pow_positive(base as int, (t + 1) as nat);
            }
            acc = acc * base;
            t = t + 1;
        }
        acc
    }

    /// Fixed-point value of term `j` at digit index `k`: head entries
    /// `i = 0..=k` through the divider, then the convergent tail, all
    /// accumulated modulo 1.
    pub fn compute_term_integer(&self, j: u32, k: u32) -> (r: u64)
        requires
            self.wf(),
            j >= 1,
            k + tail_len(self.b_spec()) <= u32::MAX,
            forall|i: int|
                0 <= i <= k + tail_len(self.b_spec()) ==> #[trigger] lin_denom_ok(
                    self.n_spec(),
                    j as int,
                    self.s_spec(),
                    i,
                ),
        ensures
            r as int == lin_term_value(
                self.b_spec(),
                self.n_spec(),
                j as int,
                self.s_spec(),
                k as int,
                tail_len(self.b_spec()),
            ) % two64(),
    {
        let ghost bi = self.b_spec();
        let ghost ni = self.n_spec();
        let ghost ji = j as int;
        let ghost si = self.s_spec();
        let ghost ki = k as int;
        proof {
            crate::arith::lemma_two64_is_pow2();
            vstd::arithmetic::power2::lemma2_to64_rest();
        }

        let mut sum: u64 = 0;
        let mut i: u64 = 0;
        while i <= k as u64
            invariant
                self.wf(),
                bi == self.b_spec(),
                ni == self.n_spec(),
                ji == j as int,
                si == self.s_spec(),
                ki == k as int,
                j >= 1,
                i <= ki + 1,
                forall|ii: int|
                    0 <= ii <= ki + tail_len(bi) ==> #[trigger] lin_denom_ok(ni, ji, si, ii),
                sum as int == lin_head_sum(bi, ni, ji, si, ki, i as nat) % two64(),
            decreases k as u64 - i + 1,
        {
            assert(lin_denom_ok(ni, ji, si, i as int));
            let den32 = self.denominator(i as u32, j);
            let den = den32 as u64;
            let rec = Reciprocal::new(den);
            let residue = rec.mod_pow(self.b as u64, k as u64 - i);
            proof {
                lemma_mod_bound(pow(bi, (ki - i) as nat), den as int);
                assert((residue as int) * two64() < den as int * two64()) by (nonlinear_arith)
                    requires
                        (residue as int) < den as int,
                        two64() > 0,
                ;
                assert(den as int * two64() <= u128::MAX as int) by (nonlinear_arith)
                    requires
                        den as int <= 0xffff_ffffu32 as int,
                        two64() == 0x1_0000_0000_0000_0000,
                        u128::MAX as int == 0xffff_ffff_ffff_ffff_ffff_ffff_ffff_ffffu128
                            as int,
                ;
                lemma_mul_nonnegative(residue as int, two64());
            }
            let widened: u128 = (residue as u128) * 0x1_0000_0000_0000_0000u128;
            let (q, _) = rec.divide(widened);
            let ghost s0 = sum;
            sum = sum.wrapping_add(q);
            proof {
                assert(q as int == lin_head_term(bi, ni, ji, si, ki, i as int));
                lemma_wrapping_add_is_mod(s0, q, sum);
                let hs = lin_head_sum(bi, ni, ji, si, ki, i as nat);
                lemma_small_mod(q as nat, two64() as nat);
                lemma_add_mod_noop(hs, q as int, two64());
                assert(lin_head_sum(bi, ni, ji, si, ki, (i + 1) as nat) == hs + lin_head_term(
                    bi,
                    ni,
                    ji,
                    si,
                    ki,
                    i as int,
                ));
            }
            i = i + 1;
        }

        proof {
            // log2 of the base is at least 1, so the tail is at most 64 long
            assert(log2f(bi) >= 1);
        }
        let nt: u32 = 64 / (ilog2_u64(self.b as u64) as u32);
        proof {
            assert(nt as nat == tail_len(bi));
        }
        let mut c: u32 = 1;
        while c <= nt
            invariant
                self.wf(),
                bi == self.b_spec(),
                ni == self.n_spec(),
                ji == j as int,
                si == self.s_spec(),
                ki == k as int,
                j >= 1,
                1 <= c <= nt + 1,
                nt as nat == tail_len(bi),
                ki + tail_len(bi) <= u32::MAX,
                forall|ii: int|
                    0 <= ii <= ki + tail_len(bi) ==> #[trigger] lin_denom_ok(ni, ji, si, ii),
                sum as int == (lin_head_sum(bi, ni, ji, si, ki, (ki + 1) as nat) + lin_tail_sum(
                    bi,
                    ni,
                    ji,
                    si,
                    ki,
                    (c - 1) as nat,
                )) % two64(),
            decreases nt - c + 1,
        {
            let i: u64 = k as u64 + c as u64;
            assert(lin_denom_ok(ni, ji, si, i as int));
            let den32 = self.denominator(i as u32, j);
            let den = den32 as u64;
            let wopt = crate::arith::pow_mul_u128(self.b as u64, c, den);
            let ghost wtrue = pow(bi, c as nat) * den as int;
            proof {
                lemma_pow_positive(bi, c as nat);
                lemma_mul_strictly_positive(pow(bi, c as nat), den as int);
                crate::arith::lemma_two64_is_pow2();
                vstd::arithmetic::power2::lemma2_to64_rest();
            }
            let term: u64 = match wopt {
                Some(w) => {
                    proof {
                        // the denominator is at least 2, so the quotient
                        // fits comfortably in 64 bits
                        lemma_pow1(bi);
                        lemma_pow_increases(bi as nat, 1, c as nat);
                        assert(wtrue >= 2) by (nonlinear_arith)
                            requires
                                pow(bi, c as nat) >= 2,
                                den as int >= 1,
                                wtrue == pow(bi, c as nat) * den as int,
                        ;
                        lemma_div_is_ordered_by_denominator(two64(), 2, wtrue);
                        lemma_div_pos_is_pos(two64(), wtrue);
                    }
                    let q2: u128 = 0x1_0000_0000_0000_0000u128 / w;
                    q2 as u64
                },
                None => {
                    proof {
                        lemma_basic_div(two64(), wtrue);
                    }
                    0
                },
            };
            let ghost s0 = sum;
            sum = sum.wrapping_add(term);
            proof {
                assert(term as int == lin_tail_term(bi, ni, ji, si, ki, i as int));
                lemma_wrapping_add_is_mod(s0, term, sum);
                let total = lin_head_sum(bi, ni, ji, si, ki, (ki + 1) as nat) + lin_tail_sum(
                    bi,
                    ni,
                    ji,
                    si,
                    ki,
                    (c - 1) as nat,
                );
                lemma_small_mod(term as nat, two64() as nat);
                lemma_add_mod_noop(total, term as int, two64());
                assert(lin_tail_sum(bi, ni, ji, si, ki, c as nat) == lin_tail_sum(
                    bi,
                    ni,
                    ji,
                    si,
                    ki,
                    (c - 1) as nat,
                ) + lin_tail_term(bi, ni, ji, si, ki, ki + c));
            }
            c = c + 1;
        }
        sum
    }

    /// Fixed-point value at digit index `k` of the whole series: every term
    /// with a nonzero coefficient, scaled by the coefficient's magnitude and
    /// folded in with wraparound addition or two's-complement negation.
    pub fn compute_integer(&self, k: u32) -> (r: u64)
        requires
            self.wf(),
            k + tail_len(self.b_spec()) <= u32::MAX,
            forall|j: int, i: int|
                1 <= j <= self.coeffs_spec().len() && self.coeffs_spec()[j - 1] != 0 && 0 <= i
                    <= k + tail_len(self.b_spec()) ==> #[trigger] lin_denom_ok(
                    self.n_spec(),
                    j,
                    self.s_spec(),
                    i,
                ),
        ensures
            r as int == lin_formula_sum(
                self.b_spec(),
                self.n_spec(),
                self.s_spec(),
                self.coeffs_spec(),
                k as int,
                self.coeffs_spec().len(),
            ) % two64(),
    {
        let ghost bi = self.b_spec();
        let ghost ni = self.n_spec();
        let ghost si = self.s_spec();
        let ghost aa = self.coeffs_spec();
        let ghost ki = k as int;
        let mut sum: u64 = 0;
        let mut idx: usize = 0;
        proof {
            crate::arith::lemma_two64_is_pow2();
            vstd::arithmetic::power2::lemma_pow2_pos(64);
        }
        while idx < self.a.len()
            invariant
                self.wf(),
                bi == self.b_spec(),
                ni == self.n_spec(),
                si == self.s_spec(),
                aa == self.coeffs_spec(),
                ki == k as int,
                idx <= self.a.len(),
                aa.len() == self.a.len(),
                ki + tail_len(bi) <= u32::MAX,
                forall|j: int, i: int|
                    1 <= j <= aa.len() && aa[j - 1] != 0 && 0 <= i <= ki + tail_len(bi)
                        ==> #[trigger] lin_denom_ok(ni, j, si, i),
                sum as int == lin_formula_sum(bi, ni, si, aa, ki, idx as nat) % two64(),
            decreases self.a.len() - idx,
        {
            let coef: i32 = self.a[idx];
            let ghost prev = lin_formula_sum(bi, ni, si, aa, ki, idx as nat);
            let ghost vterm = lin_term_value(bi, ni, idx + 1, si, ki, tail_len(bi));
            if coef != 0 {
                let j: u32 = (idx as u32) + 1;
                assert forall|i: int| 0 <= i <= ki + tail_len(bi) implies #[trigger] lin_denom_ok(
                    ni,
                    j as int,
                    si,
                    i,
                ) by {
                    assert(aa[j - 1] != 0);
                }
                let term = self.compute_term_integer(j, k);
                let mag: u64 = if coef >= 0 {
                    coef as u64
                } else {
                    (-(coef as i64)) as u64
                };
                let ghost magi = mag as int;
                let st0: u64 = mag.wrapping_mul(term);
                proof {
                    // mag * (V % m) and mag * V agree modulo m
                    assert(st0 as int == (magi * term as int) % two64()) by {
                        crate::arith::lemma_two64_is_pow2();
                    }
                    lemma_mul_mod_noop_right(magi, vterm, two64());
                    assert(st0 as int == (magi * vterm) % two64());
                }
                let st: u64 = if coef < 0 {
                    let r0 = 0u64.wrapping_sub(st0);
                    proof {
                        crate::arith::lemma_wrapping_sub_is_mod(0, st0, r0);
                        lemma_sub_mod_noop_right(0, magi * vterm, two64());
                        assert(aa[idx as int] * vterm == -(magi * vterm)) by (nonlinear_arith)
                            requires
                                aa[idx as int] == -magi,
                        ;
                        assert(r0 as int == (aa[idx as int] * vterm) % two64());
                    }
                    r0
                } else {
                    proof {
                        assert(aa[idx as int] * vterm == magi * vterm);
                    }
                    st0
                };
                let ghost s0 = sum;
                sum = sum.wrapping_add(st);
                proof {
                    lemma_wrapping_add_is_mod(s0, st, sum);
                    lemma_add_mod_noop(prev, aa[idx as int] * vterm, two64());
                    lemma_mod_twice(prev, two64());
                    lemma_mod_twice(aa[idx as int] * vterm, two64());
                }
            } else {
                proof {
                    assert(aa[idx as int] == 0);
                    assert(aa[idx as int] * vterm == 0) by (nonlinear_arith)
                        requires
                            aa[idx as int] == 0,
                    ;
                }
            }
            proof {
                assert(lin_formula_sum(bi, ni, si, aa, ki, (idx + 1) as nat) == prev + aa[
                    idx as int
                ] * lin_term_value(bi, ni, idx + 1, si, ki, tail_len(bi)));
            }
            idx = idx + 1;
        }
        sum
    }
}

/// The generalized formula: a signed base (whose sign may alternate by
/// digit parity) and, per term, a numerator and a denominator polynomial
/// evaluated at the summation index in place of the linear form.
pub struct PolyFormula {
    base: i32,
    numerators: Vec<Polynomial>,
    denominators: Vec<Polynomial>,
}

impl PolyFormula {
    pub closed spec fn base_spec(self) -> int {
        self.base as int
    }

    pub closed spec fn num_polys(self) -> Seq<Seq<int>> {
        self.numerators@.map_values(|p: Polynomial| p.coeffs())
    }

    pub closed spec fn den_polys(self) -> Seq<Seq<int>> {
        self.denominators@.map_values(|p: Polynomial| p.coeffs())
    }

    pub open spec fn wf(self) -> bool {
        &&& abs(self.base_spec()) >= 2
        &&& self.num_polys().len() == self.den_polys().len()
    }

    /// Numerator and denominator term lists must have equal length, and the
    /// base magnitude must be at least 2.
    pub fn new(base: i32, numerators: Vec<Polynomial>, denominators: Vec<Polynomial>) -> (r: Self)
        requires
            base <= -2 || base >= 2,
            numerators@.len() == denominators@.len(),
        ensures
            r.wf(),
            r.base_spec() == base,
            r.num_polys() == numerators@.map_values(|p: Polynomial| p.coeffs()),
            r.den_polys() == denominators@.map_values(|p: Polynomial| p.coeffs()),
            r.num_polys().len() == numerators@.len(),
    {
        PolyFormula { base, numerators, denominators }
    }

    /// Fixed-point value of one term at digit index `digit`, the sign of
    /// each head and tail entry decided independently at its own index.
    pub fn evaluate_term(&self, term: usize, digit: u32) -> (r: u64)
        requires
            self.wf(),
            term < self.num_polys().len(),
            digit + tail_len(abs(self.base_spec()) as int) <= u32::MAX,
            forall|i: int|
                0 <= i <= digit + tail_len(abs(self.base_spec()) as int)
                    ==> #[trigger] pform_index_ok(
                    self.num_polys()[term as int],
                    self.den_polys()[term as int],
                    i,
                ),
        ensures
            r as int == pform_term_value(
                self.num_polys()[term as int],
                self.den_polys()[term as int],
                self.base_spec(),
                digit as int,
            ) % two64(),
    {
        let ghost bi = self.base_spec();
        let ghost ba = abs(self.base_spec()) as int;
        let ghost nums = self.num_polys()[term as int];
        let ghost dens = self.den_polys()[term as int];
        let ghost ki = digit as int;
        proof {
            crate::arith::lemma_two64_is_pow2();
            vstd::arithmetic::power2::lemma2_to64_rest();
        }
        let base_positive: bool = self.base > 0 || digit % 2 == 0;
        let babs: u64 = if self.base >= 0 {
            self.base as u64
        } else {
            (-(self.base as i64)) as u64
        };
        let np = &self.numerators[term];
        let dp = &self.denominators[term];
        proof {
            assert(np.coeffs() == nums);
            assert(dp.coeffs() == dens);
            assert(babs as int == ba);
            assert(base_positive == pform_base_positive(bi, ki));
        }

        let mut sum: u64 = 0;
        let mut i: u64 = 0;
        while i <= digit as u64
            invariant
                self.wf(),
                bi == self.base_spec(),
                ba == abs(self.base_spec()) as int,
                babs as int == ba,
                2 <= babs < 0x8000_0000_0000_0000u64,
                nums == self.num_polys()[term as int],
                dens == self.den_polys()[term as int],
                nums == np.coeffs(),
                dens == dp.coeffs(),
                ki == digit as int,
                i <= ki + 1,
                base_positive == pform_base_positive(bi, ki),
                forall|ii: int|
                    0 <= ii <= ki + tail_len(ba) ==> #[trigger] pform_index_ok(nums, dens, ii),
                sum as int == pform_head_sum(nums, dens, bi, ki, i as nat) % two64(),
            decreases digit as u64 - i + 1,
        {
            assert(pform_index_ok(nums, dens, i as int));
            let den_v: i64 = dp.evaluate(i as i64);
            let den: u64 = if den_v >= 0 {
                den_v as u64
            } else {
                (-(den_v as i128)) as u64
            };
            let num_v: i64 = np.evaluate(i as i64);
            let nmag: u64 = if num_v >= 0 {
                num_v as u64
            } else {
                (-(num_v as i128)) as u64
            };
            proof {
                assert(den as int == pform_den(dens, i as int));
                assert(nmag as int == pform_num_mag(nums, i as int));
                assert(den >= 1);
            }
            let entry_positive = if base_positive { num_v > 0 } else { num_v < 0 };
            let rec = Reciprocal::new(den);
            let residue = rec.mod_pow_init(nmag, babs, digit as u64 - i);
            proof {
                lemma_pow_positive(ba, (ki - i) as nat);
                lemma_mod_bound(nmag as int * pow(ba, (ki - i) as nat), den as int);
                lemma_mul_nonnegative(nmag as int, pow(ba, (ki - i) as nat));
                assert((residue as int) * two64() < den as int * two64()) by (nonlinear_arith)
                    requires
                        (residue as int) < den as int,
                        two64() > 0,
                ;
                assert(den as int * two64() <= u128::MAX as int) by (nonlinear_arith)
                    requires
                        (den as int) < 0x1_0000_0000_0000_0000,
                        two64() == 0x1_0000_0000_0000_0000,
                        u128::MAX as int == 0xffff_ffff_ffff_ffff_ffff_ffff_ffff_ffffu128
                            as int,
                ;
                lemma_mul_nonnegative(residue as int, two64());
            }
            let widened: u128 = (residue as u128) * 0x1_0000_0000_0000_0000u128;
            let (q, _) = rec.divide(widened);
            let ghost s0 = sum;
            let ghost hs = pform_head_sum(nums, dens, bi, ki, i as nat);
            let ghost entry = pform_head_entry(nums, dens, bi, ki, i as int);
            sum = if entry_positive {
                sum.wrapping_add(q)
            } else {
                sum.wrapping_sub(q)
            };
            proof {
                assert(entry_positive == pform_entry_positive(poly_eval(nums, i as int), bi, ki));
                if entry_positive {
                    assert(entry == q as int);
                    lemma_wrapping_add_is_mod(s0, q, sum);
                    lemma_small_mod(q as nat, two64() as nat);
                    lemma_add_mod_noop(hs, q as int, two64());
                } else {
                    assert(entry == -(q as int));
                    lemma_wrapping_sub_is_mod(s0, q, sum);
                    lemma_small_mod(q as nat, two64() as nat);
                    lemma_sub_mod_noop(hs, q as int, two64());
                }
                assert(pform_head_sum(nums, dens, bi, ki, (i + 1) as nat) == hs + entry);
            }
            i = i + 1;
        }

        proof {
            assert(log2f(ba) >= 1);
        }
        let nt: u32 = 64 / (ilog2_u64(babs) as u32);
        proof {
            assert(nt as nat == tail_len(ba));
        }
        let mut c: u32 = 1;
        while c <= nt
            invariant
                self.wf(),
                bi == self.base_spec(),
                ba == abs(self.base_spec()) as int,
                babs as int == ba,
                2 <= babs < 0x8000_0000_0000_0000u64,
                nums == self.num_polys()[term as int],
                dens == self.den_polys()[term as int],
                nums == np.coeffs(),
                dens == dp.coeffs(),
                ki == digit as int,
                1 <= c <= nt + 1,
                nt as nat == tail_len(ba),
                ki + tail_len(ba) <= u32::MAX,
                base_positive == pform_base_positive(bi, ki),
                forall|ii: int|
                    0 <= ii <= ki + tail_len(ba) ==> #[trigger] pform_index_ok(nums, dens, ii),
                sum as int == (pform_head_sum(nums, dens, bi, ki, (ki + 1) as nat)
                    + pform_tail_sum(nums, dens, bi, ki, (c - 1) as nat)) % two64(),
            decreases nt - c + 1,
        {
            let i: u64 = digit as u64 + c as u64;
            assert(pform_index_ok(nums, dens, i as int));
            let den_v: i64 = dp.evaluate(i as i64);
            let den: u64 = if den_v >= 0 {
                den_v as u64
            } else {
                (-(den_v as i128)) as u64
            };
            let num_v: i64 = np.evaluate(i as i64);
            let nmag: u64 = if num_v >= 0 {
                num_v as u64
            } else {
                (-(num_v as i128)) as u64
            };
            proof {
                assert(den as int == pform_den(dens, i as int));
                assert(nmag as int == pform_num_mag(nums, i as int));
                assert(den >= 1);
            }
            let entry_positive = if base_positive { num_v > 0 } else { num_v < 0 };
            let wopt = crate::arith::pow_mul_u128(babs, c, den);
            let ghost wtrue = pow(ba, c as nat) * den as int;
            proof {
                lemma_pow_positive(ba, c as nat);
                lemma_mul_strictly_positive(pow(ba, c as nat), den as int);
                assert(nmag as int * two64() <= u128::MAX as int) by (nonlinear_arith)
                    requires
                        (nmag as int) < 0x1_0000_0000_0000_0000,
                        two64() == 0x1_0000_0000_0000_0000,
                        u128::MAX as int == 0xffff_ffff_ffff_ffff_ffff_ffff_ffff_ffffu128
                            as int,
                ;
                lemma_mul_nonnegative(nmag as int, two64());
            }
            let mag: u64 = match wopt {
                Some(w) => {
                    let q2: u128 = ((nmag as u128) * 0x1_0000_0000_0000_0000u128) / w;
                    proof {
                        lemma_div_pos_is_pos(nmag as int * two64(), wtrue);
                        lemma_mod_bound(nmag as int * two64() / wtrue, two64());
                    }
                    (q2 % 0x1_0000_0000_0000_0000u128) as u64
                },
                None => {
                    proof {
                        lemma_basic_div(nmag as int * two64(), wtrue);
                        lemma_small_mod(0nat, two64() as nat);
                    }
                    0
                },
            };
            let ghost s0 = sum;
            let ghost total = pform_head_sum(nums, dens, bi, ki, (ki + 1) as nat)
                + pform_tail_sum(nums, dens, bi, ki, (c - 1) as nat);
            let ghost entry = pform_tail_entry(nums, dens, bi, ki, i as int);
            sum = if entry_positive {
                sum.wrapping_add(mag)
            } else {
                sum.wrapping_sub(mag)
            };
            proof {
                assert(entry_positive == pform_entry_positive(poly_eval(nums, i as int), bi, ki));
                if entry_positive {
                    assert(entry == mag as int);
                    lemma_wrapping_add_is_mod(s0, mag, sum);
                    lemma_small_mod(mag as nat, two64() as nat);
                    lemma_add_mod_noop(total, mag as int, two64());
                } else {
                    assert(entry == -(mag as int));
                    lemma_wrapping_sub_is_mod(s0, mag, sum);
                    lemma_small_mod(mag as nat, two64() as nat);
                    lemma_sub_mod_noop(total, mag as int, two64());
                }
                assert(pform_tail_sum(nums, dens, bi, ki, c as nat) == pform_tail_sum(
                    nums,
                    dens,
                    bi,
                    ki,
                    (c - 1) as nat,
                ) + entry);
            }
            c = c + 1;
        }
        sum
    }

    /// Fixed-point value at digit index `digit` of the whole generalized
    /// series: the terms' values folded together with wraparound addition.
    pub fn evaluate(&self, digit: u32) -> (r: u64)
        requires
            self.wf(),
            digit + tail_len(abs(self.base_spec()) as int) <= u32::MAX,
            forall|t: int, i: int|
                0 <= t < self.num_polys().len() && 0 <= i <= digit + tail_len(
                    abs(self.base_spec()) as int,
                ) ==> #[trigger] pform_index_ok(self.num_polys()[t], self.den_polys()[t], i),
        ensures
            r as int == pform_sum(
                self.num_polys(),
                self.den_polys(),
                self.base_spec(),
                digit as int,
                self.num_polys().len(),
            ) % two64(),
    {
        let ghost bi = self.base_spec();
        let ghost nn = self.num_polys();
        let ghost dd = self.den_polys();
        let ghost ki = digit as int;
        let n_terms = self.numerators.len();
        let mut sum: u64 = 0;
        let mut term: usize = 0;
        proof {
            crate::arith::lemma_two64_is_pow2();
            vstd::arithmetic::power2::lemma_pow2_pos(64);
        }
        while term < n_terms
            invariant
                self.wf(),
                bi == self.base_spec(),
                nn == self.num_polys(),
                dd == self.den_polys(),
                ki == digit as int,
                n_terms == self.numerators@.len(),
                nn.len() == n_terms,
                term <= n_terms,
                ki + tail_len(abs(bi) as int) <= u32::MAX,
                forall|t: int, i: int|
                    0 <= t < nn.len() && 0 <= i <= ki + tail_len(abs(bi) as int)
                        ==> #[trigger] pform_index_ok(nn[t], dd[t], i),
                sum as int == pform_sum(nn, dd, bi, ki, term as nat) % two64(),
            decreases n_terms - term,
        {
            assert forall|i: int|
                0 <= i <= digit + tail_len(abs(self.base_spec()) as int) implies #[trigger] pform_index_ok(
                self.num_polys()[term as int],
                self.den_polys()[term as int],
                i,
            ) by {
                assert(pform_index_ok(nn[term as int], dd[term as int], i));
            }
            let tv = self.evaluate_term(term, digit);
            let ghost s0 = sum;
            let ghost prev = pform_sum(nn, dd, bi, ki, term as nat);
            let ghost vterm = pform_term_value(nn[term as int], dd[term as int], bi, ki);
            sum = sum.wrapping_add(tv);
            proof {
                lemma_wrapping_add_is_mod(s0, tv, sum);
                lemma_add_mod_noop(prev, vterm, two64());
                lemma_mod_twice(prev, two64());
                lemma_mod_twice(vterm, two64());
                assert(pform_sum(nn, dd, bi, ki, (term + 1) as nat) == prev + vterm);
            }
            term = term + 1;
        }
        sum
    }
}

/// Splitting an exponent splits the modular power: `b^(e1+e2) mod m` is the
/// modular product of `b^e1 mod m` and `b^e2 mod m`.
pub proof fn lemma_pow_mod_split(b: int, e1: nat, e2: nat, m: int)
    requires
        m >= 1,
    ensures
        pow(b, e1 + e2) % m == ((pow(b, e1) % m) * (pow(b, e2) % m)) % m,
{
    vstd::arithmetic::power::lemma_pow_adds(b, e1, e2);
    lemma_mul_mod_noop(pow(b, e1), pow(b, e2), m);
}

/// A digit query is pure: the contract of `compute_integer` pins its result
/// to a function of the formula and the digit index alone, so two results
/// of the same query are equal.
pub proof fn lemma_query_deterministic(f: Formula, k: u32, r1: u64, r2: u64)
    requires
        r1 as int == lin_formula_sum(
            f.b_spec(),
            f.n_spec(),
            f.s_spec(),
            f.coeffs_spec(),
            k as int,
            f.coeffs_spec().len(),
        ) % two64(),
        r2 as int == lin_formula_sum(
            f.b_spec(),
            f.n_spec(),
            f.s_spec(),
            f.coeffs_spec(),
            k as int,
            f.coeffs_spec().len(),
        ) % two64(),
    ensures
        r1 == r2,
{
}

/// Every fixed-point tail entry past the retained count is exactly zero:
/// beyond `64 / floor(log2 b)` entries the denominator `b^(i-k) * den`
/// exceeds `2^64`, so lengthening the tail changes a term's value by
/// nothing — less than one unit in the last retained place.
pub proof fn lemma_tail_cutoff(b: int, n: int, j: int, s: nat, k: int, t: nat)
    requires
        b >= 2,
        n >= 0,
        j >= 1,
        k >= 0,
        t >= tail_len(b),
    ensures
        lin_tail_sum(b, n, j, s, k, t) == lin_tail_sum(b, n, j, s, k, tail_len(b)),
    decreases t,
{
    if t > tail_len(b) {
        lemma_tail_cutoff(b, n, j, s, k, (t - 1) as nat);
        let ll = log2f(b);
        let i = k + t;
        crate::arith::lemma_log2f_bounds(b);
        assert(ll >= 1);
        // pow(b, t) >= pow2(ll * t) > 2^64
        crate::arith::lemma_pow_base_le(pow2(ll) as int, b, t);
        vstd::arithmetic::power::lemma_pow_multiplies(2, ll, t);
        assert(pow(pow2(ll) as int, t) == pow2(ll * t)) by {
            vstd::arithmetic::power2::lemma_pow2(ll);
            vstd::arithmetic::power2::lemma_pow2(ll * t);
        }
        assert(ll * t >= 65) by {
            lemma_fundamental_div_mod(64, ll as int);
            lemma_mod_bound(64, ll as int);
            let q64 = 64 as int / ll as int;
            assert(tail_len(b) == q64);
            assert(ll * q64 >= 65 - ll);
            lemma_mul_inequality(q64 + 1, t as int, ll as int);
            assert((q64 + 1) * ll == ll * q64 + ll) by (nonlinear_arith);
            assert(t as int * ll == ll * t) by (nonlinear_arith);
        }
        vstd::arithmetic::power2::lemma_pow2_strictly_increases(64, ll * t);
        crate::arith::lemma_two64_is_pow2();
        assert(pow(b, t) > two64());
        // the polynomial-free denominator is at least 1
        lemma_mul_nonnegative(n, i);
        lemma_pow_positive(n * i + j, s);
        let den = lin_denom(n, j, s, i);
        assert(pow(b, t) * den >= pow(b, t)) by (nonlinear_arith)
            requires
                den >= 1,
                pow(b, t) > 0,
        ;
        lemma_basic_div(two64(), pow(b, t) * den);
        assert(lin_tail_term(b, n, j, s, k, i) == 0);
        assert(lin_tail_sum(b, n, j, s, k, t) == lin_tail_sum(b, n, j, s, k, (t - 1) as nat));
    }
}

/// At digit index 0 only a single head entry (`i = 0`) and the retained
/// tail contribute, and retaining any more tail entries changes nothing.
pub proof fn lemma_digit_zero_boundary(b: int, n: int, j: int, s: nat, t: nat)
    requires
        b >= 2,
        n >= 0,
        j >= 1,
        t >= tail_len(b),
    ensures
        lin_term_value(b, n, j, s, 0, t) == lin_head_term(b, n, j, s, 0, 0) + lin_tail_sum(
            b,
            n,
            j,
            s,
            0,
            tail_len(b),
        ),
{
    lemma_tail_cutoff(b, n, j, s, 0, t);
    assert(lin_head_sum(b, n, j, s, 0, 1) == lin_head_sum(b, n, j, s, 0, 0) + lin_head_term(
        b,
        n,
        j,
        s,
        0,
        0,
    ));
}

/// Tail cutoff for the generalized formula: an entry vanishes exactly when
/// the geometric factor has outgrown the numerator, so lengthening the tail
/// across such entries changes a term's value by nothing. Unlike the linear
/// formula, where `64 / floor(log2 b)` entries always suffice
/// (`lemma_tail_cutoff`), a growing numerator polynomial can keep later
/// entries nonzero; the hypothesis names precisely the entries that vanish.
pub proof fn lemma_pform_tail_cutoff(
    nums: Seq<int>,
    dens: Seq<int>,
    b: int,
    k: int,
    t: nat,
    t2: nat,
)
    requires
        k >= 0,
        t <= t2,
        forall|i: int|
            k + t < i <= k + t2 ==> #[trigger] pform_num_mag(nums, i) * two64() < pow(
                abs(b) as int,
                (i - k) as nat,
            ) * pform_den(dens, i),
    ensures
        pform_tail_sum(nums, dens, b, k, t2) == pform_tail_sum(nums, dens, b, k, t),
    decreases t2,
{
    if t2 > t {
        lemma_pform_tail_cutoff(nums, dens, b, k, t, (t2 - 1) as nat);
        let i = k + t2;
        assert(pform_num_mag(nums, i) * two64() < pow(abs(b) as int, (i - k) as nat)
            * pform_den(dens, i));
        lemma_mul_nonnegative(pform_num_mag(nums, i), two64());
        lemma_basic_div(
            pform_num_mag(nums, i) * two64(),
            pow(abs(b) as int, (i - k) as nat) * pform_den(dens, i),
        );
        lemma_small_mod(0nat, two64() as nat);
        assert(pform_tail_entry(nums, dens, b, k, i) == 0);
        assert(pform_tail_sum(nums, dens, b, k, t2) == pform_tail_sum(
            nums,
            dens,
            b,
            k,
            (t2 - 1) as nat,
        ));
    }
}

} // verus!
