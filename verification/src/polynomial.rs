//! Small integer polynomials with Horner evaluation at an integer index.

use vstd::prelude::*;
use vstd::arithmetic::mul::*;
use vstd::arithmetic::power::pow;
use vstd::arithmetic::power::lemma_pow_positive;
use vstd::arithmetic::power::lemma_pow_increases;
use vstd::math::abs;

verus! {

/// Value at `x` of the polynomial whose coefficients are `s`, ordered from
/// lowest to highest degree.
pub open spec fn poly_eval(s: Seq<int>, x: int) -> int
    decreases s.len(),
{
    if s.len() == 0 {
        0
    } else {
        s[0] + x * poly_eval(s.subrange(1, s.len() as int), x)
    }
}

/// The value of the suffix of `s` starting at position `t`: what Horner's
/// accumulator holds after the top coefficients down to `s[t]` are folded in.
pub open spec fn suffix_val(s: Seq<int>, x: int, t: int) -> int {
    poly_eval(s.subrange(t, s.len() as int), x)
}

/// Every Horner intermediate stays within the signed 64-bit range: the
/// suffix values, and their products with `x` before a coefficient is added.
/// At position `t`, both Horner intermediates stay within the signed
/// 64-bit range: the product with `x`, and the suffix value after the
/// coefficient is added.
pub open spec fn horner_step_ok(s: Seq<int>, x: int, t: int) -> bool {
    &&& i64::MIN <= x * suffix_val(s, x, t + 1) <= i64::MAX
    &&& i64::MIN <= suffix_val(s, x, t) <= i64::MAX
}

pub open spec fn horner_in_range(s: Seq<int>, x: int) -> bool {
    forall|t: int| 0 <= t < s.len() ==> #[trigger] horner_step_ok(s, x, t)
}

/// One step of Horner's recurrence on suffix values.
pub proof fn lemma_suffix_unfold(s: Seq<int>, x: int, t: int)
    requires
        0 <= t < s.len(),
    ensures
        suffix_val(s, x, t) == s[t] + x * suffix_val(s, x, t + 1),
{
    let sub = s.subrange(t, s.len() as int);
    assert(sub.subrange(1, sub.len() as int) =~= s.subrange(t + 1, s.len() as int));
}

/// A coefficient bound `c` and the bound `c * (|x| + 1)^degree` on the final
/// magnitude together keep every Horner intermediate in the signed 64-bit
/// range.
pub proof fn lemma_horner_in_range(s: Seq<int>, x: int, c: int)
    requires
        c >= 0,
        forall|i: int| 0 <= i < s.len() ==> -c <= #[trigger] s[i] <= c,
        c * pow(abs(x) as int + 1, s.len()) <= i64::MAX,
    ensures
        horner_in_range(s, x),
{
    assert forall|t: int| 0 <= t < s.len() implies #[trigger] horner_step_ok(s, x, t) by {
        lemma_suffix_abs_bound(s, x, c, t + 1);
        lemma_suffix_abs_bound(s, x, c, t);
        let p1 = pow(abs(x) as int + 1, (s.len() - t - 1) as nat);
        let pt = pow(abs(x) as int + 1, (s.len() - t) as nat);
        let pn = pow(abs(x) as int + 1, s.len());
        lemma_pow_positive(abs(x) as int + 1, (s.len() - t - 1) as nat);
        lemma_pow_positive(abs(x) as int + 1, (s.len() - t) as nat);
        lemma_pow_increases((abs(x) as int + 1) as nat, (s.len() - t) as nat, s.len());
        lemma_pow_increases((abs(x) as int + 1) as nat, (s.len() - t - 1) as nat, s.len());
        assert(pow(abs(x) as int + 1, (s.len() - t - 1) as nat + 1) == (abs(x) as int + 1) * p1) by {
            vstd::arithmetic::power::lemma_pow_adds(abs(x) as int + 1, 1, (s.len() - t - 1) as nat);
            vstd::arithmetic::power::lemma_pow1(abs(x) as int + 1);
        }
        // |x * suffix(t+1)| <= |x| * c * p1 <= c * pt <= c * pn
        let v1 = suffix_val(s, x, t + 1);
        assert(-(c * p1) <= v1 <= c * p1);
        assert(x * v1 <= c * pt && -(c * pt) <= x * v1) by (nonlinear_arith)
            requires
                -(c * p1) <= v1 <= c * p1,
                pt == (abs(x) as int + 1) * p1,
                abs(x) >= x >= -abs(x),
                c >= 0,
                p1 >= 1,
        ;
        assert(c * pt <= c * pn) by {
            lemma_mul_inequality(pt, pn, c);
            lemma_mul_is_commutative(pt, c);
            lemma_mul_is_commutative(pn, c);
        }
    }
}

/// Magnitude bound on a suffix value: `|suffix(t)| <= c * (|x| + 1)^(n - t)`.
proof fn lemma_suffix_abs_bound(s: Seq<int>, x: int, c: int, t: int)
    requires
        c >= 0,
        0 <= t <= s.len(),
        forall|i: int| 0 <= i < s.len() ==> -c <= #[trigger] s[i] <= c,
    ensures
        -(c * pow(abs(x) as int + 1, (s.len() - t) as nat)) <= suffix_val(s, x, t) <= c * pow(
            abs(x) as int + 1,
            (s.len() - t) as nat,
        ),
    decreases s.len() - t,
{
    let n = s.len() as int;
    if t == n {
        assert(s.subrange(t, n).len() == 0);
        vstd::arithmetic::power::lemma_pow0(abs(x) as int + 1);
        assert(suffix_val(s, x, t) == 0);
    } else {
        lemma_suffix_abs_bound(s, x, c, t + 1);
        lemma_suffix_unfold(s, x, t);
        let p1 = pow(abs(x) as int + 1, (n - t - 1) as nat);
        let pt = pow(abs(x) as int + 1, (n - t) as nat);
        lemma_pow_positive(abs(x) as int + 1, (n - t - 1) as nat);
        assert(pt == (abs(x) as int + 1) * p1) by {
            vstd::arithmetic::power::lemma_pow_adds(abs(x) as int + 1, 1, (n - t - 1) as nat);
            vstd::arithmetic::power::lemma_pow1(abs(x) as int + 1);
        }
        let v1 = suffix_val(s, x, t + 1);
        assert(-(c * pt) <= s[t] + x * v1 <= c * pt) by (nonlinear_arith)
            requires
                -(c * p1) <= v1 <= c * p1,
                -c <= s[t] <= c,
                pt == (abs(x) as int + 1) * p1,
                abs(x) >= x >= -abs(x),
                c >= 0,
                p1 >= 1,
        ;
    }
}

/// A fixed-degree integer polynomial, coefficients from lowest to highest
/// degree.
pub struct Polynomial {
    coefficients: Vec<i32>,
}

impl Polynomial {
    /// The coefficients as mathematical integers, lowest degree first.
    pub closed spec fn coeffs(self) -> Seq<int> {
        self.coefficients@.map_values(|c: i32| c as int)
    }

    pub fn new(coefficients: Vec<i32>) -> (r: Self)
        ensures
            r.coeffs() == coefficients@.map_values(|c: i32| c as int),
            r.coeffs().len() == coefficients@.len(),
    {
        Polynomial { coefficients }
    }

    /// Horner evaluation at `x`, from the highest-degree coefficient down.
    /// The caller bounds coefficients, degree and `|x|` so that no
    /// intermediate leaves the signed 64-bit range (`horner_in_range`;
    /// `lemma_horner_in_range` derives it from a coefficient bound `c` with
    /// `c * (|x| + 1)^degree <= i64::MAX`).
    pub fn evaluate(&self, x: i64) -> (r: i64)
        requires
            horner_in_range(self.coeffs(), x as int),
        ensures
            r as int == poly_eval(self.coeffs(), x as int),
    {
        let ghost s = self.coeffs();
        let n = self.coefficients.len();
        if n == 0 {
            return 0;
        }
        let mut result: i64 = self.coefficients[n - 1] as i64;
        proof {
            // the topmost suffix is the last coefficient alone
            lemma_suffix_unfold(s, x as int, n - 1);
            assert(s.subrange(n as int, n as int).len() == 0);
            assert(suffix_val(s, x as int, n as int) == 0);
            assert((x as int) * 0 == 0) by (nonlinear_arith);
            assert(result as int == suffix_val(s, x as int, n - 1));
        }
        let mut t: usize = n - 1;
        while t > 0
        invariant
            horner_in_range(s, x as int),
            s == self.coeffs(),
            n == self.coefficients.len(),
            s.len() == n as int,
            t < n,
            result as int == suffix_val(s, x as int, t as int),
        decreases t,
        {
            t = t - 1;
            proof {
                assert(horner_step_ok(s, x as int, t as int));
                lemma_suffix_unfold(s, x as int, t as int);
                lemma_mul_is_commutative(x as int, suffix_val(s, x as int, t as int + 1));
            }
            result = result * x + (self.coefficients[t] as i64);
        }
        proof {
            assert(s.subrange(0, s.len() as int) =~= s);
        }
        result
    }
}

} // verus!
