//! The derivative and the antiderivative of a series.

use crate::field::{
    field_inv, invert, is_inverse_of, lemma_residue_mul, lemma_residue_mul_congruent, mul_mod,
    reduce_usize, residue, MODULUS,
};
use crate::fps::{canonical, coeffs, FPS};
use crate::series::{
    congruent, conv, conv_terms, minus, one, plus, reduced, scaled, times, zero, Series,
};
use crate::sums::{lemma_sum_add, lemma_sum_ext, lemma_sum_peel_first, lemma_sum_scale, sum};
use crate::units::lemma_nonzero_is_unit;
use vstd::prelude::*;

verus! {

/// The derivative of `a`: the coefficient of `x^k` is `(k + 1) * a(k + 1)`.
pub open spec fn derivative(a: Series) -> Series {
    |k: nat| (k + 1) * a(k + 1)
}

/// The antiderivative of `a` with constant term zero: the coefficient of
/// `x^k`, for `k >= 1`, is `a(k - 1)` divided by `k` in the field.
pub open spec fn antiderivative(a: Series) -> Series {
    |k: nat| if k == 0 { 0int } else { a((k - 1) as nat) * field_inv(k as int) }
}

/// The precision that is left after a derivative is taken: one term less.
pub open spec fn one_less(n: nat) -> nat {
    if n == 0 {
        0
    } else {
        (n - 1) as nat
    }
}

/// The stored coefficients of the derivative of the series stored in `s`.
pub open spec fn differential_of(s: Seq<u32>) -> Seq<u32> {
    Seq::new(one_less(s.len()), |i: int| residue((i + 1) * s[i + 1]) as u32)
}

/// The stored coefficients of the antiderivative of the series stored in `s`.
pub open spec fn integral_of(s: Seq<u32>) -> Seq<u32> {
    Seq::new(
        s.len() + 1,
        |i: int| if i == 0 { 0u32 } else { residue(s[i - 1] * field_inv(i)) as u32 },
    )
}

/// The derivative of a sum is the sum of the derivatives.
pub proof fn lemma_derivative_plus(a: Series, b: Series)
    ensures
        derivative(plus(a, b)) == plus(derivative(a), derivative(b)),
        derivative(minus(a, b)) == minus(derivative(a), derivative(b)),
{
    assert forall|k: nat| #[trigger]
        derivative(plus(a, b))(k) == plus(derivative(a), derivative(b))(k) by {
        let (x, y) = (a(k + 1), b(k + 1));
        assert((k + 1) * (x + y) == (k + 1) * x + (k + 1) * y) by (nonlinear_arith);
    }
    assert(derivative(plus(a, b)) =~= plus(derivative(a), derivative(b)));
    assert forall|k: nat| #[trigger]
        derivative(minus(a, b))(k) == minus(derivative(a), derivative(b))(k) by {
        let (x, y) = (a(k + 1), b(k + 1));
        assert((k + 1) * (x - y) == (k + 1) * x - (k + 1) * y) by (nonlinear_arith);
    }
    assert(derivative(minus(a, b)) =~= minus(derivative(a), derivative(b)));
}

/// An integer factor can be moved out of a derivative.
pub proof fn lemma_derivative_scaled(c: int, a: Series)
    ensures
        derivative(scaled(c, a)) == scaled(c, derivative(a)),
{
    assert forall|k: nat| #[trigger] derivative(scaled(c, a))(k) == scaled(c, derivative(a))(k) by {
        let x = a(k + 1);
        assert((k + 1) * (c * x) == c * ((k + 1) * x)) by (nonlinear_arith);
    }
    assert(derivative(scaled(c, a)) =~= scaled(c, derivative(a)));
}

/// Derivatives of congruent series are congruent, to one term less.
pub proof fn lemma_derivative_congruent(a: Series, b: Series, n: nat)
    requires
        congruent(a, b, n + 1),
    ensures
        congruent(derivative(a), derivative(b), n),
{
    assert forall|k: nat| k < n implies residue(#[trigger] derivative(a)(k)) == residue(
        derivative(b)(k),
    ) by {
        assert(residue(a(k + 1)) == residue(b(k + 1)));
        lemma_residue_mul_congruent((k + 1) as int, a(k + 1), (k + 1) as int, b(k + 1));
    }
}

/// The product rule, coefficient by coefficient.
pub proof fn lemma_product_rule_at(a: Series, b: Series, k: nat)
    ensures
        (k + 1) * conv(a, b, k + 1) == conv(derivative(a), b, k) + conv(a, derivative(b), k),
{
    let t = conv_terms(a, b, k + 1);
    let whole = |i: nat| (k + 1) * t(i);
    let left = |i: nat| i * t(i);
    let right = |i: nat| (k + 1 - i) * t(i);
    lemma_sum_scale(whole, t, (k + 1) as int, k + 2);
    assert forall|i: nat| i < k + 2 implies #[trigger] whole(i) == left(i) + right(i) by {
        let x = t(i);
        assert((k + 1) * x == i * x + (k + 1 - i) * x) by (nonlinear_arith);
    }
    lemma_sum_add(whole, left, right, k + 2);
    // the terms of `left` from the second on are those of a' * b
    let da = conv_terms(derivative(a), b, k);
    assert forall|i: nat| i < k + 1 implies #[trigger] da(i) == left(i + 1) by {
        let j = (k - i) as nat;
        assert((k + 1 - (i + 1)) as nat == j);
        let (x, y) = (a(i + 1), b(j));
        assert(((i + 1) * x) * y == (i + 1) * (x * y)) by (nonlinear_arith);
    }
    lemma_sum_peel_first(left, da, k + 1);
    assert(left(0) == 0) by {
        assert(0 * t(0) == 0);
    }
    // the terms of `right` but the last are those of a * b'
    let db = conv_terms(a, derivative(b), k);
    assert forall|i: nat| i < k + 1 implies #[trigger] db(i) == right(i) by {
        let j = (k - i) as nat;
        assert((k + 1 - i) as nat == j + 1);
        let (x, y) = (a(i), b(j + 1));
        assert(x * ((j + 1) * y) == (k + 1 - i) * (x * y)) by (nonlinear_arith)
            requires
                j + 1 == k + 1 - i,
        ;
    }
    lemma_sum_ext(db, right, k + 1);
    assert(right((k + 1) as nat) == 0) by {
        assert(0 * t((k + 1) as nat) == 0);
    }
    assert(sum(right, k + 2) == sum(right, k + 1) + right((k + 1) as nat));
}

/// The product rule: `(a * b)' = a' * b + a * b'`.
pub proof fn lemma_product_rule(a: Series, b: Series)
    ensures
        derivative(times(a, b)) == plus(times(derivative(a), b), times(a, derivative(b))),
{
    let l = derivative(times(a, b));
    let r = plus(times(derivative(a), b), times(a, derivative(b)));
    assert forall|k: nat| #[trigger] l(k) == r(k) by {
        lemma_product_rule_at(a, b, k);
    }
    assert(l =~= r);
}

/// The derivative of the antiderivative is the series itself, over the field,
/// below the power of `x` whose index is the field's order.
pub proof fn lemma_derivative_of_antiderivative(a: Series, n: nat)
    requires
        n < MODULUS,
    ensures
        congruent(derivative(antiderivative(a)), a, n),
{
    assert forall|k: nat| k < n implies residue(#[trigger] derivative(antiderivative(a))(k))
        == residue(a(k)) by {
        let i = (k + 1) as int;
        lemma_nonzero_is_unit(i);
        let w = field_inv(i);
        assert(is_inverse_of(w, i));
        let x = a(k);
        assert(i * (x * w) == x * (i * w)) by (nonlinear_arith);
        lemma_residue_mul(x, i * w);
        assert(x * residue(i * w) == x) by (nonlinear_arith)
            requires
                residue(i * w) == 1,
        ;
    }
}

impl FPS {
    /// The derivative: the coefficient of `x^i` is the one of `x^(i + 1)`
    /// multiplied by `i + 1`. The result stores one coefficient less.
    pub fn differential(&self) -> (r: FPS)
        requires
            self.wf(),
        ensures
            r.wf(),
            r@ == differential_of(self@),
            r.series() == reduced(derivative(self.series())),
    {
        let mut a: Vec<u32> = Vec::new();
        let mut i: usize = 1;
        while i < self.len()
            invariant
                1 <= i,
                i <= self@.len() || i == 1,
                a@.len() == i - 1,
                canonical(a@),
                forall|j: int|
                    0 <= j < a@.len() ==> #[trigger] a@[j] == residue((j + 1) * self@[j + 1]),
            decreases self@.len() - i,
        {
            let c = mul_mod(self.at(i), reduce_usize(i));
            proof {
                lemma_residue_mul(self@[i as int] as int, i as int);
                assert(self@[i as int] * (i as int) == ((i - 1) + 1) * self@[i as int])
                    by (nonlinear_arith);
            }
            a.push(c);
            i += 1;
        }
        proof {
            let d = reduced(derivative(self.series()));
            assert forall|k: nat| #[trigger] coeffs(a@)(k) == d(k) by {
                if k < a@.len() {
                    assert(a@[k as int] == residue((k as int + 1) * self@[k as int + 1]));
                } else {
                    assert((k + 1) * 0 == 0);
                }
            }
            assert(coeffs(a@) =~= d);
            assert(a@ =~= differential_of(self@));
        }
        FPS::from_residues(a)
    }

    /// The antiderivative with constant term zero: the coefficient of `x^i`,
    /// for `i >= 1`, is the one of `x^(i - 1)` divided by `i`. The result
    /// stores one coefficient more. The series has to be shorter than the
    /// field's order, so that no index by which it divides is zero in the
    /// field.
    pub fn integral(&self) -> (r: FPS)
        requires
            self.wf(),
            self@.len() < MODULUS,
        ensures
            r.wf(),
            r@ == integral_of(self@),
            r.series() == reduced(antiderivative(self.series())),
            reduced(derivative(r.series())) == self.series(),
    {
        let mut a: Vec<u32> = Vec::new();
        a.push(0);
        let mut i: usize = 0;
        while i < self.len()
            invariant
                i <= self@.len(),
                self@.len() < MODULUS,
                self.wf(),
                a@.len() == i + 1,
                canonical(a@),
                a@[0] == 0,
                forall|j: int|
                    1 <= j < a@.len() ==> #[trigger] a@[j] == residue(
                        self@[j - 1] * field_inv(j),
                    ),
            decreases self@.len() - i,
        {
            let d = reduce_usize(i + 1);
            let w = invert(d);
            let c = mul_mod(self.at(i), w);
            a.push(c);
            i += 1;
        }
        proof {
            let f = self.series();
            let g = reduced(antiderivative(f));
            assert forall|k: nat| #[trigger] coeffs(a@)(k) == g(k) by {
                if 1 <= k && k < a@.len() {
                    assert(a@[k as int] == residue(self@[k - 1] * field_inv(k as int)));
                } else if k >= a@.len() {
                    assert(0 * field_inv(k as int) == 0);
                }
            }
            assert(coeffs(a@) =~= g);
            lemma_derivative_of_antiderivative(f, self@.len() as nat);
            lemma_derivative_congruent(g, antiderivative(f), self@.len() as nat);
            let dg = reduced(derivative(g));
            assert forall|k: nat| #[trigger] dg(k) == f(k) by {
                if k < self@.len() {
                    assert(residue(derivative(g)(k)) == residue(derivative(antiderivative(f))(k)));
                    assert(self@[k as int] < MODULUS);
                } else {
                    assert(g(k + 1) == residue(0 * field_inv((k + 1) as int)));
                    assert(0 * field_inv((k + 1) as int) == 0);
                    assert((k + 1) * 0 == 0);
                }
            }
            assert(dg =~= f);
            assert(a@ =~= integral_of(self@));
        }
        FPS::from_residues(a)
    }
}

} // verus!
