//! What holds between the operations of the library, stated over the stored
//! coefficients of their arguments and results.

use crate::calculus::{differential_of, integral_of};
use crate::field::{field_inv, is_inverse_of, lemma_residue_mul, residue, MODULUS};
use crate::fps::{
    canonical, coeffs, lemma_congruent_stored, lemma_product_of, prefix, product_of, stored,
};
use crate::inverse::{inverse_of, lemma_inverse_exists};
use crate::log_exp::{exp_of, is_log, lemma_exp_exists, lemma_log_exists, lemma_log_of_exp, log_of};
use crate::power::{lemma_power_vanishes, power, power_of};
use crate::series::{congruent, lemma_times_comm, lemma_times_congruent, one, reduced, times, zero};
use crate::units::lemma_nonzero_is_unit;
use vstd::prelude::*;

verus! {

/// The first `k` coefficients of the series stored in `s` are zero.
pub open spec fn leading_zeros(s: Seq<u32>, k: nat) -> bool {
    forall|i: nat| i < k ==> #[trigger] coeffs(s)(i) == 0
}

/// A series times its inverse is one: the first `n` coefficients of the
/// product of a series with constant term not zero and its inverse to `n`
/// coefficients are those of the constant series 1.
pub proof fn inverse_times_series_is_one(f: Seq<u32>, n: nat)
    requires
        canonical(f),
        coeffs(f)(0) != 0,
        n >= 1,
    ensures
        prefix(product_of(f, inverse_of(f, n)), n) == prefix(seq![1u32], n),
{
    assert(f[0] < MODULUS);
    lemma_inverse_exists(f, n);
    let g = inverse_of(f, n);
    lemma_product_of(f, g);
    let p = prefix(product_of(f, g), n);
    let u = prefix(seq![1u32], n);
    let fg = times(coeffs(f), coeffs(g));
    assert forall|i: int| 0 <= i < n implies p[i] == u[i] by {
        let k = i as nat;
        assert(residue(fg(k)) == residue(one()(k)));
        assert(coeffs(product_of(f, g))(k) == residue(fg(k)));
    }
    assert(p =~= u);
}

/// A product does not depend on the order of its factors, nor on which of
/// them is stored with trailing zeros: the two products have the same
/// coefficients.
pub proof fn product_commutes(f: Seq<u32>, g: Seq<u32>)
    ensures
        coeffs(product_of(f, g)) == coeffs(product_of(g, f)),
{
    lemma_times_comm(coeffs(f), coeffs(g));
    lemma_product_of(f, g);
    lemma_product_of(g, f);
}

/// The logarithm inverts the exponential: the logarithm, to `n` coefficients,
/// of the exponential, to `n` coefficients, of a series with constant term
/// zero holds the first `n` coefficients of the series.
pub proof fn log_inverts_exp(f: Seq<u32>, n: nat)
    requires
        canonical(f),
        coeffs(f)(0) == 0,
        n <= MODULUS,
    ensures
        log_of(exp_of(f, n), n) == prefix(f, n),
{
    lemma_exp_exists(f, n);
    let g = exp_of(f, n);
    if n >= 1 {
        assert(g[0] < MODULUS);
        assert(coeffs(g)(0) == 1);
    }
    if n == 0 {
        let h = Seq::<u32>::empty();
        assert(h.len() == n && canonical(h) && is_log(coeffs(g), coeffs(h), n));
    } else {
        lemma_log_exists(g, n);
    }
    let h = log_of(g, n);
    lemma_log_of_exp(coeffs(f), coeffs(g), coeffs(h), n);
    let p = prefix(f, n);
    assert forall|k: nat| k < n implies residue(#[trigger] coeffs(h)(k)) == residue(
        coeffs(p)(k),
    ) by {
        assert(residue(coeffs(h)(k)) == residue(coeffs(f)(k)));
    }
    assert(canonical(p)) by {
        assert forall|i: int| 0 <= i < p.len() implies #[trigger] p[i] < MODULUS by {
            if i < f.len() {
                assert(f[i] < MODULUS);
            }
        }
    }
    lemma_congruent_stored(h, p);
}

/// The derivative of the antiderivative of a series is the series itself.
pub proof fn differential_inverts_integral(f: Seq<u32>)
    requires
        canonical(f),
        f.len() < MODULUS,
    ensures
        differential_of(integral_of(f)) == f,
{
    let g = integral_of(f);
    let d = differential_of(g);
    assert forall|i: int| 0 <= i < f.len() implies d[i] == f[i] by {
        let k = i + 1;
        let x = f[i] as int;
        lemma_nonzero_is_unit(k);
        let w = field_inv(k);
        assert(is_inverse_of(w, k));
        assert(g[k] == residue(x * w));
        lemma_residue_mul(k, x * w);
        assert(k * (x * w) == x * (k * w)) by (nonlinear_arith);
        lemma_residue_mul(x, k * w);
        assert(x * residue(k * w) == x) by (nonlinear_arith)
            requires
                residue(k * w) == 1,
        ;
        assert(f[i] < MODULUS);
    }
    assert(d =~= f);
}

/// The antiderivative of the derivative of a series is the series with its
/// constant term put to zero. (Of a series that stores nothing it is the one
/// coefficient zero.)
pub proof fn integral_of_differential_drops_constant(f: Seq<u32>)
    requires
        canonical(f),
        f.len() <= MODULUS,
    ensures
        f.len() >= 1 ==> integral_of(differential_of(f)) == f.update(0, 0u32),
        f.len() == 0 ==> integral_of(differential_of(f)) == seq![0u32],
{
    let d = differential_of(f);
    let g = integral_of(d);
    if f.len() >= 1 {
        let z = f.update(0, 0u32);
        assert forall|i: int| 0 <= i < f.len() implies g[i] == z[i] by {
            if i >= 1 {
                let x = f[i] as int;
                lemma_nonzero_is_unit(i);
                let w = field_inv(i);
                assert(is_inverse_of(w, i));
                assert(d[i - 1] == residue(i * x));
                lemma_residue_mul(i * x, w);
                assert((i * x) * w == x * (i * w)) by (nonlinear_arith);
                lemma_residue_mul(x, i * w);
                assert(x * residue(i * w) == x) by (nonlinear_arith)
                    requires
                        residue(i * w) == 1,
                ;
                assert(f[i] < MODULUS);
            }
        }
        assert(g =~= z);
    } else {
        assert(g =~= seq![0u32]);
    }
}

/// A power is a repeated product: the first `n` coefficients of the product
/// of the series and its power `e` to `n` coefficients are the power `e + 1`
/// to `n` coefficients.
pub proof fn power_is_repeated_product(f: Seq<u32>, n: nat, e: nat)
    ensures
        power_of(f, n, e + 1) == prefix(product_of(power_of(f, n, e), f), n),
{
    let a = coeffs(f);
    let p = power(a, e);
    let next = power(a, e + 1);
    let r = power_of(f, n, e);
    assert(next == times(a, p));
    lemma_times_comm(a, p);
    assert(congruent(coeffs(r), p, n)) by {
        assert forall|k: nat| k < n implies residue(#[trigger] coeffs(r)(k)) == residue(p(k)) by {
            assert(r[k as int] == reduced(p)(k) as u32);
        }
    }
    assert(congruent(a, a, n));
    lemma_times_congruent(coeffs(r), a, p, a, n);
    lemma_product_of(r, f);
    let left = prefix(product_of(r, f), n);
    let right = power_of(f, n, e + 1);
    assert forall|i: int| 0 <= i < n implies left[i] == right[i] by {
        let k = i as nat;
        assert(residue(times(coeffs(r), a)(k)) == residue(times(p, a)(k)));
        assert(coeffs(product_of(r, f))(k) == residue(times(coeffs(r), a)(k)));
    }
    assert(left =~= right);
}

/// The two boundaries of a power. With the exponent zero it is the series 1,
/// whatever the series. And where the first `k` coefficients of the series are
/// zero and `k * e >= n`, it is `n` zeros.
pub proof fn power_boundaries(f: Seq<u32>, n: nat, e: nat)
    ensures
        power_of(f, n, 0) == prefix(seq![1u32], n),
        forall|k: nat| #[trigger]
            leading_zeros(f, k) && k * e >= n ==> power_of(f, n, e) == prefix(Seq::empty(), n),
{
    assert(power_of(f, n, 0) =~= prefix(seq![1u32], n));
    assert forall|k: nat| #[trigger] leading_zeros(f, k) && k * e >= n implies power_of(f, n, e)
        == prefix(Seq::empty(), n) by {
        assert(congruent(coeffs(f), zero(), k)) by {
            assert forall|i: nat| i < k implies residue(#[trigger] coeffs(f)(i)) == residue(
                zero()(i),
            ) by {}
        }
        lemma_power_vanishes(coeffs(f), k, e);
        let r = power_of(f, n, e);
        let z = prefix(Seq::<u32>::empty(), n);
        assert forall|i: int| 0 <= i < n implies r[i] == z[i] by {
            assert(residue(power(coeffs(f), e)(i as nat)) == residue(zero()(i as nat)));
        }
        assert(r =~= z);
    }
}

} // verus!
