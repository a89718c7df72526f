//! The logarithm and the exponential of a series.
//!
//! Both are stated by the differential equation that defines them: the
//! logarithm `h` of `f` has `f * h' = f'` and constant term zero, the
//! exponential `g` of `f` has `g' = f' * g` and constant term one.

use crate::calculus::{
    antiderivative, derivative, lemma_derivative_congruent, lemma_derivative_of_antiderivative,
    lemma_derivative_plus, lemma_product_rule, one_less,
};
use crate::field::{
    field_inv, is_inverse_of, is_unit, lemma_cancel_unit, lemma_residue_mul,
    lemma_residue_mul_congruent, lemma_residue_mul_zero, residue, MODULUS,
};
use crate::fps::{
    canonical, coeffs, lemma_congruent_stored, lemma_conv_extended, lemma_shrunk_len_bounds, stored,
    FPS,
};
use crate::inverse::{inverse_of, is_inverse, lemma_inverse_exists, PRECISION_LIMIT};
use crate::series::{
    congruent, constant, conv, conv_terms, lemma_conv_congruent, lemma_conv_first,
    lemma_times_assoc, lemma_times_comm, lemma_times_congruent, lemma_times_minus, lemma_times_one,
    lemma_times_plus, lemma_times_vanishes, minus, one, plus, reduced, times, zero, Series,
};
use crate::sums::{lemma_sum_congruent, lemma_sum_peel_first, lemma_sum_zero};
use crate::units::lemma_nonzero_is_unit;
use vstd::arithmetic::power2::{lemma2_to64, lemma_pow2_strictly_increases, lemma_pow2_unfold, pow2};
use vstd::prelude::*;

verus! {

/// `h` is the logarithm of `f` modulo `x^n`: its constant term is zero and
/// `f * h' = f'` up to `x^(n - 1)`, over the field.
pub open spec fn is_log(f: Series, h: Series, n: nat) -> bool {
    &&& n >= 1 ==> residue(h(0)) == 0
    &&& congruent(times(f, derivative(h)), derivative(f), one_less(n))
}

/// `g` is the exponential of `f` modulo `x^n`: its constant term is one and
/// `g' = f' * g` up to `x^(n - 1)`, over the field.
pub open spec fn is_exp(f: Series, g: Series, n: nat) -> bool {
    &&& n >= 1 ==> residue(g(0)) == 1
    &&& congruent(derivative(g), times(derivative(f), g), one_less(n))
}

/// The logarithm of the stored series `f` with `n` coefficients.
pub open spec fn log_of(f: Seq<u32>, n: nat) -> Seq<u32> {
    choose|h: Seq<u32>| h.len() == n && canonical(h) && is_log(coeffs(f), coeffs(h), n)
}

/// The exponential of the stored series `f` with `n` coefficients.
pub open spec fn exp_of(f: Seq<u32>, n: nat) -> Seq<u32> {
    choose|g: Seq<u32>| g.len() == n && canonical(g) && is_exp(coeffs(f), coeffs(g), n)
}

/// The coefficient that extends an exponential `g` of `f` by one term: the
/// next coefficient of `f' * g` divided by its index, or one where `g` is
/// empty.
pub open spec fn next_exp_coefficient(f: Series, g: Seq<u32>) -> u32 {
    if g.len() == 0 {
        1u32
    } else {
        residue(
            field_inv(g.len() as int) * conv(derivative(f), coeffs(g), (g.len() - 1) as nat),
        ) as u32
    }
}

/// An exponential of `f` with `n` coefficients, built one coefficient at a
/// time.
pub open spec fn exp_by_recurrence(f: Series, n: nat) -> Seq<u32>
    decreases n,
{
    if n == 0 {
        Seq::empty()
    } else {
        let g = exp_by_recurrence(f, (n - 1) as nat);
        g.push(next_exp_coefficient(f, g))
    }
}

/// A factor whose constant term has an inverse can be cancelled from a
/// product that vanishes: the coefficient of `x^k`.
proof fn lemma_cancel_leading_at(g: Series, d: Series, n: nat, k: nat)
    requires
        is_unit(g(0)),
        congruent(times(g, d), zero(), n),
        k < n,
    ensures
        residue(d(k)) == 0,
    decreases k,
{
    assert forall|j: nat| j < k implies residue(#[trigger] d(j)) == 0 by {
        lemma_cancel_leading_at(g, d, n, j);
    }
    let s = conv_terms(g, d, k);
    let rest = |i: nat| s(i + 1);
    let z = zero();
    assert forall|i: nat| i < k implies residue(#[trigger] rest(i)) == residue(z(i)) by {
        let j = (k - (i + 1)) as nat;
        assert(residue(d(j)) == 0);
        lemma_residue_mul_zero(g(i + 1), d(j));
    }
    lemma_sum_congruent(rest, z, k);
    lemma_sum_zero(z, k);
    lemma_sum_peel_first(s, rest, k);
    assert(residue(times(g, d)(k)) == residue(zero()(k)));
    assert(s(0) == g(0) * d(k));
    assert(residue(g(0) * d(k)) == 0);
    assert(g(0) * 0 == 0);
    lemma_cancel_unit(g(0), d(k), 0);
}

/// A factor whose constant term has an inverse can be cancelled from a
/// product that vanishes.
pub proof fn lemma_cancel_leading(g: Series, d: Series, n: nat)
    requires
        is_unit(g(0)),
        congruent(times(g, d), zero(), n),
    ensures
        congruent(d, zero(), n),
{
    assert forall|k: nat| k < n implies residue(#[trigger] d(k)) == residue(zero()(k)) by {
        lemma_cancel_leading_at(g, d, n, k);
    }
}

/// Series with congruent derivatives and congruent constant terms are
/// congruent, up to the power of `x` whose index is the field's order.
pub proof fn lemma_congruent_from_derivative(a: Series, b: Series, n: nat)
    requires
        n <= MODULUS,
        n >= 1 ==> residue(a(0)) == residue(b(0)),
        congruent(derivative(a), derivative(b), one_less(n)),
    ensures
        congruent(a, b, n),
{
    assert forall|k: nat| k < n implies residue(#[trigger] a(k)) == residue(b(k)) by {
        if k > 0 {
            let j = (k - 1) as nat;
            assert(residue(derivative(a)(j)) == residue(derivative(b)(j)));
            lemma_nonzero_is_unit(k as int);
            lemma_cancel_unit(k as int, a(k), b(k));
        }
    }
}

/// Two solutions of `y' = a * y` with congruent constant terms are congruent:
/// the coefficient of `x^k`.
proof fn lemma_ode_unique_at(a: Series, y: Series, z: Series, n: nat, k: nat)
    requires
        n <= MODULUS,
        k < n,
        residue(y(0)) == residue(z(0)),
        congruent(derivative(y), times(a, y), one_less(n)),
        congruent(derivative(z), times(a, z), one_less(n)),
    ensures
        residue(y(k)) == residue(z(k)),
    decreases k,
{
    if k > 0 {
        let j = (k - 1) as nat;
        assert forall|i: nat| i < j + 1 implies residue(#[trigger] y(i)) == residue(z(i)) by {
            lemma_ode_unique_at(a, y, z, n, i);
        }
        assert(congruent(a, a, j + 1));
        lemma_conv_congruent(a, y, a, z, j);
        assert(residue(derivative(y)(j)) == residue(times(a, y)(j)));
        assert(residue(derivative(z)(j)) == residue(times(a, z)(j)));
        lemma_nonzero_is_unit(k as int);
        lemma_cancel_unit(k as int, y(k), z(k));
    }
}

/// Two solutions of `y' = a * y` with congruent constant terms are congruent,
/// up to the power of `x` whose index is the field's order.
pub proof fn lemma_ode_unique(a: Series, y: Series, z: Series, n: nat)
    requires
        n <= MODULUS,
        n >= 1 ==> residue(y(0)) == residue(z(0)),
        congruent(derivative(y), times(a, y), one_less(n)),
        congruent(derivative(z), times(a, z), one_less(n)),
    ensures
        congruent(y, z, n),
{
    assert forall|k: nat| k < n implies residue(#[trigger] y(k)) == residue(z(k)) by {
        lemma_ode_unique_at(a, y, z, n, k);
    }
}

/// The logarithm of the exponential of `f` is `f`.
pub proof fn lemma_log_of_exp(f: Series, g: Series, h: Series, n: nat)
    requires
        n <= MODULUS,
        residue(f(0)) == 0,
        is_exp(f, g, n),
        is_log(g, h, n),
    ensures
        congruent(h, f, n),
{
    if n >= 1 {
        let low = one_less(n);
        let df = derivative(f);
        let dg = derivative(g);
        let dh = derivative(h);
        assert(is_unit(g(0))) by {
            assert(g(0) * 1 == g(0));
            assert(is_inverse_of(1, g(0)));
        }
        // g * h' = g' = g * f', and g can be cancelled
        lemma_times_minus(g, dh, df);
        lemma_times_comm(g, df);
        let d = minus(dh, df);
        assert forall|k: nat| k < low implies residue(#[trigger] times(g, d)(k)) == residue(
            zero()(k),
        ) by {
            assert(residue(times(g, dh)(k)) == residue(dg(k)));
            assert(residue(dg(k)) == residue(times(df, g)(k)));
            assert(times(g, d)(k) == times(g, dh)(k) - times(g, df)(k));
        }
        lemma_cancel_leading(g, d, low);
        assert forall|k: nat| k < low implies residue(#[trigger] dh(k)) == residue(df(k)) by {
            assert(residue(d(k)) == residue(zero()(k)));
        }
        lemma_congruent_from_derivative(h, f, n);
    }
}

/// A series with constant term one has one logarithm to each precision.
pub proof fn lemma_log_is_unique(f: Series, h: Series, l: Series, n: nat)
    requires
        n <= MODULUS,
        residue(f(0)) == 1,
        is_log(f, h, n),
        is_log(f, l, n),
    ensures
        congruent(h, l, n),
{
    if n >= 1 {
        let low = one_less(n);
        let dh = derivative(h);
        let dl = derivative(l);
        assert(is_unit(f(0))) by {
            assert(f(0) * 1 == f(0));
            assert(is_inverse_of(1, f(0)));
        }
        lemma_times_minus(f, dh, dl);
        let d = minus(dh, dl);
        assert forall|k: nat| k < low implies residue(#[trigger] times(f, d)(k)) == residue(
            zero()(k),
        ) by {
            assert(residue(times(f, dh)(k)) == residue(derivative(f)(k)));
            assert(residue(times(f, dl)(k)) == residue(derivative(f)(k)));
            assert(times(f, d)(k) == times(f, dh)(k) - times(f, dl)(k));
        }
        lemma_cancel_leading(f, d, low);
        assert forall|k: nat| k < low implies residue(#[trigger] dh(k)) == residue(dl(k)) by {
            assert(residue(d(k)) == residue(zero()(k)));
        }
        lemma_congruent_from_derivative(h, l, n);
    }
}

/// A series has one exponential to each precision.
pub proof fn lemma_exp_is_unique(f: Series, g: Series, h: Series, n: nat)
    requires
        n <= MODULUS,
        is_exp(f, g, n),
        is_exp(f, h, n),
    ensures
        congruent(g, h, n),
{
    lemma_ode_unique(derivative(f), g, h, n);
}

/// The recurrence builds an exponential.
pub proof fn lemma_exp_by_recurrence(f: Series, n: nat)
    requires
        n <= MODULUS,
    ensures
        exp_by_recurrence(f, n).len() == n,
        canonical(exp_by_recurrence(f, n)),
        is_exp(f, coeffs(exp_by_recurrence(f, n)), n),
    decreases n,
{
    if n > 0 {
        let k = (n - 1) as nat;
        let g = exp_by_recurrence(f, k);
        lemma_exp_by_recurrence(f, k);
        let c = next_exp_coefficient(f, g);
        let h = g.push(c);
        let df = derivative(f);
        lemma_conv_extended(df, g, c);
        assert forall|j: int| 0 <= j < h.len() implies #[trigger] h[j] < MODULUS by {
            if j < k {
                assert(h[j] == g[j]);
            }
        }
        if k > 0 {
            assert(coeffs(h)(0) == coeffs(g)(0));
        }
        assert forall|j: nat| j < k implies residue(#[trigger] derivative(coeffs(h))(j))
            == residue(times(df, coeffs(h))(j)) by {
            assert(conv(df, coeffs(h), j) == conv(df, coeffs(g), j));
            if j + 1 < k {
                assert(coeffs(h)(j + 1) == coeffs(g)(j + 1));
                assert(residue(derivative(coeffs(g))(j)) == residue(times(df, coeffs(g))(j)));
            } else {
                let w = field_inv(k as int);
                let y = conv(df, coeffs(g), j);
                lemma_nonzero_is_unit(k as int);
                assert(is_inverse_of(w, k as int));
                assert(coeffs(h)(k) == residue(w * y));
                lemma_residue_mul(k as int, w * y);
                assert(k * (w * y) == (k * w) * y) by (nonlinear_arith);
                lemma_residue_mul(k * w, y);
                assert(residue(k * w) * y == y) by (nonlinear_arith)
                    requires
                        residue(k * w) == 1,
                ;
            }
        }
    }
}

/// A series has an exponential of each length up to the field's order, and
/// `exp_of` is that exponential.
pub proof fn lemma_exp_exists(f: Seq<u32>, n: nat)
    requires
        n <= MODULUS,
    ensures
        exp_of(f, n).len() == n,
        canonical(exp_of(f, n)),
        is_exp(coeffs(f), coeffs(exp_of(f, n)), n),
{
    lemma_exp_by_recurrence(coeffs(f), n);
    let g = exp_by_recurrence(coeffs(f), n);
    assert(g.len() == n && canonical(g) && is_exp(coeffs(f), coeffs(g), n));
}

/// A series whose constant term is not zero has a logarithm of each length up
/// to the field's order, and `log_of` is that logarithm.
pub proof fn lemma_log_exists(f: Seq<u32>, n: nat)
    requires
        n <= MODULUS,
        residue(coeffs(f)(0)) != 0,
    ensures
        log_of(f, n).len() == n,
        canonical(log_of(f, n)),
        is_log(coeffs(f), coeffs(log_of(f, n)), n),
{
    let a = coeffs(f);
    lemma_inverse_exists(f, n);
    let g = coeffs(inverse_of(f, n));
    let q = times(derivative(a), g);
    let h = stored(reduced(antiderivative(q)), n);
    let m = one_less(n);
    if n >= 1 {
        assert(congruent(coeffs(h), antiderivative(q), n)) by {
            assert forall|k: nat| k < n implies residue(#[trigger] coeffs(h)(k)) == residue(
                antiderivative(q)(k),
            ) by {
                assert(h[k as int] == reduced(antiderivative(q))(k) as u32);
            }
        }
        lemma_derivative_congruent(coeffs(h), antiderivative(q), m);
        lemma_derivative_of_antiderivative(q, m);
        assert(congruent(derivative(coeffs(h)), q, m)) by {
            assert forall|k: nat| k < m implies residue(#[trigger] derivative(coeffs(h))(k))
                == residue(q(k)) by {
                assert(residue(derivative(coeffs(h))(k)) == residue(
                    derivative(antiderivative(q))(k),
                ));
            }
        }
        assert(congruent(q, q, m));
        assert(is_inverse(a, g, m));
        lemma_log_from_quotient(a, g, q, coeffs(h), m);
        assert(h[0] == reduced(antiderivative(q))(0) as u32);
    }
    assert(canonical(h)) by {
        assert forall|i: int| 0 <= i < h.len() implies #[trigger] h[i] < MODULUS by {
            assert(h[i] == reduced(antiderivative(q))(i as nat) as u32);
        }
    }
    assert(h.len() == n && canonical(h) && is_log(a, coeffs(h), n));
}

/// What meets the promise of `log_n` is the logarithm.
pub proof fn lemma_log_of(f: Seq<u32>, h: Seq<u32>)
    requires
        h.len() <= MODULUS,
        coeffs(f)(0) == 1,
        canonical(h),
        is_log(coeffs(f), coeffs(h), h.len()),
    ensures
        h == log_of(f, h.len()),
{
    let l = log_of(f, h.len());
    lemma_log_is_unique(coeffs(f), coeffs(h), coeffs(l), h.len());
    lemma_congruent_stored(h, l);
}

/// What meets the promise of `exp_n` is the exponential.
pub proof fn lemma_exp_of(f: Seq<u32>, g: Seq<u32>)
    requires
        g.len() <= MODULUS,
        canonical(g),
        is_exp(coeffs(f), coeffs(g), g.len()),
    ensures
        g == exp_of(f, g.len()),
{
    let h = exp_of(f, g.len());
    lemma_exp_is_unique(coeffs(f), coeffs(g), coeffs(h), g.len());
    lemma_congruent_stored(g, h);
}

/// The quotient `f' / f`, integrated, is the logarithm of `f`.
pub proof fn lemma_log_from_quotient(f: Series, g: Series, q: Series, h: Series, n: nat)
    requires
        is_inverse(f, g, n),
        congruent(q, times(derivative(f), g), n),
        congruent(derivative(h), q, n),
    ensures
        congruent(times(f, derivative(h)), derivative(f), n),
{
    let df = derivative(f);
    let dh = derivative(h);
    // f * h' = f * (f' * g) = f' * (f * g) = f'
    assert(congruent(dh, times(df, g), n)) by {
        assert forall|k: nat| k < n implies residue(#[trigger] dh(k)) == residue(
            times(df, g)(k),
        ) by {
            assert(residue(dh(k)) == residue(q(k)));
        }
    }
    lemma_times_congruent(f, dh, f, times(df, g), n);
    lemma_times_comm(df, g);
    lemma_times_assoc(f, g, df);
    lemma_times_comm(times(f, g), df);
    assert(times(f, times(df, g)) == times(df, times(f, g)));
    lemma_times_congruent(df, times(f, g), df, one(), n);
    lemma_times_one(df);
    assert forall|k: nat| k < n implies residue(#[trigger] times(f, dh)(k)) == residue(df(k)) by {
        assert(residue(times(f, dh)(k)) == residue(times(f, times(df, g))(k)));
        assert(residue(times(df, times(f, g))(k)) == residue(times(df, one())(k)));
    }
}

/// A series congruent to an exponential is an exponential too, to the
/// precision of the congruence.
pub proof fn lemma_exp_congruent(f: Series, g: Series, h: Series, n: nat, m: nat)
    requires
        is_exp(f, g, m),
        n <= m,
        congruent(h, g, n),
    ensures
        is_exp(f, h, n),
{
    if n >= 1 {
        let df = derivative(f);
        lemma_derivative_congruent(h, g, (n - 1) as nat);
        lemma_times_congruent(df, h, df, g, n);
        assert forall|k: nat| k < n - 1 implies residue(#[trigger] derivative(h)(k)) == residue(
            times(df, h)(k),
        ) by {
            assert(residue(derivative(h)(k)) == residue(derivative(g)(k)));
            assert(residue(derivative(g)(k)) == residue(times(df, g)(k)));
            assert(residue(times(df, h)(k)) == residue(times(df, g)(k)));
        }
        assert(residue(h(0)) == residue(g(0)));
    }
}

/// The identity behind a round of Newton's iteration for the exponential:
/// for `w = g * (1 + f - l)`, the defect `w' - f' * w` is
/// `(g' - g * l') + (g' - f' * g) * (f - l)`.
proof fn lemma_newton_exp_residual(f: Series, g: Series, l: Series)
    ensures
        minus(
            derivative(times(g, minus(plus(f, one()), l))),
            times(derivative(f), times(g, minus(plus(f, one()), l))),
        ) == plus(
            minus(derivative(g), times(g, derivative(l))),
            times(minus(derivative(g), times(derivative(f), g)), minus(f, l)),
        ),
{
    let df = derivative(f);
    let dg = derivative(g);
    let dl = derivative(l);
    let h = minus(f, l);
    let w = minus(plus(f, one()), l);
    let gw = times(g, w);
    assert(w =~= plus(one(), h));
    // g * w = g + g * h
    lemma_times_plus(g, one(), h);
    lemma_times_one(g);
    assert(gw == plus(g, times(g, h)));
    // (g * w)' = g' + g' * h + g * h'
    lemma_derivative_plus(g, times(g, h));
    lemma_product_rule(g, h);
    // h' = f' - l'
    lemma_derivative_plus(f, l);
    lemma_times_minus(g, df, dl);
    // f' * (g * w) = f' * g + (f' * g) * h
    lemma_times_plus(df, g, times(g, h));
    lemma_times_assoc(df, g, h);
    // (g' - f' * g) * h = g' * h - (f' * g) * h
    lemma_times_minus(h, dg, times(df, g));
    lemma_times_comm(g, df);
    let left = minus(derivative(gw), times(df, gw));
    let right = plus(minus(dg, times(g, dl)), times(minus(dg, times(df, g)), h));
    assert forall|k: nat| #[trigger] left(k) == right(k) by {
        assert(derivative(gw)(k) == dg(k) + (times(dg, h)(k) + times(g, derivative(h))(k)));
        assert(times(g, derivative(h))(k) == times(g, df)(k) - times(g, dl)(k));
        assert(times(df, gw)(k) == times(df, g)(k) + times(times(df, g), h)(k));
        assert(times(minus(dg, times(df, g)), h)(k) == times(dg, h)(k) - times(times(df, g), h)(k));
    }
    assert(left =~= right);
}

/// One round of Newton's iteration doubles the precision of an exponential:
/// where `g` is the exponential of `f` modulo `x^m` and `l` the logarithm of
/// `g` modulo `x^(2m)`, the series `g * (1 + f - l)` is the exponential of `f`
/// modulo `x^(2m)`.
pub proof fn lemma_newton_exp_doubles(f: Series, g: Series, l: Series, big: Series, m: nat)
    requires
        m >= 1,
        residue(f(0)) == 0,
        is_exp(f, g, m),
        is_log(g, l, 2 * m),
        m <= MODULUS,
        congruent(big, times(g, minus(plus(f, one()), l)), 2 * m),
    ensures
        is_exp(f, big, 2 * m),
{
    let df = derivative(f);
    let dg = derivative(g);
    let dl = derivative(l);
    let h = minus(f, l);
    let w = minus(plus(f, one()), l);
    let gw = times(g, w);
    let low = (m - 1) as nat;
    let high = (2 * m - 1) as nat;
    // l is f modulo x^m
    lemma_log_of_exp(f, g, l, m);
    assert(congruent(h, zero(), m)) by {
        assert forall|k: nat| k < m implies residue(#[trigger] h(k)) == residue(zero()(k)) by {
            assert(residue(l(k)) == residue(f(k)));
        }
    }
    // the defect of g * w vanishes up to x^(2m - 1)
    lemma_newton_exp_residual(f, g, l);
    let e1 = minus(dg, times(g, dl));
    let e2 = minus(dg, times(df, g));
    assert(congruent(e2, zero(), low)) by {
        assert forall|k: nat| k < low implies residue(#[trigger] e2(k)) == residue(zero()(k)) by {
            assert(residue(dg(k)) == residue(times(df, g)(k)));
        }
    }
    lemma_times_vanishes(e2, h, low, m);
    let defect = minus(derivative(gw), times(df, gw));
    assert forall|k: nat| k < high implies residue(#[trigger] derivative(gw)(k)) == residue(
        times(df, gw)(k),
    ) by {
        assert(residue(times(g, dl)(k)) == residue(dg(k)));
        assert(residue(times(e2, h)(k)) == residue(zero()(k)));
        assert(defect(k) == e1(k) + times(e2, h)(k));
        assert(defect(k) == derivative(gw)(k) - times(df, gw)(k));
    }
    // and so does the defect of anything congruent to it
    lemma_derivative_congruent(big, gw, high);
    lemma_times_congruent(df, big, df, gw, 2 * m);
    assert forall|k: nat| k < high implies residue(#[trigger] derivative(big)(k)) == residue(
        times(df, big)(k),
    ) by {
        assert(residue(derivative(big)(k)) == residue(derivative(gw)(k)));
        assert(residue(times(df, big)(k)) == residue(times(df, gw)(k)));
    }
    // the constant term is one
    lemma_conv_first(g, w);
    assert(residue(w(0)) == 1) by {
        assert(w(0) == f(0) + 1 - l(0));
    }
    lemma_residue_mul_congruent(g(0), w(0), 1, 1);
    assert(residue(big(0)) == residue(gw(0)));
}

impl FPS {
    /// The first `n` coefficients of the logarithm of a series with constant
    /// term one: the series `h` of length `n` with constant term zero and
    /// `self * h' = self'` modulo `x^(n - 1)`.
    pub fn log_n(&self, n: usize) -> (r: FPS)
        requires
            self.wf(),
            self.series()(0) == 1,
            n <= PRECISION_LIMIT,
        ensures
            r.wf(),
            r@.len() == n,
            is_log(self.series(), r.series(), n as nat),
            r@ == log_of(self@, n as nat),
    {
        if n == 0 {
            let r = FPS::new();
            proof {
                lemma_log_of(self@, r@);
            }
            return r;
        }
        let ghost f = self.series();
        let head = self.pre(n);
        let d = head.differential();
        let g = self.inv_n(n);
        let mut prod = d.clone();
        proof {
            lemma_shrunk_len_bounds(prod@);
        }
        prod.mul_assign(&g);
        let q = prod.pre(n - 1);
        let r = q.integral();
        proof {
            let low = (n - 1) as nat;
            let df = derivative(f);
            assert(congruent(head.series(), f, n as nat)) by {
                assert forall|k: nat| k < n implies residue(#[trigger] head.series()(k))
                    == residue(f(k)) by {
                    assert(head@[k as int] == f(k));
                }
            }
            lemma_derivative_congruent(head.series(), f, low);
            assert(congruent(d.series(), df, low));
            assert(congruent(g.series(), g.series(), low));
            lemma_times_congruent(d.series(), g.series(), df, g.series(), low);
            assert(congruent(q.series(), times(df, g.series()), low)) by {
                assert forall|k: nat| k < low implies residue(#[trigger] q.series()(k))
                    == residue(times(df, g.series())(k)) by {
                    assert(q@[k as int] == prod.series()(k));
                    assert(residue(times(d.series(), g.series())(k)) == residue(
                        times(df, g.series())(k),
                    ));
                }
            }
            assert(congruent(derivative(r.series()), q.series(), low)) by {
                assert forall|k: nat| k < low implies residue(
                    #[trigger] derivative(r.series())(k),
                ) == residue(q.series()(k)) by {
                    assert(reduced(derivative(r.series()))(k) == q.series()(k));
                }
            }
            lemma_log_from_quotient(f, g.series(), q.series(), r.series(), low);
            assert(r.series()(0) == reduced(antiderivative(q.series()))(0));
            lemma_log_of(self@, r@);
        }
        r
    }

    /// The logarithm to as many coefficients as the series stores.
    pub fn log(&self) -> (r: FPS)
        requires
            self.wf(),
            self.series()(0) == 1,
            self@.len() <= PRECISION_LIMIT,
        ensures
            r.wf(),
            r@.len() == self@.len(),
            is_log(self.series(), r.series(), self@.len()),
            r@ == log_of(self@, self@.len()),
    {
        self.log_n(self.len())
    }

    /// The first `n` coefficients of the exponential of a series with constant
    /// term zero: the series `g` of length `n` with constant term one and
    /// `g' = self' * g` modulo `x^(n - 1)`.
    pub fn exp_n(&self, n: usize) -> (r: FPS)
        requires
            self.wf(),
            self.series()(0) == 0,
            n <= PRECISION_LIMIT,
        ensures
            r.wf(),
            r@.len() == n,
            is_exp(self.series(), r.series(), n as nat),
            r@ == exp_of(self@, n as nat),
    {
        let ghost f = self.series();
        let mut ret = FPS::constant(1);
        let mut p: usize = 1;
        let ghost e: nat = 0;
        proof {
            lemma2_to64();
            assert(ret@[0] == 1);
            assert(ret.series()(0) == 1);
        }
        while p < n
            invariant
                p == pow2(e),
                n <= PRECISION_LIMIT,
                self.wf(),
                f == self.series(),
                residue(f(0)) == 0,
                ret.wf(),
                ret@.len() == p,
                is_exp(f, ret.series(), p as nat),
            decreases PRECISION_LIMIT - p,
        {
            proof {
                lemma2_to64();
                if e >= 21 {
                    if e > 21 {
                        lemma_pow2_strictly_increases(21, e);
                    }
                    assert(false);
                }
                lemma_pow2_strictly_increases(e, e + 1);
                if e + 1 < 21 {
                    lemma_pow2_strictly_increases(e + 1, 21);
                }
                lemma_pow2_unfold(e + 1);
                assert(pow2(e + 1) == 2 * p);
                lemma_shrunk_len_bounds(ret@);
                assert(ret@[0] < MODULUS);
                assert(ret.series()(0) == ret@[0]);
            }
            let q = 2 * p;
            let ghost g = ret.series();
            let l = ret.log_n(q);
            let mut w = self.pre(q);
            let ghost head = w.series();
            w.add_scalar_assign(1);
            w.sub_assign(&l);
            ret.mul_assign(&w);
            ret = ret.pre(q);
            proof {
                let big = ret.series();
                let target = minus(plus(f, one()), l.series());
                assert(congruent(w.series(), target, q as nat)) by {
                    assert forall|k: nat| k < q implies residue(#[trigger] w.series()(k))
                        == residue(target(k)) by {
                        assert(head(k) == f(k));
                        assert(constant(1)(k) == one()(k));
                    }
                }
                assert(congruent(g, g, q as nat));
                lemma_times_congruent(g, w.series(), g, target, q as nat);
                assert forall|k: nat| k < q implies residue(#[trigger] big(k)) == residue(
                    times(g, target)(k),
                ) by {
                    assert(ret@[k as int] == reduced(times(g, w.series()))(k));
                    assert(residue(times(g, w.series())(k)) == residue(times(g, target)(k)));
                }
                lemma_newton_exp_doubles(f, g, l.series(), big, p as nat);
                e = e + 1;
            }
            p = q;
        }
        let r = ret.pre(n);
        proof {
            assert(congruent(r.series(), ret.series(), n as nat)) by {
                assert forall|k: nat| k < n implies residue(#[trigger] r.series()(k)) == residue(
                    ret.series()(k),
                ) by {
                    assert(r@[k as int] == ret.series()(k));
                }
            }
            lemma_exp_congruent(f, ret.series(), r.series(), n as nat, p as nat);
            lemma_exp_of(self@, r@);
        }
        r
    }

    /// The exponential to as many coefficients as the series stores.
    pub fn exp(&self) -> (r: FPS)
        requires
            self.wf(),
            self.series()(0) == 0,
            self@.len() <= PRECISION_LIMIT,
        ensures
            r.wf(),
            r@.len() == self@.len(),
            is_exp(self.series(), r.series(), self@.len()),
            r@ == exp_of(self@, self@.len()),
    {
        self.exp_n(self.len())
    }
}

} // verus!
