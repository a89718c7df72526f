//! Integer powers of a series.

use crate::calculus::{
    derivative, lemma_derivative_congruent, lemma_derivative_scaled, lemma_product_rule, one_less,
};
use crate::field::{
    field_pow, invert, is_inverse_of, lemma_residue_mul, lemma_residue_mul_congruent, pow_mod,
    reduce_usize, residue, MODULUS,
};
use crate::fps::{canonical, coeffs, prefix, stored, FPS};
use crate::inverse::PRECISION_LIMIT;
use crate::laws::{leading_zeros, power_boundaries};
use crate::log_exp::{is_exp, is_log, lemma_ode_unique};
use crate::series::{
    congruent, dropped, lemma_conv_first, lemma_times_assoc, lemma_times_comm,
    lemma_times_congruent, lemma_times_one, lemma_times_scaled, lemma_times_shifted,
    lemma_times_vanishes, one, plus, reduced, scaled, shifted, times, zero, Series,
};
use vstd::arithmetic::power::pow;
use vstd::prelude::*;

verus! {

/// `a` to the power `e`: the product of `e` copies of `a`.
pub open spec fn power(a: Series, e: nat) -> Series
    decreases e,
{
    if e == 0 {
        one()
    } else {
        times(a, power(a, (e - 1) as nat))
    }
}

/// The first `n` stored coefficients of the series stored in `f` to the power
/// `e`.
pub open spec fn power_of(f: Seq<u32>, n: nat, e: nat) -> Seq<u32> {
    stored(reduced(power(coeffs(f), e)), n)
}

/// Multiplying by `x^i` and then by `x^j` is multiplying by `x^(i + j)`.
pub proof fn lemma_shifted_shifted(a: Series, i: nat, j: nat)
    ensures
        shifted(shifted(a, i), j) == shifted(a, i + j),
        shifted(a, 0) == a,
{
    assert(shifted(shifted(a, i), j) =~= shifted(a, i + j));
    assert(shifted(a, 0) =~= a);
}

/// A power of `x` can be moved out of a product.
pub proof fn lemma_times_shifted_by(a: Series, b: Series, i: nat)
    ensures
        times(shifted(a, i), b) == shifted(times(a, b), i),
        times(b, shifted(a, i)) == shifted(times(b, a), i),
    decreases i,
{
    if i == 0 {
        lemma_shifted_shifted(a, 0, 0);
        lemma_shifted_shifted(times(a, b), 0, 0);
    } else {
        let j = (i - 1) as nat;
        lemma_shifted_shifted(a, j, 1);
        lemma_times_shifted(shifted(a, j), b);
        lemma_times_shifted_by(a, b, j);
        lemma_shifted_shifted(times(a, b), j, 1);
    }
    lemma_times_comm(b, shifted(a, i));
    lemma_times_comm(b, a);
}

/// Scaling twice is scaling by the product.
pub proof fn lemma_scaled_scaled(c: int, d: int, a: Series)
    ensures
        scaled(c, scaled(d, a)) == scaled(c * d, a),
{
    assert forall|k: nat| #[trigger] scaled(c, scaled(d, a))(k) == scaled(c * d, a)(k) by {
        let x = a(k);
        assert(c * (d * x) == (c * d) * x) by (nonlinear_arith);
    }
    assert(scaled(c, scaled(d, a)) =~= scaled(c * d, a));
}

/// Scaling and shifting keep congruences.
pub proof fn lemma_scaled_congruent(c: int, d: int, a: Series, b: Series, n: nat)
    requires
        residue(c) == residue(d),
        congruent(a, b, n),
    ensures
        congruent(scaled(c, a), scaled(d, b), n),
{
    assert forall|k: nat| k < n implies residue(#[trigger] scaled(c, a)(k)) == residue(
        scaled(d, b)(k),
    ) by {
        assert(residue(a(k)) == residue(b(k)));
        lemma_residue_mul_congruent(c, a(k), d, b(k));
    }
}

/// Multiplying by `x^s` keeps a congruence and raises its precision by `s`.
pub proof fn lemma_shifted_congruent(a: Series, b: Series, n: nat, s: nat)
    requires
        congruent(a, b, n),
    ensures
        congruent(shifted(a, s), shifted(b, s), n + s),
{
    assert forall|k: nat| k < n + s implies residue(#[trigger] shifted(a, s)(k)) == residue(
        shifted(b, s)(k),
    ) by {
        if k >= s {
            assert(residue(a((k - s) as nat)) == residue(b((k - s) as nat)));
        }
    }
}

/// The power of a scaled series is the power scaled by the power of the
/// factor.
pub proof fn lemma_power_scaled(c: int, a: Series, e: nat)
    ensures
        power(scaled(c, a), e) == scaled(pow(c, e), power(a, e)),
    decreases e,
{
    reveal(pow);
    if e == 0 {
        assert(one() =~= scaled(1, one()));
    } else {
        let d = (e - 1) as nat;
        lemma_power_scaled(c, a, d);
        let rest = power(a, d);
        lemma_times_scaled(c, a, scaled(pow(c, d), rest));
        lemma_times_scaled(pow(c, d), a, rest);
        lemma_scaled_scaled(c, pow(c, d), times(a, rest));
    }
}

/// The power of `x^k * a` is `x^(k * e)` times the power of `a`.
pub proof fn lemma_power_shifted(a: Series, k: nat, e: nat)
    ensures
        power(shifted(a, k), e) == shifted(power(a, e), k * e),
    decreases e,
{
    if e == 0 {
        assert(k * 0 == 0);
        lemma_shifted_shifted(one(), 0, 0);
    } else {
        let d = (e - 1) as nat;
        lemma_power_shifted(a, k, d);
        let rest = power(a, d);
        lemma_times_shifted_by(a, shifted(rest, k * d), k);
        lemma_times_shifted_by(rest, a, k * d);
        lemma_shifted_shifted(times(a, rest), k * d, k);
        assert(k * d + k == k * e) by (nonlinear_arith)
            requires
                d + 1 == e,
        ;
    }
}

/// Powers of congruent series are congruent.
pub proof fn lemma_power_congruent(a: Series, b: Series, e: nat, n: nat)
    requires
        congruent(a, b, n),
    ensures
        congruent(power(a, e), power(b, e), n),
    decreases e,
{
    if e > 0 {
        let d = (e - 1) as nat;
        lemma_power_congruent(a, b, d, n);
        lemma_times_congruent(a, power(a, d), b, power(b, d), n);
    }
}

/// Where `a` vanishes below `x^k`, its power vanishes below `x^(k * e)`.
pub proof fn lemma_power_vanishes(a: Series, k: nat, e: nat)
    requires
        congruent(a, zero(), k),
    ensures
        congruent(power(a, e), zero(), k * e),
    decreases e,
{
    if e == 0 {
        assert(k * 0 == 0);
    } else {
        let d = (e - 1) as nat;
        lemma_power_vanishes(a, k, d);
        lemma_times_vanishes(a, power(a, d), k, k * d);
        assert(k + k * d == k * e) by (nonlinear_arith)
            requires
                d + 1 == e,
        ;
    }
}

/// A power of a series with constant term one has constant term one.
pub proof fn lemma_power_first(a: Series, e: nat)
    requires
        residue(a(0)) == 1,
    ensures
        residue(power(a, e)(0)) == 1,
    decreases e,
{
    if e > 0 {
        let d = (e - 1) as nat;
        lemma_power_first(a, d);
        lemma_conv_first(a, power(a, d));
        lemma_residue_mul_congruent(a(0), power(a, d)(0), 1, 1);
    }
}

/// The derivative of a power: `(a^(e + 1))' = (e + 1) * a' * a^e`.
pub proof fn lemma_power_derivative(a: Series, e: nat)
    ensures
        derivative(power(a, e + 1)) == scaled(e as int + 1, times(derivative(a), power(a, e))),
    decreases e,
{
    let da = derivative(a);
    let pe = power(a, e);
    let x = times(da, pe);
    assert(power(a, e + 1) == times(a, pe));
    lemma_product_rule(a, pe);
    if e == 0 {
        lemma_times_one(a);
        lemma_times_one(da);
        assert(derivative(a) =~= scaled(1, da));
    } else {
        let d = (e - 1) as nat;
        let pd = power(a, d);
        lemma_power_derivative(a, d);
        assert(derivative(pe) == scaled(e as int, times(da, pd)));
        // a * (e * (a' * a^d)) = e * (a' * (a * a^d))
        lemma_times_scaled(e as int, a, times(da, pd));
        lemma_times_assoc(a, da, pd);
        lemma_times_comm(a, da);
        lemma_times_assoc(da, a, pd);
        assert(times(a, times(da, pd)) == x);
        assert(times(a, derivative(pe)) == scaled(e as int, x));
        assert forall|k: nat| #[trigger]
            plus(x, scaled(e as int, x))(k) == scaled(e as int + 1, x)(k) by {
            let v = x(k);
            assert(v + e * v == (e + 1) * v) by (nonlinear_arith);
        }
        assert(plus(x, scaled(e as int, x)) =~= scaled(e as int + 1, x));
    }
}

/// The exponential of `e` times the logarithm of `u` is `u` to the power `e`.
pub proof fn lemma_power_by_exp_log(
    u: Series,
    l: Series,
    scaled_l: Series,
    g: Series,
    e: nat,
    n: nat,
)
    requires
        e >= 1,
        residue(u(0)) == 1,
        n <= MODULUS,
        is_log(u, l, n),
        congruent(scaled_l, scaled(e as int, l), n),
        is_exp(scaled_l, g, n),
    ensures
        congruent(g, power(u, e), n),
{
    if n >= 1 {
        let m = one_less(n);
        let du = derivative(u);
        let dl = derivative(l);
        let a = scaled(e as int, dl);
        let d = (e - 1) as nat;
        let z = power(u, e);
        let rest = power(u, d);
        // g' = a * g
        lemma_derivative_congruent(scaled_l, scaled(e as int, l), m);
        lemma_derivative_scaled(e as int, l);
        assert(congruent(g, g, m));
        lemma_times_congruent(derivative(scaled_l), g, a, g, m);
        assert forall|k: nat| k < m implies residue(#[trigger] derivative(g)(k)) == residue(
            times(a, g)(k),
        ) by {
            assert(residue(derivative(g)(k)) == residue(times(derivative(scaled_l), g)(k)));
            assert(residue(times(derivative(scaled_l), g)(k)) == residue(times(a, g)(k)));
        }
        // z' = e * (u' * u^d) and a * z = e * ((u * l') * u^d)
        lemma_power_derivative(u, d);
        lemma_times_scaled(e as int, dl, z);
        lemma_times_assoc(dl, u, rest);
        lemma_times_comm(dl, u);
        assert(times(a, z) == scaled(e as int, times(times(u, dl), rest)));
        assert(congruent(rest, rest, m));
        lemma_times_congruent(times(u, dl), rest, du, rest, m);
        lemma_scaled_congruent(e as int, e as int, times(times(u, dl), rest), times(du, rest), m);
        assert forall|k: nat| k < m implies residue(#[trigger] derivative(z)(k)) == residue(
            times(a, z)(k),
        ) by {
            assert(residue(scaled(e as int, times(times(u, dl), rest))(k)) == residue(
                scaled(e as int, times(du, rest))(k),
            ));
        }
        lemma_power_first(u, e);
        lemma_ode_unique(a, g, z, n);
    }
}

/// A stored series that is congruent to a power below `x^n` stores the power.
pub proof fn lemma_power_of(f: Seq<u32>, r: Seq<u32>, n: nat, e: nat)
    requires
        canonical(r),
        r.len() == n,
        congruent(coeffs(r), power(coeffs(f), e), n),
    ensures
        r == power_of(f, n, e),
{
    let p = power_of(f, n, e);
    assert forall|i: int| 0 <= i < n implies r[i] == p[i] by {
        assert(residue(coeffs(r)(i as nat)) == residue(power(coeffs(f), e)(i as nat)));
        assert(r[i] < MODULUS);
    }
    assert(r =~= p);
}

/// A series that vanishes below `x^k` has a power that vanishes below `x^n`
/// whenever `k * e >= n`.
pub proof fn lemma_power_is_zero(f: Series, k: nat, e: nat, n: nat)
    requires
        congruent(f, zero(), k),
        k * e >= n,
    ensures
        congruent(power(f, e), zero(), n),
{
    lemma_power_vanishes(f, k, e);
}

/// What `pow_n` computes from the normalised series is the power of the
/// series itself: with `c` the first nonzero coefficient of `f`, at `x^k`, and
/// `u` the rest of `f` divided by `c`, the power of `u` scaled by `c^e` and
/// multiplied by `x^(k * e)` is the power of `f`.
pub proof fn lemma_power_of_normalised(
    f: Series,
    u: Series,
    c: int,
    w: int,
    k: nat,
    e: nat,
    g: Series,
    m: nat,
)
    requires
        forall|i: nat| i < k ==> #[trigger] f(i) == 0,
        c == f(k),
        is_inverse_of(w, c),
        u == reduced(scaled(w, dropped(f, k))),
        congruent(g, power(u, e), m),
    ensures
        congruent(
            shifted(reduced(scaled(field_pow(c, e), g)), k * e),
            power(f, e),
            m + k * e,
        ),
{
    let n = m + k * e;
    let x = shifted(scaled(c, u), k);
    // f is x^k * c * u
    assert forall|i: nat| residue(#[trigger] f(i)) == residue(x(i)) by {
        if i >= k {
            let v = f(i);
            assert(dropped(f, k)((i - k) as nat) == v);
            assert(u((i - k) as nat) == residue(w * v));
            lemma_residue_mul(c, w * v);
            assert(c * (w * v) == (c * w) * v) by (nonlinear_arith);
            lemma_residue_mul(c * w, v);
            assert(residue(c * w) * v == v) by (nonlinear_arith)
                requires
                    residue(c * w) == 1,
            ;
        }
    }
    assert(congruent(f, x, n));
    lemma_power_congruent(f, x, e, n);
    lemma_power_shifted(scaled(c, u), k, e);
    lemma_power_scaled(c, u, e);
    // the computed series is congruent to x^(k e) * c^e * u^e
    let ce = field_pow(c, e);
    lemma_scaled_congruent(ce, pow(c, e), g, power(u, e), m);
    let scaled_g = reduced(scaled(ce, g));
    assert(congruent(scaled_g, scaled(pow(c, e), power(u, e)), m)) by {
        assert forall|i: nat| i < m implies residue(#[trigger] scaled_g(i)) == residue(
            scaled(pow(c, e), power(u, e))(i),
        ) by {
            assert(residue(scaled(ce, g)(i)) == residue(scaled(pow(c, e), power(u, e))(i)));
        }
    }
    lemma_shifted_congruent(scaled_g, scaled(pow(c, e), power(u, e)), m, k * e);
    assert forall|i: nat| i < n implies residue(#[trigger] shifted(scaled_g, k * e)(i))
        == residue(power(f, e)(i)) by {
        assert(residue(shifted(scaled_g, k * e)(i)) == residue(power(x, e)(i)));
        assert(residue(power(f, e)(i)) == residue(power(x, e)(i)));
    }
}

impl FPS {
    /// The series of length `n` with every coefficient zero.
    fn zeros(n: usize) -> (r: FPS)
        ensures
            r.wf(),
            r@.len() == n,
            forall|k: nat| #[trigger] r.series()(k) == 0,
    {
        let r = FPS::new().pre(n);
        proof {
            assert forall|k: nat| #[trigger] r.series()(k) == 0 by {
                if k < n {
                    assert(r@[k as int] == 0);
                }
            }
        }
        r
    }

    /// The first `n` coefficients of the series to the power `e`. The power
    /// zero is the series `1`, also of the zero series.
    pub fn pow_n(&self, n: usize, e: usize) -> (r: FPS)
        requires
            self.wf(),
            n <= PRECISION_LIMIT,
        ensures
            r.wf(),
            r@ == power_of(self@, n as nat, e as nat),
            e == 0 ==> r@ == prefix(seq![1u32], n as nat),
            forall|k: nat| #[trigger]
                leading_zeros(self@, k) && k * e >= n ==> r@ == prefix(Seq::empty(), n as nat),
    {
        let ghost f = self.series();
        if e == 0 {
            let unit = FPS::constant(1);
            let r = unit.pre(n);
            proof {
                assert forall|i: nat| i < n implies residue(#[trigger] r.series()(i)) == residue(
                    one()(i),
                ) by {
                    assert(r@[i as int] == unit.series()(i));
                }
                lemma_power_of(self@, r@, n as nat, e as nat);
                power_boundaries(self@, n as nat, e as nat);
            }
            return r;
        }
        let mut k: usize = 0;
        while k < self.len() && self.at(k) == 0
            invariant
                k <= self@.len(),
                f == self.series(),
                forall|i: nat| i < k ==> #[trigger] f(i) == 0,
            decreases self@.len() - k,
        {
            k += 1;
        }
        if k == self.len() {
            proof {
                assert(congruent(f, zero(), n as nat));
                assert(n * e >= n) by (nonlinear_arith)
                    requires
                        e >= 1,
                ;
                lemma_power_is_zero(f, n as nat, e as nat, n as nat);
            }
            let r = FPS::zeros(n);
            proof {
                assert forall|i: nat| i < n implies residue(#[trigger] r.series()(i)) == residue(
                    power(f, e as nat)(i),
                ) by {
                    assert(residue(power(f, e as nat)(i)) == residue(zero()(i)));
                }
                assert(congruent(r.series(), power(f, e as nat), n as nat));
                lemma_power_of(self@, r@, n as nat, e as nat);
                power_boundaries(self@, n as nat, e as nat);
            }
            return r;
        }
        if k > 0 && (k >= n || e >= n) {
            proof {
                assert(congruent(f, zero(), k as nat));
                assert(k * e >= n) by (nonlinear_arith)
                    requires
                        k >= 1,
                        e >= 1,
                        k >= n || e >= n,
                ;
                lemma_power_is_zero(f, k as nat, e as nat, n as nat);
            }
            let r = FPS::zeros(n);
            proof {
                assert forall|i: nat| i < n implies residue(#[trigger] r.series()(i)) == residue(
                    power(f, e as nat)(i),
                ) by {
                    assert(residue(power(f, e as nat)(i)) == residue(zero()(i)));
                }
                assert(congruent(r.series(), power(f, e as nat), n as nat));
                lemma_power_of(self@, r@, n as nat, e as nat);
                power_boundaries(self@, n as nat, e as nat);
            }
            return r;
        }
        let product: u64 = if k == 0 {
            0
        } else {
            assert(k * e < 0x1_0000_0000_0000) by (nonlinear_arith)
                requires
                    k < 0x20_0001,
                    e < 0x20_0001,
            ;
            (k as u64) * (e as u64)
        };
        assert(product == k * e) by {
            if k == 0 {
                assert(0 * e == 0);
            }
        }
        if product >= n as u64 {
            proof {
                assert(congruent(f, zero(), k as nat));
                lemma_power_is_zero(f, k as nat, e as nat, n as nat);
            }
            let r = FPS::zeros(n);
            proof {
                assert forall|i: nat| i < n implies residue(#[trigger] r.series()(i)) == residue(
                    power(f, e as nat)(i),
                ) by {
                    assert(residue(power(f, e as nat)(i)) == residue(zero()(i)));
                }
                assert(congruent(r.series(), power(f, e as nat), n as nat));
                lemma_power_of(self@, r@, n as nat, e as nat);
                power_boundaries(self@, n as nat, e as nat);
            }
            return r;
        }
        let shift = product as usize;
        assert(k <= shift) by (nonlinear_arith)
            requires
                shift == k * e,
                e >= 1,
        ;
        let m = n - k;
        let c = self.at(k);
        let w = invert(c);
        let mut u = self.clone();
        u.shr_assign(k);
        u.scale_assign(w);
        proof {
            assert(self@[k as int] < MODULUS);
            assert(is_inverse_of(w as int, c as int));
            assert(dropped(f, k as nat)(0) == c);
            assert(w * c == c * w) by (nonlinear_arith);
            assert(u.series()(0) == 1);
        }
        let l = u.log_n(m);
        let mut scaled_l = l.clone();
        scaled_l.scale_assign(reduce_usize(e));
        proof {
            if m >= 1 {
                assert(l@[0] < MODULUS);
                assert(l.series()(0) == l@[0]);
            }
            assert(l.series()(0) == 0);
            assert(residue(e as int) * 0 == 0);
            assert(congruent(scaled_l.series(), scaled(e as int, l.series()), m as nat)) by {
                assert forall|i: nat| i < m implies residue(#[trigger] scaled_l.series()(i))
                    == residue(scaled(e as int, l.series())(i)) by {
                    lemma_residue_mul(e as int, l.series()(i));
                }
            }
        }
        let mut g = scaled_l.exp_n(m);
        proof {
            lemma_power_by_exp_log(
                u.series(),
                l.series(),
                scaled_l.series(),
                g.series(),
                e as nat,
                m as nat,
            );
            lemma_power_of_normalised(
                f,
                u.series(),
                c as int,
                w as int,
                k as nat,
                e as nat,
                g.series(),
                m as nat,
            );
        }
        g.scale_assign(pow_mod(c, e as u64));
        g.shl_assign(shift);
        let r = g.pre(n);
        proof {
            assert forall|i: nat| i < n implies residue(#[trigger] r.series()(i)) == residue(
                power(f, e as nat)(i),
            ) by {
                assert(r@[i as int] == g.series()(i));
            }
            lemma_power_of(self@, r@, n as nat, e as nat);
            power_boundaries(self@, n as nat, e as nat);
        }
        r
    }

    /// The power to as many coefficients as the series stores.
    pub fn pow(&self, e: usize) -> (r: FPS)
        requires
            self.wf(),
            self@.len() <= PRECISION_LIMIT,
        ensures
            r.wf(),
            r@ == power_of(self@, self@.len(), e as nat),
            e == 0 ==> r@ == prefix(seq![1u32], self@.len()),
            forall|k: nat| #[trigger]
                leading_zeros(self@, k) && k * e >= self@.len() ==> r@ == prefix(
                    Seq::empty(),
                    self@.len(),
                ),
    {
        self.pow_n(self.len(), e)
    }
}

} // verus!
