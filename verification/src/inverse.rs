//! The multiplicative inverse of a series, by Newton iteration, and division.

use crate::convolution::product_len;
use crate::field::{field_inv, invert, is_inverse_of, lemma_residue_mul, residue, MODULUS};
use crate::fps::{
    canonical, coeffs, lemma_congruent_stored, lemma_conv_extended, lemma_shrunk_len_bounds,
    shrunk_len, stored, FPS,
};
use crate::series::{
    congruent, conv, lemma_conv_congruent, lemma_conv_first, lemma_times_assoc, lemma_times_comm,
    lemma_times_congruent, lemma_times_minus, lemma_times_one, lemma_times_scaled,
    lemma_times_vanishes, minus, one, reduced, scaled, times, zero, Series,
};
use crate::units::lemma_nonzero_is_unit;
use vstd::arithmetic::power2::{lemma2_to64, lemma_pow2_strictly_increases, lemma_pow2_unfold, pow2};
use vstd::prelude::*;

verus! {

/// The greatest precision to which the Newton iterations work: their largest
/// product, of three times this length, has to fit the convolution.
pub const PRECISION_LIMIT: usize = 2_097_152;

/// `g` is a multiplicative inverse of `f` modulo `x^n`: the product `f * g`
/// is `1`, up to that precision, over the field.
pub open spec fn is_inverse(f: Series, g: Series, n: nat) -> bool {
    congruent(times(f, g), one(), n)
}

/// The precision to which a division inverts its divisor: the longer of the
/// two lengths.
pub open spec fn division_precision(a: Seq<u32>, b: Seq<u32>) -> nat {
    if a.len() >= b.len() {
        a.len()
    } else {
        b.len()
    }
}

/// The inverse of the stored series `f` with `n` coefficients.
pub open spec fn inverse_of(f: Seq<u32>, n: nat) -> Seq<u32> {
    choose|g: Seq<u32>| g.len() == n && canonical(g) && is_inverse(coeffs(f), coeffs(g), n)
}

/// The coefficient that extends an inverse `g` of `f` by one term: it makes the
/// next coefficient of `f * g` zero, or one where `g` is empty.
pub open spec fn next_inverse_coefficient(f: Series, g: Seq<u32>) -> u32 {
    residue(field_inv(f(0)) * (one()(g.len()) - conv(f, coeffs(g), g.len()))) as u32
}

/// An inverse of `f` with `n` coefficients, built one coefficient at a time.
pub open spec fn inverse_by_recurrence(f: Series, n: nat) -> Seq<u32>
    decreases n,
{
    if n == 0 {
        Seq::empty()
    } else {
        let g = inverse_by_recurrence(f, (n - 1) as nat);
        g.push(next_inverse_coefficient(f, g))
    }
}

/// What one round of Newton's iteration puts in place of `g`:
/// `2 * g - g * g * f`.
pub open spec fn newton_inverse_step(f: Series, g: Series) -> Series {
    minus(scaled(2, g), times(times(g, g), f))
}

/// The residual `1 - f * (2g - g^2 f)` after a round is the square of the
/// residual `1 - f * g` before it.
proof fn lemma_newton_residual(f: Series, g: Series)
    ensures
        minus(one(), times(f, newton_inverse_step(f, g))) == times(
            minus(one(), times(f, g)),
            minus(one(), times(f, g)),
        ),
{
    let u = times(f, g);
    let uu = times(u, u);
    let e = minus(one(), u);
    // f * (2g - (g g) f) = 2u - u u
    lemma_times_minus(f, scaled(2, g), times(times(g, g), f));
    lemma_times_scaled(2, g, f);
    lemma_times_comm(scaled(2, g), f);
    lemma_times_comm(g, f);
    assert(times(f, scaled(2, g)) == scaled(2, u));
    lemma_times_assoc(g, g, f);
    lemma_times_assoc(f, g, u);
    assert(times(f, times(times(g, g), f)) == uu);
    assert(times(f, newton_inverse_step(f, g)) == minus(scaled(2, u), uu));
    // (1 - u)(1 - u) = (1 - u) - (u - u u)
    lemma_times_minus(e, one(), u);
    lemma_times_one(e);
    lemma_times_minus(u, one(), u);
    lemma_times_one(u);
    assert(times(e, e) == minus(e, minus(u, uu)));
    assert(minus(one(), minus(scaled(2, u), uu)) =~= minus(e, minus(u, uu)));
}

/// One round of Newton's iteration doubles the precision of an inverse.
pub proof fn lemma_newton_inverse_doubles(f: Series, g: Series, h: Series, m: nat)
    requires
        is_inverse(f, g, m),
        congruent(h, newton_inverse_step(f, g), 2 * m),
    ensures
        is_inverse(f, h, 2 * m),
{
    let u = times(f, g);
    let e = minus(one(), u);
    let step = newton_inverse_step(f, g);
    lemma_newton_residual(f, g);
    assert(congruent(e, zero(), m)) by {
        assert forall|k: nat| k < m implies residue(#[trigger] e(k)) == residue(zero()(k)) by {
            assert(residue(u(k)) == residue(one()(k)));
        }
    }
    lemma_times_vanishes(e, e, m, m);
    let r = minus(one(), times(f, step));
    assert(congruent(times(f, step), one(), 2 * m)) by {
        assert forall|k: nat| k < 2 * m implies residue(#[trigger] times(f, step)(k)) == residue(
            one()(k),
        ) by {
            assert(residue(r(k)) == residue(zero()(k)));
            assert(r(k) == one()(k) - times(f, step)(k));
        }
    }
    lemma_times_congruent(f, h, f, step, 2 * m);
    assert forall|k: nat| k < 2 * m implies residue(#[trigger] times(f, h)(k)) == residue(
        one()(k),
    ) by {
        assert(residue(times(f, h)(k)) == residue(times(f, step)(k)));
    }
}

/// A series whose constant term has an inverse has at most one inverse to
/// each precision.
pub proof fn lemma_inverse_is_unique(f: Series, g: Series, h: Series, n: nat)
    requires
        is_inverse(f, g, n),
        is_inverse(f, h, n),
    ensures
        congruent(g, h, n),
{
    // g = g * (f * h) = (g * f) * h = h
    lemma_times_congruent(g, times(f, h), g, one(), n);
    lemma_times_one(g);
    lemma_times_comm(g, f);
    lemma_times_congruent(times(g, f), h, one(), h, n);
    lemma_times_one(h);
    lemma_times_assoc(g, f, h);
    let x = times(g, times(f, h));
    assert forall|k: nat| k < n implies residue(#[trigger] g(k)) == residue(h(k)) by {
        assert(residue(x(k)) == residue(times(g, one())(k)));
        assert(residue(times(times(g, f), h)(k)) == residue(times(one(), h)(k)));
    }
}

/// The recurrence builds an inverse of a series whose constant term is not
/// zero.
pub proof fn lemma_inverse_by_recurrence(f: Series, n: nat)
    requires
        residue(f(0)) != 0,
    ensures
        inverse_by_recurrence(f, n).len() == n,
        canonical(inverse_by_recurrence(f, n)),
        is_inverse(f, coeffs(inverse_by_recurrence(f, n)), n),
    decreases n,
{
    if n > 0 {
        let k = (n - 1) as nat;
        let g = inverse_by_recurrence(f, k);
        lemma_inverse_by_recurrence(f, k);
        let c = next_inverse_coefficient(f, g);
        let h = g.push(c);
        lemma_conv_extended(f, g, c);
        lemma_nonzero_is_unit(f(0));
        let w = field_inv(f(0));
        assert(is_inverse_of(w, f(0)));
        // f(0) * c is what the coefficient of x^k lacks
        let x = one()(k) - conv(f, coeffs(g), k);
        lemma_residue_mul(f(0), w * x);
        assert(f(0) * (w * x) == (f(0) * w) * x) by (nonlinear_arith);
        lemma_residue_mul(f(0) * w, x);
        assert(residue(f(0) * w) * x == x) by (nonlinear_arith)
            requires
                residue(f(0) * w) == 1,
        ;
        assert(residue(f(0) * c) == residue(x));
        assert forall|j: nat| j < n implies residue(#[trigger] times(f, coeffs(h))(j)) == residue(
            one()(j),
        ) by {
            if j < k {
                assert(conv(f, coeffs(h), j) == conv(f, coeffs(g), j));
                assert(residue(times(f, coeffs(g))(j)) == residue(one()(j)));
            }
        }
        assert forall|j: int| 0 <= j < h.len() implies #[trigger] h[j] < MODULUS by {
            if j < k {
                assert(h[j] == g[j]);
            }
        }
    }
}

/// A series whose constant term is not zero has an inverse of each length, and
/// `inverse_of` is that inverse.
pub proof fn lemma_inverse_exists(f: Seq<u32>, n: nat)
    requires
        residue(coeffs(f)(0)) != 0,
    ensures
        inverse_of(f, n).len() == n,
        canonical(inverse_of(f, n)),
        is_inverse(coeffs(f), coeffs(inverse_of(f, n)), n),
{
    lemma_inverse_by_recurrence(coeffs(f), n);
    let g = inverse_by_recurrence(coeffs(f), n);
    assert(g.len() == n && canonical(g) && is_inverse(coeffs(f), coeffs(g), n));
}

/// A series whose constant term has an inverse has one inverse of each
/// length among the stored series.
pub proof fn lemma_inverse_of(f: Seq<u32>, g: Seq<u32>)
    requires
        canonical(g),
        is_inverse(coeffs(f), coeffs(g), g.len()),
    ensures
        g == inverse_of(f, g.len()),
{
    let h = inverse_of(f, g.len());
    lemma_inverse_is_unique(coeffs(f), coeffs(g), coeffs(h), g.len());
    lemma_congruent_stored(g, h);
}

impl FPS {
    /// The first `n` coefficients of the multiplicative inverse: the series
    /// `g` of length `n` with `self * g = 1` modulo `x^n`.
    pub fn inv_n(&self, n: usize) -> (r: FPS)
        requires
            self.wf(),
            self.series()(0) != 0,
            n <= PRECISION_LIMIT,
        ensures
            r.wf(),
            r@.len() == n,
            is_inverse(self.series(), r.series(), n as nat),
            r@ == inverse_of(self@, n as nat),
    {
        let ghost f = self.series();
        let c = invert(self.at(0));
        let mut ret = FPS::constant(c as i64);
        let mut p: usize = 1;
        proof {
            assert(ret.series()(0) == c);
            lemma_conv_first(f, ret.series());
        }
        let ghost e: nat = 0;
        proof {
            lemma2_to64();
        }
        while p < n
            invariant
                p == pow2(e),
                n <= PRECISION_LIMIT,
                self.wf(),
                f == self.series(),
                ret.wf(),
                ret@.len() == p,
                is_inverse(f, ret.series(), p as nat),
            decreases PRECISION_LIMIT - p,
        {
            proof {
                lemma2_to64();
                if e >= 21 {
                    if e > 21 {
                        lemma_pow2_strictly_increases(21, e);
                    }
                    assert(false);
                }
                lemma_pow2_strictly_increases(e, e + 1);
                if e + 1 < 21 {
                    lemma_pow2_strictly_increases(e + 1, 21);
                }
                lemma_pow2_unfold(e + 1);
                assert(pow2(e + 1) == 2 * p);
                assert(2 * p <= PRECISION_LIMIT);
                lemma_shrunk_len_bounds(ret@);
            }
            let q = 2 * p;
            let fp = self.pre(2 * q);
            let ghost g = ret.series();
            let mut t = ret.clone();
            t.mul_assign(&ret);
            proof {
                lemma_shrunk_len_bounds(t@);
            }
            t.mul_assign(&fp);
            let mut next = ret.clone();
            next.add_assign(&ret);
            next.sub_assign(&t);
            ret = next.pre(q);
            proof {
                let h = ret.series();
                let step = newton_inverse_step(f, g);
                let gg = reduced(times(g, g));
                assert forall|k: nat| k < q implies residue(#[trigger] h(k)) == residue(
                    step(k),
                ) by {
                    assert(congruent(gg, times(g, g), k + 1));
                    assert(congruent(fp.series(), f, k + 1)) by {
                        assert forall|i: nat| i < k + 1 implies residue(
                            #[trigger] fp.series()(i),
                        ) == residue(f(i)) by {
                            assert(fp@[i as int] == f(i));
                        }
                    }
                    lemma_conv_congruent(gg, fp.series(), times(g, g), f, k);
                    assert(ret@[k as int] == next.series()(k));
                }
                lemma_newton_inverse_doubles(f, g, h, p as nat);
                e = e + 1;
            }
            p = q;
        }
        let r = ret.pre(n);
        proof {
            lemma_times_congruent(f, r.series(), f, ret.series(), n as nat);
            assert forall|k: nat| k < n implies residue(#[trigger] times(f, r.series())(k))
                == residue(one()(k)) by {
                assert(residue(times(f, r.series())(k)) == residue(times(f, ret.series())(k)));
            }
            lemma_inverse_of(self@, r@);
        }
        r
    }

    /// The inverse to as many coefficients as the series stores.
    pub fn inv(&self) -> (r: FPS)
        requires
            self.wf(),
            self.series()(0) != 0,
            self@.len() <= PRECISION_LIMIT,
        ensures
            r.wf(),
            r@.len() == self@.len(),
            is_inverse(self.series(), r.series(), self@.len()),
            r@ == inverse_of(self@, self@.len()),
    {
        self.inv_n(self.len())
    }

    /// Divides the series by `rhs`: multiplies it by the inverse of `rhs`
    /// taken to the longer of the two lengths.
    pub fn div_assign(&mut self, rhs: &FPS)
        requires
            old(self).wf(),
            rhs.wf(),
            rhs.series()(0) != 0,
            old(self)@.len() <= PRECISION_LIMIT,
            rhs@.len() <= PRECISION_LIMIT,
        ensures
            final(self).wf(),
            final(self)@ == stored(
                reduced(
                    times(
                        old(self).series(),
                        coeffs(inverse_of(rhs@, division_precision(old(self)@, rhs@))),
                    ),
                ),
                product_len(shrunk_len(old(self)@), division_precision(old(self)@, rhs@)),
            ),
            final(self).series() == reduced(
                times(
                    old(self).series(),
                    coeffs(inverse_of(rhs@, division_precision(old(self)@, rhs@))),
                ),
            ),
    {
        let n = if self.len() >= rhs.len() { self.len() } else { rhs.len() };
        let g = rhs.inv_n(n);
        proof {
            lemma_shrunk_len_bounds(self@);
        }
        self.mul_assign(&g);
    }

    /// The quotient of the series by `rhs`.
    pub fn div(&self, rhs: &FPS) -> (r: FPS)
        requires
            self.wf(),
            rhs.wf(),
            rhs.series()(0) != 0,
            self@.len() <= PRECISION_LIMIT,
            rhs@.len() <= PRECISION_LIMIT,
        ensures
            r.wf(),
            r@ == stored(
                reduced(
                    times(self.series(), coeffs(inverse_of(rhs@, division_precision(self@, rhs@)))),
                ),
                product_len(shrunk_len(self@), division_precision(self@, rhs@)),
            ),
            r.series() == reduced(
                times(self.series(), coeffs(inverse_of(rhs@, division_precision(self@, rhs@)))),
            ),
    {
        let mut r = self.clone();
        r.div_assign(rhs);
        r
    }
}

} // verus!
