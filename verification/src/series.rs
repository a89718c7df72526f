//! Power series with integer coefficients, as functions from the index of a
//! term to its coefficient, and the ring identities they satisfy.
//!
//! A series over the field is an integer series taken coefficient by
//! coefficient modulo the field's order; `congruent` compares two integer
//! series in that sense, up to a given precision.

use crate::field::{lemma_residue_mul_congruent, lemma_residue_mul_zero, residue};
use crate::sums::{
    lemma_sum_add, lemma_sum_congruent, lemma_sum_ext, lemma_sum_peel_first, lemma_sum_reverse,
    lemma_sum_scale, lemma_sum_zero, sum,
};
use vstd::prelude::*;

verus! {

/// A power series: `a(k)` is the coefficient of `x^k`.
pub type Series = spec_fn(nat) -> int;

/// The series `0`.
pub open spec fn zero() -> Series {
    |k: nat| 0int
}

/// The series `1`.
pub open spec fn one() -> Series {
    |k: nat| if k == 0 { 1int } else { 0int }
}

/// The constant series `c`.
pub open spec fn constant(c: int) -> Series {
    |k: nat| if k == 0 { c } else { 0int }
}

/// `a + b`.
pub open spec fn plus(a: Series, b: Series) -> Series {
    |k: nat| a(k) + b(k)
}

/// `a - b`.
pub open spec fn minus(a: Series, b: Series) -> Series {
    |k: nat| a(k) - b(k)
}

/// `c * a` for an integer `c`.
pub open spec fn scaled(c: int, a: Series) -> Series {
    |k: nat| c * a(k)
}

/// `x^n * a`.
pub open spec fn shifted(a: Series, n: nat) -> Series {
    |k: nat| if k < n { 0int } else { a((k - n) as nat) }
}

/// `a` without its first `n` terms, divided by `x^n`.
pub open spec fn dropped(a: Series, n: nat) -> Series {
    |k: nat| a(k + n)
}

/// `a` with every coefficient replaced by its canonical residue.
pub open spec fn reduced(a: Series) -> Series {
    |k: nat| residue(a(k))
}

/// The terms whose sum is the coefficient of `x^k` in `a * b`.
pub open spec fn conv_terms(a: Series, b: Series, k: nat) -> Series {
    |i: nat| if i <= k { a(i) * b((k - i) as nat) } else { 0int }
}

/// The coefficient of `x^k` in `a * b`: the sum of `a(i) * b(k - i)` over
/// `0 <= i <= k`.
pub open spec fn conv(a: Series, b: Series, k: nat) -> int {
    sum(conv_terms(a, b, k), k + 1)
}

/// `a * b`.
pub open spec fn times(a: Series, b: Series) -> Series {
    |k: nat| conv(a, b, k)
}

/// `a` and `b` have the same coefficients modulo the field's order below
/// `x^n`.
pub open spec fn congruent(a: Series, b: Series, n: nat) -> bool {
    forall|k: nat| k < n ==> residue(#[trigger] a(k)) == residue(b(k))
}

/// `a` has no term at or above `x^n`.
pub open spec fn below(a: Series, n: nat) -> bool {
    forall|k: nat| k >= n ==> #[trigger] a(k) == 0
}

/// `conv` reads only the coefficients up to `x^k`.
pub proof fn lemma_conv_agree(a: Series, b: Series, c: Series, d: Series, k: nat)
    requires
        forall|i: nat| i <= k ==> #[trigger] a(i) == c(i),
        forall|i: nat| i <= k ==> #[trigger] b(i) == d(i),
    ensures
        conv(a, b, k) == conv(c, d, k),
{
    let s = conv_terms(a, b, k);
    let t = conv_terms(c, d, k);
    assert forall|i: nat| i < k + 1 implies #[trigger] s(i) == t(i) by {
        assert(a(i) == c(i));
        assert(b((k - i) as nat) == d((k - i) as nat));
    }
    lemma_sum_ext(s, t, k + 1);
}

/// The coefficient of `x^0` in a product is the product of the constant
/// terms.
pub proof fn lemma_conv_first(a: Series, b: Series)
    ensures
        conv(a, b, 0) == a(0) * b(0),
{
    let s = conv_terms(a, b, 0);
    assert(sum(s, 1) == sum(s, 0) + s(0));
}

/// Multiplication is commutative.
pub proof fn lemma_conv_comm(a: Series, b: Series, k: nat)
    ensures
        conv(a, b, k) == conv(b, a, k),
{
    let s = conv_terms(a, b, k);
    let t = conv_terms(b, a, k);
    assert forall|i: nat| i < k + 1 implies #[trigger] t(i) == s((k + 1 - 1 - i) as nat) by {
        let j = (k - i) as nat;
        assert(t(i) == b(i) * a(j));
        assert(s(j) == a(j) * b((k - j) as nat));
        assert(b(i) * a(j) == a(j) * b(i)) by (nonlinear_arith);
    }
    lemma_sum_reverse(s, t, k + 1);
}

/// Multiplication is commutative.
pub proof fn lemma_times_comm(a: Series, b: Series)
    ensures
        times(a, b) == times(b, a),
{
    assert forall|k: nat| #[trigger] times(a, b)(k) == times(b, a)(k) by {
        lemma_conv_comm(a, b, k);
    }
    assert(times(a, b) =~= times(b, a));
}

/// Multiplication distributes over addition.
pub proof fn lemma_times_plus(a: Series, b: Series, c: Series)
    ensures
        times(a, plus(b, c)) == plus(times(a, b), times(a, c)),
        times(plus(b, c), a) == plus(times(b, a), times(c, a)),
{
    assert forall|k: nat| #[trigger]
        times(a, plus(b, c))(k) == plus(times(a, b), times(a, c))(k) by {
        let s = conv_terms(a, plus(b, c), k);
        let g = conv_terms(a, b, k);
        let h = conv_terms(a, c, k);
        assert forall|i: nat| i < k + 1 implies #[trigger] s(i) == g(i) + h(i) by {
            let j = (k - i) as nat;
            let (x, y, z) = (a(i), b(j), c(j));
            assert(x * (y + z) == x * y + x * z) by (nonlinear_arith);
        }
        lemma_sum_add(s, g, h, k + 1);
    }
    assert(times(a, plus(b, c)) =~= plus(times(a, b), times(a, c)));
    lemma_times_comm(plus(b, c), a);
    lemma_times_comm(b, a);
    lemma_times_comm(c, a);
}

/// Multiplication distributes over subtraction.
pub proof fn lemma_times_minus(a: Series, b: Series, c: Series)
    ensures
        times(a, minus(b, c)) == minus(times(a, b), times(a, c)),
        times(minus(b, c), a) == minus(times(b, a), times(c, a)),
{
    // b = (b - c) + c
    lemma_times_plus(a, minus(b, c), c);
    assert(plus(minus(b, c), c) =~= b);
    assert(times(a, minus(b, c)) =~= minus(times(a, b), times(a, c)));
    lemma_times_comm(minus(b, c), a);
    lemma_times_comm(b, a);
    lemma_times_comm(c, a);
}

/// An integer factor can be moved out of a product.
pub proof fn lemma_times_scaled(c: int, a: Series, b: Series)
    ensures
        times(scaled(c, a), b) == scaled(c, times(a, b)),
        times(a, scaled(c, b)) == scaled(c, times(a, b)),
{
    assert forall|k: nat| #[trigger] times(scaled(c, a), b)(k) == scaled(c, times(a, b))(k) by {
        let s = conv_terms(scaled(c, a), b, k);
        let g = conv_terms(a, b, k);
        assert forall|i: nat| i < k + 1 implies #[trigger] s(i) == c * g(i) by {
            let j = (k - i) as nat;
            let (x, y) = (a(i), b(j));
            assert((c * x) * y == c * (x * y)) by (nonlinear_arith);
        }
        lemma_sum_scale(s, g, c, k + 1);
    }
    assert(times(scaled(c, a), b) =~= scaled(c, times(a, b)));
    lemma_times_comm(a, scaled(c, b));
    lemma_times_comm(a, b);
    // times(scaled(c, b), a) == scaled(c, times(b, a))
    assert forall|k: nat| #[trigger] times(scaled(c, b), a)(k) == scaled(c, times(b, a))(k) by {
        let s = conv_terms(scaled(c, b), a, k);
        let g = conv_terms(b, a, k);
        assert forall|i: nat| i < k + 1 implies #[trigger] s(i) == c * g(i) by {
            let j = (k - i) as nat;
            let (x, y) = (b(i), a(j));
            assert((c * x) * y == c * (x * y)) by (nonlinear_arith);
        }
        lemma_sum_scale(s, g, c, k + 1);
    }
    assert(times(scaled(c, b), a) =~= scaled(c, times(b, a)));
}

/// `1` is the unit of multiplication.
pub proof fn lemma_times_one(a: Series)
    ensures
        times(one(), a) == a,
        times(a, one()) == a,
{
    assert forall|k: nat| #[trigger] times(one(), a)(k) == a(k) by {
        let s = conv_terms(one(), a, k);
        let t = |i: nat| s(i + 1);
        assert forall|i: nat| i < k implies #[trigger] t(i) == 0 by {
            assert(s(i + 1) == one()((i + 1) as nat) * a((k - (i + 1)) as nat));
        }
        lemma_sum_zero(t, k);
        lemma_sum_peel_first(s, t, k);
        assert(s(0) == one()(0) * a(k));
    }
    assert(times(one(), a) =~= a);
    lemma_times_comm(a, one());
}

/// Multiplying by `x` moves a product up by one place.
pub proof fn lemma_times_shifted(a: Series, b: Series)
    ensures
        times(shifted(a, 1), b) == shifted(times(a, b), 1),
{
    assert forall|k: nat| #[trigger] times(shifted(a, 1), b)(k) == shifted(times(a, b), 1)(k) by {
        let s = conv_terms(shifted(a, 1), b, k);
        assert(s(0) == 0) by {
            assert(shifted(a, 1)(0) == 0);
            assert(s(0) == shifted(a, 1)(0) * b(k));
        }
        if k == 0 {
            assert(sum(s, 1) == sum(s, 0) + s(0));
        } else {
            let m = (k - 1) as nat;
            let g = conv_terms(a, b, m);
            assert forall|i: nat| i < k implies #[trigger] g(i) == s(i + 1) by {
                assert(shifted(a, 1)((i + 1) as nat) == a(i));
                assert((k - (i + 1)) as nat == (m - i) as nat);
            }
            lemma_sum_peel_first(s, g, k);
        }
    }
    assert(times(shifted(a, 1), b) =~= shifted(times(a, b), 1));
}

/// A series is its constant term plus `x` times the rest.
pub proof fn lemma_split_first(a: Series)
    ensures
        a == plus(scaled(a(0), one()), shifted(dropped(a, 1), 1)),
{
    let r = plus(scaled(a(0), one()), shifted(dropped(a, 1), 1));
    assert forall|k: nat| #[trigger] a(k) == r(k) by {
        if k > 0 {
            assert(dropped(a, 1)((k - 1) as nat) == a(k));
        }
    }
    assert(a =~= r);
}

/// Multiplication is associative, coefficient by coefficient.
pub proof fn lemma_conv_assoc(a: Series, b: Series, c: Series, k: nat)
    ensures
        conv(times(a, b), c, k) == conv(a, times(b, c), k),
    decreases k,
{
    let a0 = a(0);
    let rest = dropped(a, 1);
    lemma_split_first(a);
    let head = scaled(a0, one());
    let tail = shifted(rest, 1);
    assert(a == plus(head, tail));
    // (a * b) = a0 * b + x * (rest * b)
    lemma_times_plus(b, head, tail);
    lemma_times_scaled(a0, one(), b);
    lemma_times_one(b);
    lemma_times_shifted(rest, b);
    let ab = plus(scaled(a0, b), shifted(times(rest, b), 1));
    assert(times(a, b) == ab);
    // (a * b) * c = a0 * (b * c) + x * ((rest * b) * c)
    lemma_times_plus(c, scaled(a0, b), shifted(times(rest, b), 1));
    lemma_times_scaled(a0, b, c);
    lemma_times_shifted(times(rest, b), c);
    let left = plus(scaled(a0, times(b, c)), shifted(times(times(rest, b), c), 1));
    assert(times(ab, c) == left);
    // a * (b * c) = a0 * (b * c) + x * (rest * (b * c))
    let bc = times(b, c);
    lemma_times_plus(bc, head, tail);
    lemma_times_scaled(a0, one(), bc);
    lemma_times_one(bc);
    lemma_times_shifted(rest, bc);
    let right = plus(scaled(a0, bc), shifted(times(rest, bc), 1));
    assert(times(a, bc) == right);
    if k > 0 {
        lemma_conv_assoc(rest, b, c, (k - 1) as nat);
    }
    assert(times(ab, c)(k) == left(k));
    assert(times(a, bc)(k) == right(k));
    assert(left(k) == right(k));
}

/// Multiplication is associative.
pub proof fn lemma_times_assoc(a: Series, b: Series, c: Series)
    ensures
        times(times(a, b), c) == times(a, times(b, c)),
{
    assert forall|k: nat| #[trigger] times(times(a, b), c)(k) == times(a, times(b, c))(k) by {
        lemma_conv_assoc(a, b, c, k);
    }
    assert(times(times(a, b), c) =~= times(a, times(b, c)));
}

/// A product has no term at or above the sum of its factors' lengths less
/// one, and none at all when a factor is zero.
pub proof fn lemma_conv_beyond(a: Series, b: Series, n: nat, m: nat, k: nat)
    requires
        below(a, n),
        below(b, m),
        n == 0 || m == 0 || k + 1 >= n + m,
    ensures
        conv(a, b, k) == 0,
{
    let s = conv_terms(a, b, k);
    assert forall|i: nat| i < k + 1 implies #[trigger] s(i) == 0 by {
        let j = (k - i) as nat;
        if i >= n {
            assert(a(i) == 0);
        } else {
            assert(b(j) == 0);
        }
        assert(a(i) * b(j) == 0) by (nonlinear_arith)
            requires
                a(i) == 0 || b(j) == 0,
        ;
    }
    lemma_sum_zero(s, k + 1);
}

/// Products of factors that are congruent up to `x^k` have congruent
/// coefficients of `x^k`.
pub proof fn lemma_conv_congruent(a: Series, b: Series, c: Series, d: Series, k: nat)
    requires
        congruent(a, c, k + 1),
        congruent(b, d, k + 1),
    ensures
        residue(conv(a, b, k)) == residue(conv(c, d, k)),
{
    let s = conv_terms(a, b, k);
    let t = conv_terms(c, d, k);
    assert forall|i: nat| i < k + 1 implies residue(#[trigger] s(i)) == residue(t(i)) by {
        let j = (k - i) as nat;
        assert(residue(a(i)) == residue(c(i)));
        assert(residue(b(j)) == residue(d(j)));
        lemma_residue_mul_congruent(a(i), b(j), c(i), d(j));
    }
    lemma_sum_congruent(s, t, k + 1);
}

/// Products of congruent factors are congruent.
pub proof fn lemma_times_congruent(a: Series, b: Series, c: Series, d: Series, n: nat)
    requires
        congruent(a, c, n),
        congruent(b, d, n),
    ensures
        congruent(times(a, b), times(c, d), n),
{
    assert forall|k: nat| k < n implies residue(#[trigger] times(a, b)(k)) == residue(
        times(c, d)(k),
    ) by {
        assert forall|i: nat| i < k + 1 implies residue(#[trigger] a(i)) == residue(c(i)) by {}
        assert forall|i: nat| i < k + 1 implies residue(#[trigger] b(i)) == residue(d(i)) by {}
        lemma_conv_congruent(a, b, c, d, k);
    }
}

/// Where `a` vanishes below `x^m` and `b` below `x^n`, their product
/// vanishes below `x^(m + n)`.
pub proof fn lemma_times_vanishes(a: Series, b: Series, m: nat, n: nat)
    requires
        congruent(a, zero(), m),
        congruent(b, zero(), n),
    ensures
        congruent(times(a, b), zero(), m + n),
{
    assert forall|k: nat| k < m + n implies residue(#[trigger] times(a, b)(k)) == residue(
        zero()(k),
    ) by {
        let s = conv_terms(a, b, k);
        let z = zero();
        assert forall|i: nat| i < k + 1 implies residue(#[trigger] s(i)) == residue(z(i)) by {
            let j = (k - i) as nat;
            if i < m {
                assert(residue(a(i)) == residue(zero()(i)));
            } else {
                assert(residue(b(j)) == residue(zero()(j)));
            }
            lemma_residue_mul_zero(a(i), b(j));
        }
        lemma_sum_congruent(s, z, k + 1);
        lemma_sum_zero(z, k + 1);
    }
}

} // verus!
