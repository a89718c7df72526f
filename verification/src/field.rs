//! The coefficient field: integers modulo the prime 998244353.
//!
//! Field elements are held as their canonical residues in `u32`. The arithmetic
//! itself is done by `ac_library`'s static modular integers; the functions that
//! call it state what it computes and are not verified.

use ac_library::ModInt998244353;
use vstd::arithmetic::div_mod::lemma_mul_mod_noop_general;
use vstd::arithmetic::power::pow;
use vstd::prelude::*;

verus! {

/// The order of the coefficient field.
pub const MODULUS: u32 = 998_244_353;

/// The canonical residue of an integer.
pub open spec fn residue(x: int) -> int {
    x % (MODULUS as int)
}

/// `a` to the power `n` in the field.
pub open spec fn field_pow(a: int, n: nat) -> int {
    residue(pow(a, n))
}

/// `w` is the canonical residue of a multiplicative inverse of `a`.
pub open spec fn is_inverse_of(w: int, a: int) -> bool {
    0 <= w < MODULUS && residue(a * w) == 1
}

/// `a` has a multiplicative inverse in the field.
pub open spec fn is_unit(a: int) -> bool {
    exists|w: int| is_inverse_of(w, a)
}

/// The multiplicative inverse of a unit `a`, as a canonical residue.
pub open spec fn field_inv(a: int) -> int {
    choose|w: int| is_inverse_of(w, a)
}

/// Residues may be taken before or after a multiplication.
pub proof fn lemma_residue_mul(x: int, y: int)
    ensures
        residue(residue(x) * y) == residue(x * y),
        residue(x * residue(y)) == residue(x * y),
        residue(residue(x) * residue(y)) == residue(x * y),
{
    lemma_mul_mod_noop_general(x, y, MODULUS as int);
}

/// Products of congruent factors are congruent.
pub proof fn lemma_residue_mul_congruent(x: int, y: int, u: int, v: int)
    requires
        residue(x) == residue(u),
        residue(y) == residue(v),
    ensures
        residue(x * y) == residue(u * v),
{
    lemma_residue_mul(x, y);
    lemma_residue_mul(u, v);
}

/// A multiple of something congruent to zero is congruent to zero.
pub proof fn lemma_residue_mul_zero(x: int, y: int)
    requires
        residue(x) == 0 || residue(y) == 0,
    ensures
        residue(x * y) == 0,
{
    lemma_residue_mul(x, y);
    if residue(x) == 0 {
        assert(residue(x) * y == 0) by (nonlinear_arith)
            requires
                residue(x) == 0,
        ;
    } else {
        assert(x * residue(y) == 0) by (nonlinear_arith)
            requires
                residue(y) == 0,
        ;
    }
}

/// A factor that has an inverse can be cancelled from a congruence.
pub proof fn lemma_cancel_unit(a: int, x: int, y: int)
    requires
        is_unit(a),
        residue(a * x) == residue(a * y),
    ensures
        residue(x) == residue(y),
{
    let w = field_inv(a);
    assert(is_inverse_of(w, a));
    // x = (w * a) * x = w * (a * x), and the same for y
    lemma_residue_mul_congruent(w, a * x, w, a * y);
    assert(w * (a * x) == (a * w) * x) by (nonlinear_arith);
    assert(w * (a * y) == (a * w) * y) by (nonlinear_arith);
    lemma_residue_mul(a * w, x);
    lemma_residue_mul(a * w, y);
    assert(residue(a * w) * x == x) by (nonlinear_arith)
        requires
            residue(a * w) == 1,
    ;
    assert(residue(a * w) * y == y) by (nonlinear_arith)
        requires
            residue(a * w) == 1,
    ;
}

/// A unit has exactly one inverse among the canonical residues.
pub proof fn lemma_inverse_unique(w: int, a: int)
    requires
        is_inverse_of(w, a),
    ensures
        is_unit(a),
        w == field_inv(a),
{
    let v = field_inv(a);
    assert(is_inverse_of(v, a));
    lemma_cancel_unit(a, w, v);
}

/// Sum of two field elements: `StaticModInt`'s `+`, on arguments reduced by
/// `StaticModInt::new`. The result is the canonical residue of the sum.
#[verifier::external_body]
pub(crate) fn add_mod(a: u32, b: u32) -> (r: u32)
    ensures
        r == residue(a + b),
{
    (ModInt998244353::new(a) + ModInt998244353::new(b)).val()
}

/// Difference of two field elements: `StaticModInt`'s `-`, on arguments
/// reduced by `StaticModInt::new`. The result is the canonical residue of the
/// difference.
#[verifier::external_body]
pub(crate) fn sub_mod(a: u32, b: u32) -> (r: u32)
    ensures
        r == residue(a - b),
{
    (ModInt998244353::new(a) - ModInt998244353::new(b)).val()
}

/// Product of two field elements: `StaticModInt`'s `*`, on arguments reduced
/// by `StaticModInt::new`. The result is the canonical residue of the product.
#[verifier::external_body]
pub(crate) fn mul_mod(a: u32, b: u32) -> (r: u32)
    ensures
        r == residue(a * b),
{
    (ModInt998244353::new(a) * ModInt998244353::new(b)).val()
}

/// Multiplicative inverse: `StaticModInt::inv`, which panics on zero and, the
/// modulus being prime, otherwise returns the element whose product with the
/// argument is one.
#[verifier::external_body]
pub(crate) fn inv_mod(a: u32) -> (r: u32)
    requires
        residue(a as int) != 0,
    ensures
        is_inverse_of(r as int, a as int),
{
    ModInt998244353::new(a).inv().val()
}

/// Power: `StaticModInt::pow`, the product of `n` copies of the argument
/// (one when `n` is zero).
#[verifier::external_body]
pub(crate) fn pow_mod(a: u32, n: u64) -> (r: u32)
    ensures
        r == field_pow(a as int, n as nat),
{
    ModInt998244353::new(a).pow(n).val()
}

/// The field element of a signed integer: `StaticModInt::new`, which takes the
/// least nonnegative remainder.
#[verifier::external_body]
pub(crate) fn reduce_i64(x: i64) -> (r: u32)
    ensures
        r == residue(x as int),
{
    ModInt998244353::new(x).val()
}

/// The field element of an index: `StaticModInt::new`, which takes the
/// remainder.
#[verifier::external_body]
pub(crate) fn reduce_usize(x: usize) -> (r: u32)
    ensures
        r == residue(x as int),
{
    ModInt998244353::new(x).val()
}

/// The inverse of a nonzero field element, as the field's own inverse function
/// gives it.
pub(crate) fn invert(a: u32) -> (r: u32)
    requires
        residue(a as int) != 0,
    ensures
        is_unit(a as int),
        r == field_inv(a as int),
{
    let r = inv_mod(a);
    proof {
        lemma_inverse_unique(r as int, a as int);
    }
    r
}

} // verus!
