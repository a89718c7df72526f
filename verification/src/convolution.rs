//! Multiplication of coefficient sequences, done by `ac_library`'s
//! convolution.

use ac_library::Mod998244353;
use ac_library::convolution::convolution_raw;
use crate::field::residue;
use crate::fps::coeffs;
use crate::series::conv;
use vstd::prelude::*;

verus! {

/// The longest product that the convolution can hold: the largest power of
/// two that divides the field's order less one.
pub const CONVOLUTION_LIMIT: usize = 8_388_608;

/// The number of coefficients of the product of sequences of `n` and `m`
/// coefficients.
pub open spec fn product_len(n: nat, m: nat) -> nat {
    if n == 0 || m == 0 {
        0
    } else {
        (n + m - 1) as nat
    }
}

/// The product of two coefficient sequences: `convolution_raw` over the
/// field's modulus. It returns the empty sequence where an argument is empty,
/// and otherwise the `|a| + |b| - 1` coefficients of the product, each the sum
/// of `a[i] * b[k - i]` taken in the field; it asks that this length be at
/// most `2^23`.
#[verifier::external_body]
pub(crate) fn convolve(a: &Vec<u32>, b: &Vec<u32>) -> (c: Vec<u32>)
    requires
        product_len(a@.len(), b@.len()) <= CONVOLUTION_LIMIT,
    ensures
        c@.len() == product_len(a@.len(), b@.len()),
        forall|k: int|
            0 <= k < c@.len() ==> #[trigger] c@[k] == residue(
                conv(coeffs(a@), coeffs(b@), k as nat),
            ),
{
    convolution_raw::<u32, Mod998244353>(a, b)
}

} // verus!
