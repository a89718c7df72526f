//! Finite sums of integer-valued functions on the naturals.

use crate::field::residue;
use vstd::prelude::*;

verus! {

/// `g(0) + g(1) + ... + g(n - 1)`.
pub open spec fn sum(g: spec_fn(nat) -> int, n: nat) -> int
    decreases n,
{
    if n == 0 {
        0
    } else {
        sum(g, (n - 1) as nat) + g((n - 1) as nat)
    }
}

/// Sums of functions that agree below `n` are equal.
pub proof fn lemma_sum_ext(g: spec_fn(nat) -> int, h: spec_fn(nat) -> int, n: nat)
    requires
        forall|i: nat| i < n ==> #[trigger] g(i) == h(i),
    ensures
        sum(g, n) == sum(h, n),
    decreases n,
{
    if n > 0 {
        lemma_sum_ext(g, h, (n - 1) as nat);
    }
}

/// A sum of zeros is zero.
pub proof fn lemma_sum_zero(g: spec_fn(nat) -> int, n: nat)
    requires
        forall|i: nat| i < n ==> #[trigger] g(i) == 0,
    ensures
        sum(g, n) == 0,
    decreases n,
{
    if n > 0 {
        lemma_sum_zero(g, (n - 1) as nat);
    }
}

/// The sum of a pointwise sum is the sum of the sums.
pub proof fn lemma_sum_add(
    s: spec_fn(nat) -> int,
    g: spec_fn(nat) -> int,
    h: spec_fn(nat) -> int,
    n: nat,
)
    requires
        forall|i: nat| i < n ==> #[trigger] s(i) == g(i) + h(i),
    ensures
        sum(s, n) == sum(g, n) + sum(h, n),
    decreases n,
{
    if n > 0 {
        lemma_sum_add(s, g, h, (n - 1) as nat);
    }
}

/// A constant factor can be taken out of a sum.
pub proof fn lemma_sum_scale(s: spec_fn(nat) -> int, g: spec_fn(nat) -> int, c: int, n: nat)
    requires
        forall|i: nat| i < n ==> #[trigger] s(i) == c * g(i),
    ensures
        sum(s, n) == c * sum(g, n),
    decreases n,
{
    if n > 0 {
        lemma_sum_scale(s, g, c, (n - 1) as nat);
        let m = (n - 1) as nat;
        assert(c * (sum(g, m) + g(m)) == c * sum(g, m) + c * g(m)) by (nonlinear_arith);
    } else {
        assert(c * 0 == 0);
    }
}

/// Taking the first term out of a sum: `s` is `g` moved down by one place.
pub proof fn lemma_sum_peel_first(g: spec_fn(nat) -> int, s: spec_fn(nat) -> int, n: nat)
    requires
        forall|i: nat| i < n ==> #[trigger] s(i) == g(i + 1),
    ensures
        sum(g, n + 1) == g(0) + sum(s, n),
    decreases n,
{
    if n > 0 {
        lemma_sum_peel_first(g, s, (n - 1) as nat);
        assert(sum(g, n + 1) == sum(g, n) + g(n));
    } else {
        assert(sum(g, 1) == sum(g, 0) + g(0));
    }
}

/// A sum does not depend on the direction in which its terms are added.
pub proof fn lemma_sum_reverse(g: spec_fn(nat) -> int, s: spec_fn(nat) -> int, n: nat)
    requires
        forall|i: nat| i < n ==> #[trigger] s(i) == g((n - 1 - i) as nat),
    ensures
        sum(s, n) == sum(g, n),
    decreases n,
{
    if n > 0 {
        let m = (n - 1) as nat;
        // s(0) is g(n - 1); the rest of s is the reverse of g below n - 1.
        let t = |i: nat| s(i + 1);
        assert forall|i: nat| i < m implies #[trigger] t(i) == g((m - 1 - i) as nat) by {
            assert(s(i + 1) == g((n - 1 - (i + 1)) as nat));
        }
        lemma_sum_reverse(g, t, m);
        lemma_sum_peel_first(s, t, m);
    }
}

/// Sums of functions that are congruent term by term modulo the field's order
/// are congruent.
pub proof fn lemma_sum_congruent(g: spec_fn(nat) -> int, h: spec_fn(nat) -> int, n: nat)
    requires
        forall|i: nat| i < n ==> residue(#[trigger] g(i)) == residue(h(i)),
    ensures
        residue(sum(g, n)) == residue(sum(h, n)),
    decreases n,
{
    if n > 0 {
        let k = (n - 1) as nat;
        lemma_sum_congruent(g, h, k);
        assert(residue(g(k)) == residue(h(k)));
    }
}

} // verus!
