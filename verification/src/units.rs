//! Every nonzero element of the field has an inverse.
//!
//! The proof goes by the powers of 3. The order of the field less one is
//! `2^23 * 7 * 17`, and 3 to that power is 1, while 3 to that power divided by
//! 2, by 7 or by 17 is not. So the first `2^23 * 7 * 17` powers of 3 differ
//! from one another; they are that many nonzero residues, hence all of them,
//! and a power of 3 has another power of 3 for its inverse.

use crate::field::{is_inverse_of, is_unit, lemma_cancel_unit, lemma_residue_mul, residue, MODULUS};
use vstd::arithmetic::power::{lemma_pow_adds, pow};
use vstd::arithmetic::power2::{lemma2_to64, lemma_pow2_unfold, pow2};
use vstd::prelude::*;
use vstd::relations::injective_on;
use vstd::set_lib::{lemma_int_range, lemma_map_size, lemma_subset_equality, set_int_range};

verus! {

/// The number of nonzero elements of the field: `2^23 * 7 * 17`.
pub open spec fn unit_count() -> nat {
    998_244_352
}

/// 3 to the power `t` in the field.
pub open spec fn root_power(t: nat) -> int {
    residue(pow(3, t))
}

/// `x` squared `i` times over in the field.
pub open spec fn squared_times(x: int, i: nat) -> int
    decreases i,
{
    if i == 0 {
        x
    } else {
        squared_times(residue(x * x), (i - 1) as nat)
    }
}

/// The power to a sum is the product of the powers.
proof fn lemma_root_power_adds(s: nat, t: nat)
    ensures
        root_power(s + t) == residue(root_power(s) * root_power(t)),
{
    lemma_pow_adds(3, s, t);
    lemma_residue_mul(pow(3, s), pow(3, t));
}

/// Squaring a power `i` times multiplies its exponent by `2^i`.
proof fn lemma_squared_times(t: nat, i: nat)
    ensures
        root_power(t * pow2(i)) == squared_times(root_power(t), i),
    decreases i,
{
    if i == 0 {
        lemma2_to64();
        assert(t * 1 == t);
    } else {
        let j = (i - 1) as nat;
        lemma_root_power_adds(t, t);
        lemma_squared_times(2 * t, j);
        lemma_pow2_unfold(i);
        assert((2 * t) * pow2(j) == t * pow2(i)) by (nonlinear_arith)
            requires
                pow2(i) == 2 * pow2(j),
        ;
    }
}

/// Where the power to `t` is 1, so is the power to every multiple of `t`.
proof fn lemma_root_power_multiple(t: nat, y: nat)
    requires
        root_power(t) == 1,
    ensures
        root_power(t * y) == 1,
    decreases y,
{
    if y == 0 {
        assert(t * 0 == 0);
        reveal(pow);
    } else {
        let z = (y - 1) as nat;
        lemma_root_power_multiple(t, z);
        lemma_root_power_adds(t * z, t);
        assert(t * z + t == t * y) by (nonlinear_arith)
            requires
                z + 1 == y,
        ;
    }
}

/// 3 to the powers 7, 17 and 119.
proof fn lemma_root_power_small()
    ensures
        root_power(7) == 2187,
        root_power(17) == 129140163,
        root_power(119) == 15311432,
{
    assert(pow(3, 7) == 2187) by {
        reveal_with_fuel(pow, 8);
    }
    lemma_pow_adds(3, 7, 7);
    lemma_pow_adds(3, 14, 3);
    assert(pow(3, 3) == 27) by {
        reveal_with_fuel(pow, 4);
    }
    assert(pow(3, 14) == 4782969);
    assert(pow(3, 17) == 129140163);
    assert(root_power(17) == 129140163);
    lemma_root_power_adds(17, 17);
    assert(residue(129140163int * 129140163int) == 437339833);
    assert(root_power(34) == 437339833);
    lemma_root_power_adds(34, 34);
    assert(residue(437339833int * 437339833int) == 909120094);
    assert(root_power(68) == 909120094);
    lemma_root_power_adds(68, 34);
    assert(residue(909120094int * 437339833int) == 214138673);
    assert(root_power(102) == 214138673);
    lemma_root_power_adds(102, 17);
    assert(residue(214138673int * 129140163int) == 15311432);
}

/// 3 to the power of half the number of units is -1, and to the power of the
/// number of units it is 1.
proof fn lemma_root_power_half()
    ensures
        root_power(499_122_176) == 998_244_352,
        root_power(unit_count()) == 1,
{
    lemma_root_power_small();
    lemma_squared_times(119, 22);
    lemma2_to64();
    assert(119 * pow2(22) == 499_122_176);
    assert(squared_times(15311432, 22) == 998_244_352) by {
        reveal_with_fuel(squared_times, 23);
    }
    lemma_root_power_adds(499_122_176, 499_122_176);
}

/// 3 to the power of a seventh of the number of units is not 1.
proof fn lemma_root_power_seventh()
    ensures
        root_power(142_606_336) == 779_057_549,
{
    lemma_root_power_small();
    lemma_squared_times(17, 23);
    lemma2_to64();
    assert(17 * pow2(23) == 142_606_336);
    assert(squared_times(129140163, 23) == 779_057_549) by {
        reveal_with_fuel(squared_times, 24);
    }
}

/// 3 to the power of a seventeenth of the number of units is not 1.
proof fn lemma_root_power_seventeenth()
    ensures
        root_power(58_720_256) == 337_827_833,
{
    lemma_root_power_small();
    lemma_squared_times(7, 23);
    lemma2_to64();
    assert(7 * pow2(23) == 58_720_256);
    assert(squared_times(2187, 23) == 337_827_833) by {
        reveal_with_fuel(squared_times, 24);
    }
}

/// Seven is prime: where it divides a product and not the one factor, it
/// divides the other.
proof fn lemma_seven_divides_factor(a: int, b: int)
    requires
        (a * b) % 7 == 0,
        b % 7 != 0,
    ensures
        a % 7 == 0,
{
    let r = b % 7;
    let c = b / 7;
    let s = a % 7;
    let d = a / 7;
    assert(a * b == 7 * (7 * (d * c) + d * r + s * c) + s * r) by (nonlinear_arith)
        requires
            b == 7 * c + r,
            a == 7 * d + s,
    ;
    assert(s == 0) by (nonlinear_arith)
        requires
            0 <= s < 7,
            1 <= r < 7,
            (s * r) % 7 == 0,
    ;
}

/// Seventeen is prime: where it divides a product and not the one factor, it
/// divides the other.
proof fn lemma_seventeen_divides_factor(a: int, b: int)
    requires
        (a * b) % 17 == 0,
        b % 17 != 0,
    ensures
        a % 17 == 0,
{
    let r = b % 17;
    let c = b / 17;
    let s = a % 17;
    let d = a / 17;
    assert(a * b == 17 * (17 * (d * c) + d * r + s * c) + s * r) by (nonlinear_arith)
        requires
            b == 17 * c + r,
            a == 17 * d + s,
    ;
    assert(s == 0) by (nonlinear_arith)
        requires
            0 <= s < 17,
            1 <= r < 17,
            (s * r) % 17 == 0,
    ;
}

/// Where an odd `y` divides `2^i * 119`, it divides 119: the cofactor that is
/// returned is what is left of `g` without its factor `2^i`.
proof fn lemma_strip_twos(g: int, y: int, i: nat) -> (h: int)
    requires
        y % 2 == 1,
        g * y == pow2(i) * 119,
    ensures
        h * y == 119,
    decreases i,
{
    if i == 0 {
        lemma2_to64();
        g
    } else {
        let j = (i - 1) as nat;
        lemma_pow2_unfold(i);
        let c = y / 2;
        if g % 2 == 1 {
            let a = g / 2;
            assert(g * y == 2 * (2 * a * c + a + c) + 1) by (nonlinear_arith)
                requires
                    g == 2 * a + 1,
                    y == 2 * c + 1,
            ;
            assert(false);
        }
        let half = g / 2;
        assert(half * y == pow2(j) * 119) by (nonlinear_arith)
            requires
                g == 2 * half,
                g * y == (2 * pow2(j)) * 119,
        ;
        lemma_strip_twos(half, y, j)
    }
}

/// A divisor of the number of units, other than 1, is divisible by 2, by 7 or
/// by 17.
proof fn lemma_cofactor_has_prime(g: int, y: int)
    requires
        g * y == unit_count(),
        y >= 2,
    ensures
        y % 2 == 0 || y % 7 == 0 || y % 17 == 0,
{
    if y % 2 != 0 && y % 7 != 0 && y % 17 != 0 {
        lemma2_to64();
        assert(pow2(23) * 119 == unit_count());
        let h = lemma_strip_twos(g, y, 23);
        assert((h * y) % 7 == 0);
        lemma_seven_divides_factor(h, y);
        let k = h / 7;
        assert(k * y == 17) by (nonlinear_arith)
            requires
                h == 7 * k,
                h * y == 119,
        ;
        lemma_seventeen_divides_factor(k, y);
        let l = k / 17;
        assert(l * y == 1) by (nonlinear_arith)
            requires
                k == 17 * l,
                k * y == 17,
        ;
        assert(false) by (nonlinear_arith)
            requires
                l * y == 1,
                y >= 2,
        ;
    }
}

/// Where the powers to `s` and to `t` are 1, so is the power to a common
/// divisor of `s` and `t`: the result holds the divisor and the two quotients.
proof fn lemma_common_period(s: nat, t: nat) -> (r: (nat, nat, nat))
    requires
        s > 0,
        t > 0,
        root_power(s) == 1,
        root_power(t) == 1,
    ensures
        r.0 > 0,
        s == r.0 * r.1,
        t == r.0 * r.2,
        root_power(r.0) == 1,
    decreases s + t,
{
    if s == t {
        assert(s == s * 1);
        (s, 1, 1)
    } else if s > t {
        let d = (s - t) as nat;
        lemma_root_power_adds(t, d);
        let (g, x, y) = lemma_common_period(d, t);
        assert(s == g * (x + y)) by (nonlinear_arith)
            requires
                s == d + t,
                d == g * x,
                t == g * y,
        ;
        (g, x + y, y)
    } else {
        let d = (t - s) as nat;
        lemma_root_power_adds(s, d);
        let (g, x, y) = lemma_common_period(s, d);
        assert(t == g * (x + y)) by (nonlinear_arith)
            requires
                t == s + d,
                s == g * x,
                d == g * y,
        ;
        (g, x, x + y)
    }
}

/// No power of 3 with an exponent between 0 and the number of units is 1.
proof fn lemma_no_short_period(d: nat)
    requires
        0 < d < unit_count(),
    ensures
        root_power(d) != 1,
{
    if root_power(d) == 1 {
        lemma_root_power_half();
        lemma_root_power_seventh();
        lemma_root_power_seventeenth();
        let n = unit_count();
        let (g, x, y) = lemma_common_period(d, n);
        assert(g <= d && y >= 2) by (nonlinear_arith)
            requires
                g > 0,
                d > 0,
                d == g * x,
                n == g * y,
                d < n,
        ;
        lemma_cofactor_has_prime(g as int, y as int);
        if y % 2 == 0 {
            let z = y / 2;
            lemma_root_power_multiple(g, z);
            assert(g * z == 499_122_176) by (nonlinear_arith)
                requires
                    y == 2 * z,
                    g * y == 998_244_352,
            ;
        } else if y % 7 == 0 {
            let z = y / 7;
            lemma_root_power_multiple(g, z);
            assert(g * z == 142_606_336) by (nonlinear_arith)
                requires
                    y == 7 * z,
                    g * y == 998_244_352,
            ;
        } else {
            let z = y / 17;
            lemma_root_power_multiple(g, z);
            assert(g * z == 58_720_256) by (nonlinear_arith)
                requires
                    y == 17 * z,
                    g * y == 998_244_352,
            ;
        }
    }
}

/// A power of 3 has an inverse: another power of 3.
proof fn lemma_root_power_is_unit(t: nat)
    requires
        t <= unit_count(),
    ensures
        is_unit(root_power(t)),
        0 < root_power(t) < MODULUS,
{
    lemma_root_power_half();
    let u = (unit_count() - t) as nat;
    lemma_root_power_adds(t, u);
    assert(is_inverse_of(root_power(u), root_power(t)));
    if root_power(t) == 0 {
        assert(0 * root_power(u) == 0);
    }
}

/// The powers of 3 with exponents below the number of units differ from one
/// another.
proof fn lemma_root_power_injective(i: nat, j: nat)
    requires
        i < j < unit_count(),
    ensures
        root_power(i) != root_power(j),
{
    if root_power(i) == root_power(j) {
        let d = (j - i) as nat;
        lemma_root_power_adds(i, d);
        lemma_root_power_is_unit(i);
        assert(root_power(i) * 1 == root_power(i));
        lemma_cancel_unit(root_power(i), root_power(d), 1);
        lemma_no_short_period(d);
    }
}

/// Every nonzero element of the field is a power of 3.
proof fn lemma_nonzero_is_root_power(a: int)
    requires
        0 < a < MODULUS,
    ensures
        exists|t: nat| t < unit_count() && root_power(t) == a,
{
    let n = unit_count() as int;
    let exponents = set_int_range(0, n);
    let f = |i: int| root_power(i as nat);
    let powers = exponents.map(f);
    let nonzero = set_int_range(1, MODULUS as int);
    lemma_int_range(0, n);
    lemma_int_range(1, MODULUS as int);
    assert(injective_on(f, exponents)) by {
        assert forall|i: int, j: int|
            exponents.contains(i) && exponents.contains(j) && #[trigger] f(i) == #[trigger] f(
                j,
            ) implies i == j by {
            if i < j {
                lemma_root_power_injective(i as nat, j as nat);
            } else if j < i {
                lemma_root_power_injective(j as nat, i as nat);
            }
        }
    }
    lemma_map_size(exponents, powers, f);
    assert(powers.subset_of(nonzero)) by {
        assert forall|b: int| powers.contains(b) implies nonzero.contains(b) by {
            let i = choose|i: int| exponents.contains(i) && b == f(i);
            lemma_root_power_is_unit(i as nat);
        }
    }
    lemma_subset_equality(powers, nonzero);
    assert(nonzero.contains(a));
    assert(powers.contains(a));
    let i = choose|i: int| exponents.contains(i) && a == f(i);
    assert(root_power(i as nat) == a);
}

/// Every element of the field but zero has an inverse.
pub proof fn lemma_nonzero_is_unit(a: int)
    requires
        residue(a) != 0,
    ensures
        is_unit(a),
{
    let b = residue(a);
    lemma_nonzero_is_root_power(b);
    let t = choose|t: nat| t < unit_count() && root_power(t) == b;
    lemma_root_power_is_unit(t);
    let w = choose|w: int| is_inverse_of(w, b);
    lemma_residue_mul(a, w);
    assert(is_inverse_of(w, a));
}

} // verus!

