//! The series container: the stored coefficients of a truncated power series.

use crate::convolution::{convolve, product_len, CONVOLUTION_LIMIT};
use crate::field::{add_mod, mul_mod, reduce_i64, residue, sub_mod, MODULUS};
use crate::series::{
    congruent, constant, conv, conv_terms, dropped, lemma_conv_agree, lemma_conv_beyond, minus,
    plus, reduced, scaled, shifted, times, Series,
};
use crate::sums::lemma_sum_peel_first;
use vstd::prelude::*;

verus! {

/// The series whose coefficients are those stored in `s`, followed by zeros.
pub open spec fn coeffs(s: Seq<u32>) -> Series {
    |k: nat| if k < s.len() { s[k as int] as int } else { 0int }
}

/// The length that is left of `s` once its trailing zeros are removed, where
/// the first coefficient always stays.
pub open spec fn shrunk_len(s: Seq<u32>) -> nat
    decreases s.len(),
{
    if s.len() <= 1 {
        s.len()
    } else if s.last() != 0 {
        s.len()
    } else {
        shrunk_len(s.drop_last())
    }
}

/// The first `n` coefficients of the series stored in `s`, with zeros where
/// `s` is shorter.
pub open spec fn prefix(s: Seq<u32>, n: nat) -> Seq<u32> {
    Seq::new(n, |i: int| if i < s.len() { s[i] } else { 0u32 })
}

/// The canonical residues of a sequence of integers.
pub open spec fn residues_of(v: Seq<i64>) -> Seq<u32> {
    Seq::new(v.len(), |i: int| residue(v[i] as int) as u32)
}

/// The first `n` coefficients of the series `a`, as they are stored.
pub open spec fn stored(a: Series, n: nat) -> Seq<u32> {
    Seq::new(n, |i: int| a(i as nat) as u32)
}

/// The longer of two lengths.
pub open spec fn longer(n: nat, m: nat) -> nat {
    if n >= m {
        n
    } else {
        m
    }
}

/// A length less `k`, and zero where it is shorter than `k`.
pub open spec fn shortened(n: nat, k: nat) -> nat {
    if n >= k {
        (n - k) as nat
    } else {
        0
    }
}

/// The stored coefficients of the product of the series stored in `a` and in
/// `b`: as many as the lengths allow to be nonzero, `a` taken without its
/// trailing zeros.
pub open spec fn product_of(a: Seq<u32>, b: Seq<u32>) -> Seq<u32> {
    stored(reduced(times(coeffs(a), coeffs(b))), product_len(shrunk_len(a), b.len()))
}

/// Every stored coefficient is a canonical residue.
pub open spec fn canonical(s: Seq<u32>) -> bool {
    forall|i: int| 0 <= i < s.len() ==> #[trigger] s[i] < MODULUS
}

/// A formal power series over the field of order 998244353, held as the
/// coefficients of its lowest terms: `a[i]` is the coefficient of `x^i`, and
/// every coefficient that is not stored is zero.
pub struct FPS {
    a: Vec<u32>,
}

/// The series over the field of order 998244353, by its full name.
pub type FPS998244353 = FPS;

impl View for FPS {
    type V = Seq<u32>;

    /// The stored coefficients.
    closed spec fn view(&self) -> Seq<u32> {
        self.a@
    }
}

impl Clone for FPS {
    fn clone(&self) -> (r: Self)
        ensures
            r@ == self@,
    {
        FPS { a: self.a.clone() }
    }
}

impl FPS {
    /// The type's invariant: the stored coefficients are canonical residues.
    pub open spec fn wf(&self) -> bool {
        canonical(self@)
    }

    /// The series as a function from the index of a term to its coefficient.
    pub open spec fn series(&self) -> Series {
        coeffs(self@)
    }

    /// The zero series, with no stored coefficient.
    pub fn new() -> (r: Self)
        ensures
            r.wf(),
            r@ == Seq::<u32>::empty(),
    {
        FPS { a: Vec::new() }
    }

    /// The constant series `x`, reduced into the field.
    pub fn constant(x: i64) -> (r: Self)
        ensures
            r.wf(),
            r@ == seq![residue(x as int) as u32],
    {
        let mut a: Vec<u32> = Vec::new();
        a.push(reduce_i64(x));
        assert(a@ =~= seq![residue(x as int) as u32]);
        FPS { a }
    }

    /// The series with the given coefficients, each reduced into the field.
    pub fn from_coefficients(v: &Vec<i64>) -> (r: Self)
        ensures
            r.wf(),
            r@ == residues_of(v@),
    {
        let mut a: Vec<u32> = Vec::new();
        let mut i: usize = 0;
        while i < v.len()
            invariant
                i <= v.len(),
                a@.len() == i,
                canonical(a@),
                forall|j: int| 0 <= j < i ==> #[trigger] a@[j] == residue(v@[j] as int),
            decreases v.len() - i,
        {
            a.push(reduce_i64(v[i]));
            i += 1;
        }
        assert(a@ =~= residues_of(v@));
        FPS { a }
    }

    /// The series that stores exactly the given canonical residues.
    pub(crate) fn from_residues(a: Vec<u32>) -> (r: Self)
        requires
            canonical(a@),
        ensures
            r.wf(),
            r@ == a@,
    {
        FPS { a }
    }

    /// The stored coefficients, lowest term first.
    pub fn coefficients(&self) -> (r: Vec<u32>)
        ensures
            r@ == self@,
    {
        self.a.clone()
    }

    /// The number of stored coefficients.
    pub fn len(&self) -> (r: usize)
        ensures
            r == self@.len(),
    {
        self.a.len()
    }

    /// Whether every coefficient is zero.
    pub fn is_zero(&self) -> (r: bool)
        ensures
            r <==> (forall|k: nat| #[trigger] self.series()(k) == 0),
    {
        let mut i: usize = 0;
        while i < self.a.len()
            invariant
                i <= self.a.len(),
                forall|j: int| 0 <= j < i ==> #[trigger] self.a@[j] == 0,
            decreases self.a.len() - i,
        {
            if self.a[i] != 0 {
                assert(self.series()(i as nat) != 0);
                return false;
            }
            i += 1;
        }
        true
    }

    /// The coefficient of `x^n`: the stored one, or zero beyond the stored
    /// length.
    pub fn at(&self, n: usize) -> (r: u32)
        ensures
            r == self.series()(n as nat),
    {
        if n < self.a.len() {
            self.a[n]
        } else {
            0
        }
    }

    /// The first `n` coefficients, with zeros where the series stores fewer.
    pub fn pre(&self, n: usize) -> (r: Self)
        requires
            self.wf(),
        ensures
            r.wf(),
            r@ == prefix(self@, n as nat),
    {
        let mut a: Vec<u32> = Vec::new();
        let mut i: usize = 0;
        while i < n
            invariant
                i <= n,
                self.wf(),
                a@.len() == i,
                canonical(a@),
                forall|j: int| 0 <= j < i ==> #[trigger] a@[j] == self.series()(j as nat),
            decreases n - i,
        {
            a.push(self.at(i));
            i += 1;
        }
        assert(a@ =~= prefix(self@, n as nat));
        FPS { a }
    }

    /// Writes the coefficient of `x^i`, reduced into the field. Where the
    /// series stores fewer than `i + 1` coefficients it grows to that length,
    /// with zeros in between.
    pub fn set_growing(&mut self, i: usize, x: i64)
        requires
            old(self).wf(),
            i < usize::MAX,
        ensures
            final(self).wf(),
            final(self)@ == prefix(old(self)@, longer(old(self)@.len(), (i + 1) as nat)).update(
                i as int,
                residue(x as int) as u32,
            ),
    {
        self.reserve(i + 1);
        let v = reduce_i64(x);
        self.a.set(i, v);
        assert(self@ =~= prefix(old(self)@, longer(old(self)@.len(), (i + 1) as nat)).update(
            i as int,
            residue(x as int) as u32,
        ));
    }

    /// Grows the stored coefficients to at least `n`, with zeros.
    pub(crate) fn reserve(&mut self, n: usize)
        requires
            old(self).wf(),
        ensures
            final(self).wf(),
            final(self)@.len() == longer(old(self)@.len(), n as nat),
            final(self).series() == old(self).series(),
            forall|i: int|
                0 <= i < old(self)@.len() ==> #[trigger] final(self)@[i] == old(self)@[i],
            forall|i: int| old(self)@.len() <= i < n ==> #[trigger] final(self)@[i] == 0,
    {
        while self.a.len() < n
            invariant
                self.wf(),
                self@.len() >= old(self)@.len(),
                self@.len() <= n || self@.len() == old(self)@.len(),
                forall|i: int| 0 <= i < old(self)@.len() ==> #[trigger] self@[i] == old(self)@[i],
                forall|i: int| old(self)@.len() <= i < self@.len() ==> #[trigger] self@[i] == 0,
            decreases n - self.a.len(),
        {
            self.a.push(0);
        }
        assert(self.series() =~= old(self).series());
    }

    /// Adds `other` to the series. The series grows to the length of `other`
    /// where it is shorter.
    pub fn add_assign(&mut self, other: &FPS)
        requires
            old(self).wf(),
            other.wf(),
        ensures
            final(self).wf(),
            final(self)@ == stored(
                reduced(plus(old(self).series(), other.series())),
                longer(old(self)@.len(), other@.len()),
            ),
            final(self).series() == reduced(plus(old(self).series(), other.series())),
    {
        self.reserve(other.len());
        let ghost padded = self@;
        let mut i: usize = 0;
        while i < other.a.len()
            invariant
                i <= other@.len(),
                other@.len() <= self@.len(),
                self@.len() == padded.len(),
                self.wf(),
                forall|j: int| 0 <= j < i ==> #[trigger] self@[j] == residue(padded[j] + other@[j]),
                forall|j: int| i <= j < self@.len() ==> #[trigger] self@[j] == padded[j],
            decreases other@.len() - i,
        {
            let v = add_mod(self.a[i], other.a[i]);
            self.a.set(i, v);
            i += 1;
        }
        assert(self.series() =~= reduced(plus(old(self).series(), other.series()))) by {
            assert forall|k: nat| #[trigger]
                self.series()(k) == reduced(plus(old(self).series(), other.series()))(k) by {
                if k < self@.len() {
                    assert(padded[k as int] == coeffs(padded)(k));
                    assert(self@[k as int] < MODULUS);
                }
            }
        }
        proof {
            lemma_stored(self@);
        }
    }

    /// Subtracts `other` from the series. The series grows to the length of
    /// `other` where it is shorter.
    pub fn sub_assign(&mut self, other: &FPS)
        requires
            old(self).wf(),
            other.wf(),
        ensures
            final(self).wf(),
            final(self)@ == stored(
                reduced(minus(old(self).series(), other.series())),
                longer(old(self)@.len(), other@.len()),
            ),
            final(self).series() == reduced(minus(old(self).series(), other.series())),
    {
        self.reserve(other.len());
        let ghost padded = self@;
        let mut i: usize = 0;
        while i < other.a.len()
            invariant
                i <= other@.len(),
                other@.len() <= self@.len(),
                self@.len() == padded.len(),
                self.wf(),
                forall|j: int| 0 <= j < i ==> #[trigger] self@[j] == residue(padded[j] - other@[j]),
                forall|j: int| i <= j < self@.len() ==> #[trigger] self@[j] == padded[j],
            decreases other@.len() - i,
        {
            let v = sub_mod(self.a[i], other.a[i]);
            self.a.set(i, v);
            i += 1;
        }
        assert(self.series() =~= reduced(minus(old(self).series(), other.series()))) by {
            assert forall|k: nat| #[trigger]
                self.series()(k) == reduced(minus(old(self).series(), other.series()))(k) by {
                if k < self@.len() {
                    assert(padded[k as int] == coeffs(padded)(k));
                    assert(self@[k as int] < MODULUS);
                }
            }
        }
        proof {
            lemma_stored(self@);
        }
    }

    /// Adds the field element `c` to the constant term. An empty series grows
    /// to one coefficient.
    pub fn add_scalar_assign(&mut self, c: u32)
        requires
            old(self).wf(),
        ensures
            final(self).wf(),
            final(self)@ == stored(
                reduced(plus(old(self).series(), constant(c as int))),
                longer(old(self)@.len(), 1),
            ),
            final(self).series() == reduced(plus(old(self).series(), constant(c as int))),
    {
        self.reserve(1);
        let ghost padded = self@;
        let v = add_mod(self.a[0], c);
        self.a.set(0, v);
        assert(self.series() =~= reduced(plus(old(self).series(), constant(c as int)))) by {
            assert forall|k: nat| #[trigger]
                self.series()(k) == reduced(plus(old(self).series(), constant(c as int)))(k) by {
                if k < self@.len() {
                    assert(padded[k as int] == coeffs(padded)(k));
                    assert(padded[k as int] < MODULUS);
                }
            }
        }
        proof {
            lemma_stored(self@);
        }
    }

    /// Subtracts the field element `c` from the constant term. An empty series
    /// grows to one coefficient.
    pub fn sub_scalar_assign(&mut self, c: u32)
        requires
            old(self).wf(),
        ensures
            final(self).wf(),
            final(self)@ == stored(
                reduced(minus(old(self).series(), constant(c as int))),
                longer(old(self)@.len(), 1),
            ),
            final(self).series() == reduced(minus(old(self).series(), constant(c as int))),
    {
        self.reserve(1);
        let ghost padded = self@;
        let v = sub_mod(self.a[0], c);
        self.a.set(0, v);
        assert(self.series() =~= reduced(minus(old(self).series(), constant(c as int)))) by {
            assert forall|k: nat| #[trigger]
                self.series()(k) == reduced(minus(old(self).series(), constant(c as int)))(k) by {
                if k < self@.len() {
                    assert(padded[k as int] == coeffs(padded)(k));
                    assert(padded[k as int] < MODULUS);
                }
            }
        }
        proof {
            lemma_stored(self@);
        }
    }

    /// Multiplies every coefficient by the field element `c`.
    pub fn scale_assign(&mut self, c: u32)
        requires
            old(self).wf(),
        ensures
            final(self).wf(),
            final(self)@ == stored(reduced(scaled(c as int, old(self).series())), old(self)@.len()),
            final(self).series() == reduced(scaled(c as int, old(self).series())),
    {
        let mut i: usize = 0;
        while i < self.a.len()
            invariant
                i <= self@.len(),
                self@.len() == old(self)@.len(),
                self.wf(),
                forall|j: int| 0 <= j < i ==> #[trigger] self@[j] == residue(c * old(self)@[j]),
                forall|j: int| i <= j < self@.len() ==> #[trigger] self@[j] == old(self)@[j],
            decreases self@.len() - i,
        {
            let v = mul_mod(c, self.a[i]);
            self.a.set(i, v);
            i += 1;
        }
        assert(self.series() =~= reduced(scaled(c as int, old(self).series()))) by {
            assert forall|k: nat| #[trigger]
                self.series()(k) == reduced(scaled(c as int, old(self).series()))(k) by {
                if k < self@.len() {
                    assert(old(self)@[k as int] == coeffs(old(self)@)(k));
                } else {
                    assert(c * 0 == 0);
                }
            }
        }
        proof {
            lemma_stored(self@);
        }
    }

    /// Divides by `x^n`: the first `n` coefficients are removed, and the
    /// others move down by `n` places.
    pub fn shr_assign(&mut self, n: usize)
        requires
            old(self).wf(),
        ensures
            final(self).wf(),
            final(self)@ == stored(
                dropped(old(self).series(), n as nat),
                shortened(old(self)@.len(), n as nat),
            ),
            final(self).series() == dropped(old(self).series(), n as nat),
    {
        let mut a: Vec<u32> = Vec::new();
        let mut i: usize = n;
        while i < self.a.len()
            invariant
                n <= i,
                i <= self@.len() || i == n,
                self.wf(),
                a@.len() == i - n,
                canonical(a@),
                forall|j: int| 0 <= j < a@.len() ==> #[trigger] a@[j] == self@[j + n],
            decreases self@.len() - i,
        {
            a.push(self.a[i]);
            i += 1;
        }
        assert(coeffs(a@) =~= dropped(self.series(), n as nat)) by {
            assert forall|k: nat| #[trigger]
                coeffs(a@)(k) == dropped(self.series(), n as nat)(k) by {
                if k < a@.len() {
                    assert(a@[k as int] == self@[k + n]);
                }
            }
        }
        self.a = a;
        proof {
            lemma_stored(self@);
        }
    }

    /// Multiplies by `x^n`: `n` zero coefficients are put in front.
    pub fn shl_assign(&mut self, n: usize)
        requires
            old(self).wf(),
            old(self)@.len() + n <= usize::MAX,
        ensures
            final(self).wf(),
            final(self)@ == stored(
                shifted(old(self).series(), n as nat),
                old(self)@.len() + n as nat,
            ),
            final(self).series() == shifted(old(self).series(), n as nat),
    {
        let mut a: Vec<u32> = Vec::new();
        let mut i: usize = 0;
        while i < n
            invariant
                i <= n,
                a@.len() == i,
                forall|j: int| 0 <= j < i ==> #[trigger] a@[j] == 0,
            decreases n - i,
        {
            a.push(0);
            i += 1;
        }
        let mut j: usize = 0;
        while j < self.a.len()
            invariant
                j <= self@.len(),
                self.wf(),
                self@.len() + n <= usize::MAX,
                a@.len() == n + j,
                forall|l: int| 0 <= l < n ==> #[trigger] a@[l] == 0,
                forall|l: int| n <= l < n + j ==> #[trigger] a@[l] == self@[l - n],
            decreases self@.len() - j,
        {
            a.push(self.a[j]);
            j += 1;
        }
        assert(coeffs(a@) =~= shifted(self.series(), n as nat)) by {
            assert forall|k: nat| #[trigger]
                coeffs(a@)(k) == shifted(self.series(), n as nat)(k) by {
                if n <= k && k < a@.len() {
                    assert(a@[k as int] == self@[k - n]);
                }
            }
        }
        assert(canonical(a@)) by {
            assert forall|l: int| 0 <= l < a@.len() implies #[trigger] a@[l] < MODULUS by {
                if l >= n {
                    assert(a@[l] == self@[l - n]);
                }
            }
        }
        self.a = a;
        proof {
            lemma_stored(self@);
        }
    }

    /// Multiplies the series by `other`. The series is shrunk first, and the
    /// product is exact: it holds every coefficient up to the last one that
    /// the two lengths allow to be nonzero.
    pub fn mul_assign(&mut self, other: &FPS)
        requires
            old(self).wf(),
            other.wf(),
            product_len(shrunk_len(old(self)@), other@.len()) <= CONVOLUTION_LIMIT,
        ensures
            final(self).wf(),
            final(self)@ == product_of(old(self)@, other@),
            final(self).series() == reduced(times(old(self).series(), other.series())),
    {
        self.shrink();
        proof {
            lemma_shrunk_len_bounds(old(self)@);
            assert(self@.len() == shrunk_len(old(self)@));
        }
        let c = convolve(&self.a, &other.a);
        proof {
            let x = self.series();
            let y = other.series();
            assert forall|k: nat| #[trigger] coeffs(c@)(k) == reduced(times(x, y))(k) by {
                if k < c@.len() {
                    assert(c@[k as int] == residue(conv(x, y, k)));
                } else {
                    lemma_conv_beyond(x, y, self@.len(), other@.len(), k);
                }
            }
            assert(coeffs(c@) =~= reduced(times(x, y)));
            assert forall|i: int| 0 <= i < c@.len() implies #[trigger] c@[i] < MODULUS by {
                assert(c@[i] == residue(conv(x, y, i as nat)));
            }
        }
        self.a = c;
        proof {
            lemma_stored(self@);
        }
    }

    /// The sum of the series and `other`.
    pub fn add(&self, other: &FPS) -> (r: FPS)
        requires
            self.wf(),
            other.wf(),
        ensures
            r.wf(),
            r@ == stored(
                reduced(plus(self.series(), other.series())),
                longer(self@.len(), other@.len()),
            ),
            r.series() == reduced(plus(self.series(), other.series())),
    {
        let mut r = self.clone();
        r.add_assign(other);
        r
    }

    /// The difference of the series and `other`.
    pub fn sub(&self, other: &FPS) -> (r: FPS)
        requires
            self.wf(),
            other.wf(),
        ensures
            r.wf(),
            r@ == stored(
                reduced(minus(self.series(), other.series())),
                longer(self@.len(), other@.len()),
            ),
            r.series() == reduced(minus(self.series(), other.series())),
    {
        let mut r = self.clone();
        r.sub_assign(other);
        r
    }

    /// The product of the series and `other`.
    pub fn mul(&self, other: &FPS) -> (r: FPS)
        requires
            self.wf(),
            other.wf(),
            product_len(shrunk_len(self@), other@.len()) <= CONVOLUTION_LIMIT,
        ensures
            r.wf(),
            r@ == product_of(self@, other@),
            r.series() == reduced(times(self.series(), other.series())),
    {
        let mut r = self.clone();
        r.mul_assign(other);
        r
    }

    /// The series with the field element `c` added to its constant term.
    pub fn add_scalar(&self, c: u32) -> (r: FPS)
        requires
            self.wf(),
        ensures
            r.wf(),
            r@ == stored(reduced(plus(self.series(), constant(c as int))), longer(self@.len(), 1)),
            r.series() == reduced(plus(self.series(), constant(c as int))),
    {
        let mut r = self.clone();
        r.add_scalar_assign(c);
        r
    }

    /// The series with the field element `c` subtracted from its constant
    /// term.
    pub fn sub_scalar(&self, c: u32) -> (r: FPS)
        requires
            self.wf(),
        ensures
            r.wf(),
            r@ == stored(reduced(minus(self.series(), constant(c as int))), longer(self@.len(), 1)),
            r.series() == reduced(minus(self.series(), constant(c as int))),
    {
        let mut r = self.clone();
        r.sub_scalar_assign(c);
        r
    }

    /// The series with every coefficient multiplied by the field element `c`.
    pub fn scale(&self, c: u32) -> (r: FPS)
        requires
            self.wf(),
        ensures
            r.wf(),
            r@ == stored(reduced(scaled(c as int, self.series())), self@.len()),
            r.series() == reduced(scaled(c as int, self.series())),
    {
        let mut r = self.clone();
        r.scale_assign(c);
        r
    }

    /// The series divided by `x^n`, without its first `n` coefficients.
    pub fn shr(&self, n: usize) -> (r: FPS)
        requires
            self.wf(),
        ensures
            r.wf(),
            r@ == stored(dropped(self.series(), n as nat), shortened(self@.len(), n as nat)),
            r.series() == dropped(self.series(), n as nat),
    {
        let mut r = self.clone();
        r.shr_assign(n);
        r
    }

    /// The series multiplied by `x^n`.
    pub fn shl(&self, n: usize) -> (r: FPS)
        requires
            self.wf(),
            self@.len() + n <= usize::MAX,
        ensures
            r.wf(),
            r@ == stored(shifted(self.series(), n as nat), self@.len() + n as nat),
            r.series() == shifted(self.series(), n as nat),
    {
        let mut r = self.clone();
        r.shl_assign(n);
        r
    }

    /// Removes the trailing zero coefficients, down to the last nonzero one;
    /// the first coefficient always stays.
    pub fn shrink(&mut self)
        requires
            old(self).wf(),
        ensures
            final(self).wf(),
            final(self)@ == old(self)@.take(shrunk_len(old(self)@) as int),
            final(self).series() == old(self).series(),
    {
        while self.a.len() > 1 && self.a[self.a.len() - 1] == 0
            invariant
                self.wf(),
                self@.len() <= old(self)@.len(),
                self@ == old(self)@.take(self@.len() as int),
                shrunk_len(self@) == shrunk_len(old(self)@),
                forall|i: int|
                    self@.len() <= i < old(self)@.len() ==> #[trigger] old(self)@[i] == 0,
            decreases self.a.len(),
        {
            let ghost before = self@;
            self.a.pop();
            assert(self@ == before.drop_last());
            assert(self@ =~= old(self)@.take(self@.len() as int));
        }
        proof {
            lemma_shrunk_len_bounds(old(self)@);
            assert(shrunk_len(self@) == self@.len());
            assert(self.series() =~= old(self).series());
        }
    }
}

/// One more stored coefficient `c` changes the coefficients of a product with
/// `f` from that of `x^n` on, where `n` coefficients were stored before, and
/// adds `f(0) * c` to that one.
pub proof fn lemma_conv_extended(f: Series, g: Seq<u32>, c: u32)
    ensures
        conv(f, coeffs(g.push(c)), g.len()) == conv(f, coeffs(g), g.len()) + f(0) * c,
        forall|j: nat|
            j < g.len() ==> #[trigger] conv(f, coeffs(g.push(c)), j) == conv(f, coeffs(g), j),
{
    let k = g.len();
    let old_series = coeffs(g);
    let new_series = coeffs(g.push(c));
    let s = conv_terms(f, old_series, k);
    let t = conv_terms(f, new_series, k);
    let rest = |i: nat| s(i + 1);
    assert forall|i: nat| i < k implies #[trigger] rest(i) == t(i + 1) by {
        let j = (k - (i + 1)) as nat;
        assert(new_series(j) == old_series(j));
    }
    lemma_sum_peel_first(s, rest, k);
    lemma_sum_peel_first(t, rest, k);
    assert(s(0) == f(0) * old_series(k));
    assert(f(0) * 0 == 0);
    assert(t(0) == f(0) * new_series(k));
    assert forall|j: nat| j < k implies #[trigger] conv(f, new_series, j) == conv(
        f,
        old_series,
        j,
    ) by {
        assert forall|i: nat| i <= j implies #[trigger] new_series(i) == old_series(i) by {}
        lemma_conv_agree(f, new_series, f, old_series, j);
    }
}

/// The product that is stored holds every coefficient of the product that is
/// not zero.
pub proof fn lemma_product_of(a: Seq<u32>, b: Seq<u32>)
    ensures
        coeffs(product_of(a, b)) == reduced(times(coeffs(a), coeffs(b))),
        canonical(product_of(a, b)),
{
    let p = product_of(a, b);
    let full = reduced(times(coeffs(a), coeffs(b)));
    lemma_shrunk_len_bounds(a);
    assert forall|k: nat| #[trigger] coeffs(p)(k) == full(k) by {
        if k >= p.len() {
            assert forall|i: nat| i >= shrunk_len(a) implies #[trigger] coeffs(a)(i) == 0 by {
                if i < a.len() {
                    assert(a[i as int] == 0);
                }
            }
            lemma_conv_beyond(coeffs(a), coeffs(b), shrunk_len(a), b.len(), k);
        }
    }
    assert(coeffs(p) =~= full);
}

/// A sequence of coefficients is what is stored of its own series.
pub proof fn lemma_stored(s: Seq<u32>)
    ensures
        s == stored(coeffs(s), s.len()),
{
    assert(s =~= stored(coeffs(s), s.len()));
}

/// Congruent series with canonical coefficients store the same coefficients.
pub proof fn lemma_congruent_stored(g: Seq<u32>, h: Seq<u32>)
    requires
        g.len() == h.len(),
        canonical(g),
        canonical(h),
        congruent(coeffs(g), coeffs(h), g.len()),
    ensures
        g == h,
{
    assert forall|i: int| 0 <= i < g.len() implies g[i] == h[i] by {
        assert(residue(coeffs(g)(i as nat)) == residue(coeffs(h)(i as nat)));
        assert(g[i] < MODULUS && h[i] < MODULUS);
    }
    assert(g =~= h);
}

/// Shrinking removes only zeros and never makes a series longer.
pub proof fn lemma_shrunk_len_bounds(s: Seq<u32>)
    ensures
        shrunk_len(s) <= s.len(),
        s.len() > 0 ==> shrunk_len(s) > 0,
        forall|i: int| shrunk_len(s) <= i < s.len() ==> #[trigger] s[i] == 0,
        coeffs(s.take(shrunk_len(s) as int)) == coeffs(s),
    decreases s.len(),
{
    if s.len() > 1 && s.last() == 0 {
        let t = s.drop_last();
        lemma_shrunk_len_bounds(t);
        assert forall|i: int| shrunk_len(s) <= i < s.len() implies #[trigger] s[i] == 0 by {
            if i < t.len() {
                assert(t[i] == s[i]);
            }
        }
    }
    let n = shrunk_len(s);
    assert forall|k: nat| #[trigger] coeffs(s.take(n as int))(k) == coeffs(s)(k) by {
        if n <= k && k < s.len() {
            assert(s[k as int] == 0);
        }
    }
    assert(coeffs(s.take(n as int)) =~= coeffs(s));
}

} // verus!
