//! Univariate polynomials over the prime field, stored as coefficient
//! vectors in ascending degree. Every constructor and every arithmetic
//! result is canonical: the coefficient sequence is empty (the zero
//! polynomial) or ends in a non-zero coefficient.

use crate::field::{f_add, f_mul, f_neg, f_sub, FieldElement, MODULUS};
use crate::util::remove_trailing_elements;
use vstd::pervasive::VecAdditionalExecFns;
use vstd::prelude::*;
use vstd::std_specs::cmp::PartialEqSpec;

verus! {

/// The coefficient of `X^k` in `s`, taking absent entries as zero.
pub open spec fn pget(s: Seq<int>, k: int) -> int {
    if 0 <= k < s.len() {
        s[k]
    } else {
        0
    }
}

/// Every entry is a canonical field residue.
pub open spec fn in_range(s: Seq<int>) -> bool {
    forall|i: int| 0 <= i < s.len() ==> 0 <= #[trigger] s[i] < MODULUS
}

/// The sequence is empty or does not end in a zero coefficient.
pub open spec fn canonical(s: Seq<int>) -> bool {
    s.len() == 0 || s[s.len() - 1] != 0
}

/// `s` with every trailing zero removed.
pub open spec fn trim(s: Seq<int>) -> Seq<int>
    decreases s.len(),
{
    if s.len() == 0 {
        s
    } else if s[s.len() - 1] == 0 {
        trim(s.drop_last())
    } else {
        s
    }
}

/// Trimming never changes a coefficient, and the result is canonical.
pub proof fn lemma_trim(s: Seq<int>)
    ensures
        canonical(trim(s)),
        trim(s).len() <= s.len(),
        forall|k: int| pget(trim(s), k) == pget(s, k),
    decreases s.len(),
{
    if s.len() == 0 {
    } else if s[s.len() - 1] == 0 {
        lemma_trim(s.drop_last());
        assert forall|k: int| pget(trim(s), k) == pget(s, k) by {
            assert(pget(trim(s), k) == pget(s.drop_last(), k));
        }
    } else {
    }
}

/// Two canonical sequences with the same coefficients are equal.
pub proof fn lemma_canonical_unique(a: Seq<int>, b: Seq<int>)
    requires
        canonical(a),
        canonical(b),
        forall|k: int| pget(a, k) == pget(b, k),
    ensures
        a == b,
{
    if a.len() < b.len() {
        assert(pget(a, b.len() - 1) == 0);
        assert(pget(b, b.len() - 1) == b[b.len() - 1]);
        assert(false);
    } else if b.len() < a.len() {
        assert(pget(b, a.len() - 1) == 0);
        assert(pget(a, a.len() - 1) == a[a.len() - 1]);
        assert(false);
    } else {
        assert forall|k: int| 0 <= k < a.len() implies a[k] == b[k] by {
            assert(pget(a, k) == pget(b, k));
        }
        assert(a =~= b);
    }
}

/// The views of a coefficient vector's entries.
pub open spec fn coeff_views(s: Seq<FieldElement>) -> Seq<int> {
    s.map_values(|c: FieldElement| c@)
}

#[derive(Debug, Clone, Eq)]
pub struct Polynomial {
    coeffs: Vec<FieldElement>,
}

impl View for Polynomial {
    type V = Seq<int>;

    closed spec fn view(&self) -> Seq<int> {
        coeff_views(self.coeffs@)
    }
}

impl PartialEq for Polynomial {
    fn eq(&self, other: &Self) -> (r: bool) {
        if self.coeffs.len() != other.coeffs.len() {
            proof {
                assert(self@.len() == self.coeffs@.len());
                assert(other@.len() == other.coeffs@.len());
            }
            return false;
        }
        let n = self.coeffs.len();
        let mut j: usize = 0;
        while j < n
            invariant
                n == self.coeffs@.len(),
                n == other.coeffs@.len(),
                j <= n,
                forall|i: int| 0 <= i < j ==> self@[i] == other@[i],
            decreases n - j,
        {
            if self.coeffs[j].ne(&other.coeffs[j]) {
                proof {
                    assert(self@[j as int] == self.coeffs@[j as int]@);
                    assert(other@[j as int] == other.coeffs@[j as int]@);
                }
                return false;
            }
            j = j + 1;
        }
        proof {
            assert(self@ =~= other@);
        }
        true
    }
}

impl vstd::std_specs::cmp::PartialEqSpecImpl for Polynomial {
    open spec fn obeys_eq_spec() -> bool {
        true
    }

    open spec fn eq_spec(&self, other: &Self) -> bool {
        self@ == other@
    }
}

impl Polynomial {
    /// Canonical and with every coefficient a canonical field residue.
    pub open spec fn wf(self) -> bool {
        &&& in_range(self@)
        &&& canonical(self@)
    }

    /// Builds the polynomial with the given ascending coefficients,
    /// trimming trailing zeros.
    pub fn new(coeffs: Vec<FieldElement>) -> (r: Self)
        requires
            forall|i: int| 0 <= i < coeffs@.len() ==> (#[trigger] coeffs@[i]).wf(),
        ensures
            r.wf(),
            forall|k: int| pget(r@, k) == pget(coeff_views(coeffs@), k),
    {
        let ghost entry = coeffs@;
        let ghost orig = coeff_views(coeffs@);
        let mut kept = coeffs;
        remove_trailing_elements(&mut kept, FieldElement::zero());
        proof {
            assert(kept@ == entry.subrange(0, kept@.len() as int));
            assert forall|k: int| pget(coeff_views(kept@), k) == pget(orig, k) by {
                if 0 <= k < kept@.len() {
                    assert(kept@[k] == entry.subrange(0, kept@.len() as int)[k]);
                    assert(coeff_views(kept@)[k] == kept@[k]@);
                    assert(orig[k] == entry[k]@);
                } else if kept@.len() <= k < entry.len() {
                    assert(entry[k]@ == 0);
                    assert(orig[k] == entry[k]@);
                }
            }
        }
        Polynomial { coeffs: kept }
    }

    /// The zero polynomial: the empty coefficient sequence.
    pub fn zero() -> (r: Self)
        ensures
            r.wf(),
            r@ == Seq::<int>::empty(),
    {
        proof {
            assert(coeff_views(Seq::<FieldElement>::empty()) =~= Seq::<int>::empty());
        }
        Polynomial { coeffs: Vec::new() }
    }

    /// The constant polynomial one.
    pub fn one() -> (r: Self)
        ensures
            r.wf(),
            r@ == seq![1int],
    {
        let mut coeffs: Vec<FieldElement> = Vec::new();
        coeffs.push(FieldElement::one());
        proof {
            assert(coeff_views(coeffs@) =~= seq![1int]);
        }
        Polynomial { coeffs }
    }

    /// The monomial `X`: coefficients `[0, 1]`.
    #[allow(non_snake_case)]
    pub fn X() -> (r: Self)
        ensures
            r.wf(),
            r@ == seq![0int, 1int],
    {
        let mut coeffs: Vec<FieldElement> = Vec::new();
        coeffs.push(FieldElement::zero());
        coeffs.push(FieldElement::one());
        proof {
            assert(coeff_views(coeffs@) =~= seq![0int, 1int]);
        }
        Polynomial { coeffs }
    }

    /// The constant polynomial `c`, trimmed to empty when `c` is zero.
    pub fn from_constant(c: FieldElement) -> (r: Self)
        requires
            c.wf(),
        ensures
            r.wf(),
            r@ == pconst(c@),
    {
        let mut coeffs: Vec<FieldElement> = Vec::new();
        if c.eq(&FieldElement::zero()) {
        } else {
            coeffs.push(c);
        }
        proof {
            if c@ == 0 {
                assert(coeff_views(coeffs@) =~= Seq::<int>::empty());
            } else {
                assert(coeff_views(coeffs@) =~= seq![c@]);
            }
        }
        Polynomial { coeffs }
    }

    /// Coefficient-wise polynomial addition.
    pub fn add(&self, other: &Self) -> (r: Self)
        requires
            self.wf(),
            other.wf(),
        ensures
            r.wf(),
            r@ == padd(self@, other@),
    {
        let n1 = self.coeffs.len();
        let n2 = other.coeffs.len();
        let n = if n1 >= n2 {
            n1
        } else {
            n2
        };
        let mut new_coeffs: Vec<FieldElement> = Vec::new();
        let mut i: usize = 0;
        while i < n
            invariant
                self.wf(),
                other.wf(),
                n1 == self.coeffs@.len(),
                n2 == other.coeffs@.len(),
                n1 == self@.len(),
                n2 == other@.len(),
                n == pad_len(self@, other@),
                i <= n,
                new_coeffs@.len() == i,
                forall|j: int|
                    0 <= j < i ==> (#[trigger] new_coeffs@[j]).wf() && new_coeffs@[j]@
                        == f_add(pget(self@, j), pget(other@, j)),
            decreases n - i,
        {
            proof {
                if i < n1 {
                    assert(self.coeffs@[i as int]@ == self@[i as int]);
                }
                if i < n2 {
                    assert(other.coeffs@[i as int]@ == other@[i as int]);
                }
            }
            let mut sum = FieldElement::zero();
            if i < n1 {
                sum = sum.add(&self.coeffs[i]);
            }
            if i < n2 {
                sum = sum.add(&other.coeffs[i]);
            }
            proof {
                let a = pget(self@, i as int);
                let b = pget(other@, i as int);
                vstd::arithmetic::div_mod::lemma_small_mod(a as nat, MODULUS as nat);
                vstd::arithmetic::div_mod::lemma_small_mod(b as nat, MODULUS as nat);
                assert(sum@ == f_add(a, b));
            }
            new_coeffs.push(sum);
            i = i + 1;
        }
        let ghost built = coeff_views(new_coeffs@);
        let r = Polynomial::new(new_coeffs);
        proof {
            let raw = Seq::new(
                pad_len(self@, other@),
                |k: int| f_add(pget(self@, k), pget(other@, k)),
            );
            assert forall|k: int| 0 <= k < raw.len() implies built[k] == raw[k] by {}
            assert(built =~= raw);
            lemma_trim(raw);
            assert forall|k: int| pget(r@, k) == pget(trim(raw), k) by {
                assert(pget(r@, k) == pget(built, k));
            }
            lemma_canonical_unique(r@, trim(raw));
        }
        r
    }

    /// Coefficient-wise polynomial subtraction.
    pub fn sub(&self, other: &Self) -> (r: Self)
        requires
            self.wf(),
            other.wf(),
        ensures
            r.wf(),
            r@ == psub(self@, other@),
    {
        let n1 = self.coeffs.len();
        let n2 = other.coeffs.len();
        let n = if n1 >= n2 {
            n1
        } else {
            n2
        };
        let mut new_coeffs: Vec<FieldElement> = Vec::new();
        let mut i: usize = 0;
        while i < n
            invariant
                self.wf(),
                other.wf(),
                n1 == self.coeffs@.len(),
                n2 == other.coeffs@.len(),
                n1 == self@.len(),
                n2 == other@.len(),
                n == pad_len(self@, other@),
                i <= n,
                new_coeffs@.len() == i,
                forall|j: int|
                    0 <= j < i ==> (#[trigger] new_coeffs@[j]).wf() && new_coeffs@[j]@
                        == f_sub(pget(self@, j), pget(other@, j)),
            decreases n - i,
        {
            proof {
                if i < n1 {
                    assert(self.coeffs@[i as int]@ == self@[i as int]);
                }
                if i < n2 {
                    assert(other.coeffs@[i as int]@ == other@[i as int]);
                }
            }
            let mut diff = FieldElement::zero();
            if i < n1 {
                diff = diff.add(&self.coeffs[i]);
            }
            if i < n2 {
                diff = diff.sub(&other.coeffs[i]);
            }
            proof {
                let a = pget(self@, i as int);
                let b = pget(other@, i as int);
                vstd::arithmetic::div_mod::lemma_small_mod(a as nat, MODULUS as nat);
                vstd::arithmetic::div_mod::lemma_small_mod(b as nat, MODULUS as nat);
                if i < n1 && !(i < n2) {
                    vstd::arithmetic::div_mod::lemma_mod_add_multiples_vanish(
                        a,
                        MODULUS as int,
                    );
                }
                assert(diff@ == f_sub(a, b));
            }
            new_coeffs.push(diff);
            i = i + 1;
        }
        let ghost built = coeff_views(new_coeffs@);
        let r = Polynomial::new(new_coeffs);
        proof {
            let raw = Seq::new(
                pad_len(self@, other@),
                |k: int| f_sub(pget(self@, k), pget(other@, k)),
            );
            assert forall|k: int| 0 <= k < raw.len() implies built[k] == raw[k] by {}
            assert(built =~= raw);
            lemma_trim(raw);
            assert forall|k: int| pget(r@, k) == pget(trim(raw), k) by {
                assert(pget(r@, k) == pget(built, k));
            }
            lemma_canonical_unique(r@, trim(raw));
        }
        r
    }

    /// Coefficient-wise additive inverse.
    pub fn neg(&self) -> (r: Self)
        requires
            self.wf(),
        ensures
            r.wf(),
            r@ == pneg(self@),
    {
        let n = self.coeffs.len();
        let mut new_coeffs: Vec<FieldElement> = Vec::new();
        let mut i: usize = 0;
        while i < n
            invariant
                self.wf(),
                n == self.coeffs@.len(),
                n == self@.len(),
                i <= n,
                new_coeffs@.len() == i,
                forall|j: int|
                    0 <= j < i ==> (#[trigger] new_coeffs@[j]).wf() && new_coeffs@[j]@
                        == f_neg(pget(self@, j)),
            decreases n - i,
        {
            proof {
                assert(self.coeffs@[i as int]@ == self@[i as int]);
            }
            let e = self.coeffs[i].negate();
            new_coeffs.push(e);
            i = i + 1;
        }
        let ghost built = coeff_views(new_coeffs@);
        let r = Polynomial::new(new_coeffs);
        proof {
            let raw = Seq::new(self@.len(), |k: int| f_neg(pget(self@, k)));
            assert forall|k: int| 0 <= k < raw.len() implies built[k] == raw[k] by {}
            assert(built =~= raw);
            lemma_trim(raw);
            assert forall|k: int| pget(r@, k) == pget(trim(raw), k) by {
                assert(pget(r@, k) == pget(built, k));
            }
            lemma_canonical_unique(r@, trim(raw));
        }
        r
    }

    /// Schoolbook polynomial multiplication. An empty operand makes the
    /// product the zero polynomial before any buffer is sized.
    pub fn mul(&self, other: &Self) -> (r: Self)
        requires
            self.wf(),
            other.wf(),
            self@.len() + other@.len() <= usize::MAX,
        ensures
            r.wf(),
            r@ == pmul(self@, other@),
    {
        let n1 = self.coeffs.len();
        let n2 = other.coeffs.len();
        if n1 == 0 || n2 == 0 {
            return Polynomial::zero();
        }
        let ghost av = self@;
        let ghost bv = other@;
        let n = n1 + n2 - 1;
        let mut buf: Vec<FieldElement> = Vec::new();
        let mut z: usize = 0;
        while z < n
            invariant
                z <= n,
                buf@.len() == z,
                forall|k: int|
                    0 <= k < z ==> (#[trigger] buf@[k]).wf() && buf@[k]@ == 0,
            decreases n - z,
        {
            buf.push(FieldElement::zero());
            z = z + 1;
        }
        let mut i: usize = 0;
        while i < n1
            invariant
                self.wf(),
                other.wf(),
                av == self@,
                bv == other@,
                n1 == self.coeffs@.len(),
                n2 == other.coeffs@.len(),
                n1 == av.len(),
                n2 == bv.len(),
                n1 >= 1,
                n2 >= 1,
                n == n1 + n2 - 1,
                i <= n1,
                buf@.len() == n,
                forall|k: int|
                    0 <= k < n ==> (#[trigger] buf@[k]).wf() && buf@[k]@ == conv_upto(
                        av,
                        bv,
                        k,
                        i as nat,
                    ),
            decreases n1 - i,
        {
            let mut j: usize = 0;
            while j < n2
                invariant
                    self.wf(),
                    other.wf(),
                    av == self@,
                    bv == other@,
                    n1 == self.coeffs@.len(),
                    n2 == other.coeffs@.len(),
                    n1 == av.len(),
                    n2 == bv.len(),
                    n1 >= 1,
                    n2 >= 1,
                    n == n1 + n2 - 1,
                    i < n1,
                    j <= n2,
                    buf@.len() == n,
                    forall|k: int|
                        0 <= k < n ==> (#[trigger] buf@[k]).wf() && buf@[k]@ == (
                        if 0 <= k - i < j {
                            conv_upto(av, bv, k, (i + 1) as nat)
                        } else {
                            conv_upto(av, bv, k, i as nat)
                        }),
                decreases n2 - j,
            {
                proof {
                    assert(self.coeffs@[i as int]@ == av[i as int]);
                    assert(other.coeffs@[j as int]@ == bv[j as int]);
                }
                let prod = self.coeffs[i].mul(&other.coeffs[j]);
                let idx = i + j;
                let cur = buf[idx];
                let updated = cur.add(&prod);
                buf.set(idx, updated);
                proof {
                    let k0 = idx as int;
                    assert(pget(av, i as int) == av[i as int]);
                    assert(pget(bv, k0 - i) == bv[j as int]);
                    assert(updated@ == conv_upto(av, bv, k0, (i + 1) as nat));
                }
                j = j + 1;
            }
            proof {
                assert forall|k: int|
                    0 <= k < n && !(0 <= k - i < n2) implies conv_upto(av, bv, k, (i + 1) as nat)
                    == conv_upto(av, bv, k, i as nat) by {
                    assert(pget(bv, k - i) == 0);
                    lemma_conv_upto_zero_tail(av, bv, k, i as nat, (i + 1) as nat);
                }
            }
            i = i + 1;
        }
        let ghost built = coeff_views(buf@);
        let r = Polynomial::new(buf);
        proof {
            let raw = Seq::new((n1 + n2 - 1) as nat, |k: int| conv(av, bv, k));
            assert forall|k: int| 0 <= k < raw.len() implies built[k] == raw[k] by {
                if k + 1 >= n1 {
                    assert forall|m: int| n1 <= m < k + 1 implies pget(av, m) == 0 || pget(
                        bv,
                        k - m,
                    ) == 0 by {
                        assert(pget(av, m) == 0);
                    }
                    lemma_conv_upto_zero_tail(av, bv, k, n1 as nat, (k + 1) as nat);
                } else {
                    assert forall|m: int| k + 1 <= m < n1 implies pget(av, m) == 0 || pget(
                        bv,
                        k - m,
                    ) == 0 by {
                        assert(pget(bv, k - m) == 0);
                    }
                    lemma_conv_upto_zero_tail(av, bv, k, (k + 1) as nat, n1 as nat);
                }
            }
            assert(built =~= raw);
            lemma_trim(raw);
            assert forall|k: int| pget(r@, k) == pget(trim(raw), k) by {
                assert(pget(r@, k) == pget(built, k));
            }
            lemma_canonical_unique(r@, trim(raw));
        }
        r
    }

    /// Functional composition `self(other)` by Horner's method over the
    /// coefficients of `self` from highest to lowest degree.
    pub fn compose(&self, other: &Self) -> (r: Self)
        requires
            self.wf(),
            other.wf(),
            self@.len() * other@.len() + other@.len() + 1 <= usize::MAX,
        ensures
            r.wf(),
            r@ == pcompose(self@, other@),
    {
        let n1 = self.coeffs.len();
        let mut res = Polynomial::zero();
        let mut idx = n1;
        while idx > 0
            invariant
                self.wf(),
                other.wf(),
                n1 == self.coeffs@.len(),
                n1 == self@.len(),
                idx <= n1,
                res.wf(),
                res@ == pcompose(self@.subrange(idx as int, n1 as int), other@),
                self@.len() * other@.len() + other@.len() + 1 <= usize::MAX,
            decreases idx,
        {
            idx = idx - 1;
            proof {
                let ql = other@.len() as int;
                lemma_pcompose_len(self@.subrange(idx as int + 1, n1 as int), other@);
                vstd::arithmetic::mul::lemma_mul_inequality(
                    (n1 - idx - 1) as int,
                    n1 as int,
                    ql,
                );
                vstd::arithmetic::mul::lemma_mul_nonnegative((n1 - idx - 1) as int, ql);
            }
            let stepped = res.mul(other);
            proof {
                assert(self.coeffs@[idx as int]@ == self@[idx as int]);
            }
            let c = Polynomial::from_constant(self.coeffs[idx]);
            let ghost pre = res@;
            res = stepped.add(&c);
            proof {
                let suffix = self@.subrange(idx as int, n1 as int);
                assert(suffix.subrange(1, suffix.len() as int) =~= self@.subrange(
                    idx as int + 1,
                    n1 as int,
                ));
                assert(suffix[0] == self@[idx as int]);
                assert(res@ == padd(pmul(pre, other@), pconst(self@[idx as int])));
            }
        }
        proof {
            assert(self@.subrange(0, n1 as int) =~= self@);
        }
        res
    }

    /// One less than the coefficient count, or nothing for the zero
    /// polynomial, whose degree is left undefined.
    pub fn degree(&self) -> (r: Option<usize>)
        ensures
            self@.len() == 0 ==> r is None,
            self@.len() > 0 ==> r == Some((self@.len() - 1) as usize),
    {
        if self.coeffs.len() == 0 {
            None
        } else {
            Some(self.coeffs.len() - 1)
        }
    }
}

/// The coefficient sequence of the constant polynomial `c`.
pub open spec fn pconst(c: int) -> Seq<int> {
    if c == 0 {
        Seq::empty()
    } else {
        seq![c]
    }
}

/// The longer of the two lengths.
pub open spec fn pad_len(a: Seq<int>, b: Seq<int>) -> nat {
    if a.len() >= b.len() {
        a.len()
    } else {
        b.len()
    }
}

/// Coefficient-wise sum, trimmed to canonical form.
pub open spec fn padd(a: Seq<int>, b: Seq<int>) -> Seq<int> {
    trim(Seq::new(pad_len(a, b), |k: int| f_add(pget(a, k), pget(b, k))))
}

/// Coefficient-wise difference, trimmed to canonical form.
pub open spec fn psub(a: Seq<int>, b: Seq<int>) -> Seq<int> {
    trim(Seq::new(pad_len(a, b), |k: int| f_sub(pget(a, k), pget(b, k))))
}

/// Coefficient-wise additive inverse, trimmed to canonical form.
pub open spec fn pneg(a: Seq<int>) -> Seq<int> {
    trim(Seq::new(a.len(), |k: int| f_neg(pget(a, k))))
}

/// The partial convolution sum over the first `n` indices:
/// `a_0 * b_k + a_1 * b_(k-1) + ... + a_(n-1) * b_(k-n+1)` in the field.
pub open spec fn conv_upto(a: Seq<int>, b: Seq<int>, k: int, n: nat) -> int
    decreases n,
{
    if n == 0 {
        0
    } else {
        f_add(
            conv_upto(a, b, k, (n - 1) as nat),
            f_mul(pget(a, n - 1), pget(b, k - (n - 1))),
        )
    }
}

/// The coefficient of `X^k` in the product of `a` and `b`.
pub open spec fn conv(a: Seq<int>, b: Seq<int>, k: int) -> int {
    conv_upto(a, b, k, (k + 1) as nat)
}

/// Schoolbook product, trimmed to canonical form; an empty operand absorbs.
pub open spec fn pmul(a: Seq<int>, b: Seq<int>) -> Seq<int> {
    if a.len() == 0 || b.len() == 0 {
        Seq::empty()
    } else {
        trim(Seq::new((a.len() + b.len() - 1) as nat, |k: int| conv(a, b, k)))
    }
}

/// Horner composition `p(q)`: fold the coefficients of `p` from the
/// highest degree down, multiplying by `q` and adding the next constant.
pub open spec fn pcompose(p: Seq<int>, q: Seq<int>) -> Seq<int>
    decreases p.len(),
{
    if p.len() == 0 {
        Seq::empty()
    } else {
        padd(pmul(pcompose(p.subrange(1, p.len() as int), q), q), pconst(p[0]))
    }
}

/// A sum has no more coefficients than its wider operand.
pub proof fn lemma_padd_len(a: Seq<int>, b: Seq<int>)
    ensures
        padd(a, b).len() <= pad_len(a, b),
{
    lemma_trim(Seq::new(pad_len(a, b), |k: int| f_add(pget(a, k), pget(b, k))));
}

/// A product's coefficient count is below the sum of its operands'.
pub proof fn lemma_pmul_len(a: Seq<int>, b: Seq<int>)
    ensures
        a.len() == 0 || b.len() == 0 ==> pmul(a, b).len() == 0,
        a.len() > 0 && b.len() > 0 ==> pmul(a, b).len() <= a.len() + b.len() - 1,
{
    if a.len() > 0 && b.len() > 0 {
        lemma_trim(Seq::new((a.len() + b.len() - 1) as nat, |k: int| conv(a, b, k)));
    }
}

/// A composition's coefficient count is bounded by the operands' product.
pub proof fn lemma_pcompose_len(p: Seq<int>, q: Seq<int>)
    ensures
        pcompose(p, q).len() <= 1 + p.len() * q.len(),
    decreases p.len(),
{
    vstd::arithmetic::mul::lemma_mul_nonnegative(p.len() as int, q.len() as int);
    if p.len() > 0 {
        let tail = p.subrange(1, p.len() as int);
        lemma_pcompose_len(tail, q);
        let rec = pcompose(tail, q);
        lemma_pmul_len(rec, q);
        lemma_padd_len(pmul(rec, q), pconst(p[0]));
        assert((p.len() - 1) * q.len() + q.len() == p.len() * q.len()) by (nonlinear_arith);
        vstd::arithmetic::mul::lemma_mul_inequality(
            tail.len() as int,
            p.len() as int,
            q.len() as int,
        );
    }
}

/// A partial convolution is a canonical field residue.
pub proof fn lemma_conv_upto_range(a: Seq<int>, b: Seq<int>, k: int, n: nat)
    ensures
        0 <= conv_upto(a, b, k, n) < MODULUS,
    decreases n,
{
    if n == 0 {
    } else {
        lemma_conv_upto_range(a, b, k, (n - 1) as nat);
    }
}

/// Indices whose term vanishes can be dropped from a partial convolution.
pub proof fn lemma_conv_upto_zero_tail(a: Seq<int>, b: Seq<int>, k: int, n1: nat, n2: nat)
    requires
        n1 <= n2,
        forall|m: int| n1 <= m < n2 ==> pget(a, m) == 0 || pget(b, k - m) == 0,
    ensures
        conv_upto(a, b, k, n2) == conv_upto(a, b, k, n1),
    decreases n2,
{
    if n2 > n1 {
        lemma_conv_upto_zero_tail(a, b, k, n1, (n2 - 1) as nat);
        lemma_conv_upto_range(a, b, k, (n2 - 1) as nat);
        assert(f_mul(pget(a, n2 - 1), pget(b, k - (n2 - 1))) == 0);
        vstd::arithmetic::div_mod::lemma_small_mod(
            conv_upto(a, b, k, (n2 - 1) as nat) as nat,
            MODULUS as nat,
        );
    }
}

} // verus!
