//! The prime field GF(MODULUS) with MODULUS = 3 * 2^30 + 1.
//!
//! A `FieldElement` stores its canonical representative in `[0, MODULUS)`.
//! The representative fits in 32 bits but is kept in a `u64` so that the
//! product of two representatives fits in the stored type.

use vstd::prelude::*;

verus! {

/// The field order: 3 * 2^30 + 1, a prime.
pub const MODULUS: u64 = 3221225473;

/// A generator of the full multiplicative group of the field.
pub const GENERATOR_VALUE: u64 = 5;

/// Sum of two residues, reduced into `[0, MODULUS)`.
pub open spec fn f_add(a: int, b: int) -> int {
    (a + b) % (MODULUS as int)
}

/// Difference of two residues, reduced into `[0, MODULUS)`.
pub open spec fn f_sub(a: int, b: int) -> int {
    (a + MODULUS - b) % (MODULUS as int)
}

/// Additive inverse of a residue, reduced into `[0, MODULUS)`.
pub open spec fn f_neg(a: int) -> int {
    (MODULUS - a) % (MODULUS as int)
}

/// Product of two residues, reduced into `[0, MODULUS)`.
pub open spec fn f_mul(a: int, b: int) -> int {
    (a * b) % (MODULUS as int)
}

/// `a` raised to the power `e`, reduced into `[0, MODULUS)`.
pub open spec fn fpow(a: int, e: nat) -> int {
    vstd::arithmetic::power::pow(a, e) % (MODULUS as int)
}

/// The greatest common divisor, by the Euclidean recursion.
pub open spec fn gcd(a: nat, b: nat) -> nat
    decreases b,
{
    if b == 0 {
        a
    } else {
        gcd(b, (a % b) as nat)
    }
}

/// For positive `b`, the gcd is positive and at most `b`.
pub proof fn lemma_gcd_bound(a: nat, b: nat)
    requires
        b >= 1,
    ensures
        1 <= gcd(a, b) <= b,
    decreases b,
{
    if a % b == 0 {
        assert(gcd(a, b) == gcd(b, 0));
    } else {
        lemma_gcd_bound(b, (a % b) as nat);
    }
}

/// Multiplication modulo `MODULUS` is associative.
pub proof fn lemma_f_mul_assoc(a: int, b: int, c: int)
    ensures
        f_mul(f_mul(a, b), c) == f_mul(a, f_mul(b, c)),
{
    let m = MODULUS as int;
    vstd::arithmetic::div_mod::lemma_mul_mod_noop_left(a * b, c, m);
    vstd::arithmetic::div_mod::lemma_mul_mod_noop_right(a, b * c, m);
    vstd::arithmetic::mul::lemma_mul_is_associative(a, b, c);
}

/// Multiplication modulo `MODULUS` is commutative.
pub proof fn lemma_f_mul_comm(a: int, b: int)
    ensures
        f_mul(a, b) == f_mul(b, a),
{
}

/// Addition modulo `MODULUS` is commutative.
pub proof fn lemma_f_add_comm(a: int, b: int)
    ensures
        f_add(a, b) == f_add(b, a),
{
}

/// Addition modulo `MODULUS` is associative.
pub proof fn lemma_f_add_assoc(a: int, b: int, c: int)
    ensures
        f_add(f_add(a, b), c) == f_add(a, f_add(b, c)),
{
    let m = MODULUS as int;
    vstd::arithmetic::div_mod::lemma_add_mod_noop(a + b, c, m);
    vstd::arithmetic::div_mod::lemma_add_mod_noop_right((a + b) % m, c, m);
    vstd::arithmetic::div_mod::lemma_add_mod_noop_right(a, b + c, m);
}

/// Multiplication modulo `MODULUS` distributes over addition modulo `MODULUS`.
pub proof fn lemma_f_distrib(a: int, b: int, c: int)
    ensures
        f_mul(a, f_add(b, c)) == f_add(f_mul(a, b), f_mul(a, c)),
{
    let m = MODULUS as int;
    vstd::arithmetic::div_mod::lemma_mul_mod_noop_right(a, b + c, m);
    vstd::arithmetic::mul::lemma_mul_is_distributive_add(a, b, c);
    vstd::arithmetic::div_mod::lemma_add_mod_noop(a * b, a * c, m);
}

/// Adding the zero residue changes nothing, and the multiplicative
/// identities of one and zero.
pub proof fn lemma_f_identities(a: int)
    requires
        0 <= a < MODULUS,
    ensures
        f_add(a, 0) == a,
        f_mul(a, 1) == a,
        f_mul(a, 0) == 0,
{
    let m = MODULUS as int;
    vstd::arithmetic::div_mod::lemma_small_mod(a as nat, MODULUS as nat);
}

/// Raising to the zeroth and first power.
pub proof fn lemma_fpow_base(a: int)
    requires
        0 <= a < MODULUS,
    ensures
        fpow(a, 0) == 1,
        fpow(a, 1) == a,
{
    vstd::arithmetic::power::lemma_pow0(a);
    vstd::arithmetic::power::lemma_pow1(a);
    vstd::arithmetic::div_mod::lemma_small_mod(a as nat, MODULUS as nat);
    vstd::arithmetic::div_mod::lemma_small_mod(1nat, MODULUS as nat);
}

/// Exponents add: `a^(i+j) = a^i * a^j` in the field.
pub proof fn lemma_fpow_adds(a: int, i: nat, j: nat)
    ensures
        fpow(a, i + j) == f_mul(fpow(a, i), fpow(a, j)),
{
    let m = MODULUS as int;
    vstd::arithmetic::power::lemma_pow_adds(a, i, j);
    vstd::arithmetic::div_mod::lemma_mul_mod_noop_general(
        vstd::arithmetic::power::pow(a, i),
        vstd::arithmetic::power::pow(a, j),
        m,
    );
}

/// One square-and-multiply step: halving an even exponent after
/// squaring the base preserves the power.
pub proof fn lemma_fpow_halve(b: int, e: nat)
    requires
        e % 2 == 0,
    ensures
        fpow(f_mul(b, b), e / 2) == fpow(b, e),
{
    let m = MODULUS as int;
    vstd::arithmetic::power::lemma_square_is_pow2(b);
    vstd::arithmetic::power::lemma_pow_multiplies(b, 2, e / 2);
    vstd::arithmetic::power::lemma_pow_mod_noop(b * b, e / 2, m);
}

/// Unfolding one factor: `a^e = a * a^(e-1)` in the field, for `e >= 1`.
pub proof fn lemma_fpow_unfold(b: int, e: nat)
    requires
        e >= 1,
    ensures
        fpow(b, e) == f_mul(b, fpow(b, (e - 1) as nat)),
{
    let m = MODULUS as int;
    vstd::arithmetic::power::lemma_pow1(b);
    vstd::arithmetic::power::lemma_pow_adds(b, 1, (e - 1) as nat);
    vstd::arithmetic::div_mod::lemma_mul_mod_noop_right(
        b,
        vstd::arithmetic::power::pow(b, (e - 1) as nat),
        m,
    );
}

/// A residue has at most one multiplicative inverse: the contract of
/// `inverse` therefore pins its result exactly whenever the gcd is one.
pub proof fn lemma_inverse_unique(a: int, b1: int, b2: int)
    requires
        0 <= b1 < MODULUS,
        0 <= b2 < MODULUS,
        f_mul(a, b1) == 1,
        f_mul(a, b2) == 1,
    ensures
        b1 == b2,
{
    lemma_f_identities(b1);
    lemma_f_identities(b2);
    lemma_f_mul_assoc(b1, a, b2);
    assert(f_mul(b1, f_mul(a, b2)) == f_mul(b1, 1));
    assert(f_mul(f_mul(b1, a), b2) == f_mul(f_mul(a, b1), b2));
    assert(f_mul(1, b2) == f_mul(b2, 1));
}

/// A sequence that contains every value in `[0, k)` has at least `k` entries.
proof fn lemma_pigeonhole(s: Seq<int>, k: int)
    requires
        0 <= k,
        forall|v: int| 0 <= v < k ==> s.contains(v),
    ensures
        k <= s.len(),
{
    broadcast use vstd::seq_lib::seq_to_set_is_finite;

    let st = s.to_set();
    s.lemma_cardinality_of_set();
    let rng = vstd::set_lib::set_int_range(0, k);
    vstd::set_lib::lemma_int_range(0, k);
    assert forall|v: int| rng.contains(v) implies st.contains(v) by {
        assert(s.contains(v));
    }
    vstd::set_lib::lemma_len_subset(rng, st);
}

#[derive(Debug, Clone, Copy, Eq, Hash)]
pub struct FieldElement {
    val: u64,
}

impl PartialEq for FieldElement {
    fn eq(&self, other: &Self) -> (r: bool) {
        self.val == other.val
    }
}

impl vstd::std_specs::cmp::PartialEqSpecImpl for FieldElement {
    open spec fn obeys_eq_spec() -> bool {
        true
    }

    open spec fn eq_spec(&self, other: &Self) -> bool {
        self@ == other@
    }
}

impl View for FieldElement {
    type V = int;

    closed spec fn view(&self) -> int {
        self.val as int
    }
}

impl FieldElement {
    /// The stored representative is canonical: it lies in `[0, MODULUS)`.
    pub open spec fn wf(self) -> bool {
        0 <= self@ < MODULUS
    }

    /// The canonical representative in `[0, MODULUS)`, as an integer.
    pub fn value(&self) -> (r: u64)
        ensures
            r as int == self@,
    {
        self.val
    }

    /// The residue of `val` modulo the field order.
    pub fn new(val: u64) -> (r: Self)
        ensures
            r.wf(),
            r@ == val as int % (MODULUS as int),
    {
        FieldElement { val: val % MODULUS }
    }

    /// The additive identity.
    pub fn zero() -> (r: Self)
        ensures
            r.wf(),
            r@ == 0,
    {
        FieldElement { val: 0 }
    }

    /// The multiplicative identity.
    pub fn one() -> (r: Self)
        ensures
            r.wf(),
            r@ == 1,
    {
        FieldElement { val: 1 }
    }

    /// The distinguished generator of the multiplicative group.
    pub fn generator() -> (r: Self)
        ensures
            r.wf(),
            r@ == GENERATOR_VALUE,
    {
        FieldElement { val: GENERATOR_VALUE }
    }

    /// The additive inverse: `self + self.negate()` is zero.
    pub fn negate(&self) -> (r: Self)
        requires
            self.wf(),
        ensures
            r.wf(),
            r@ == f_neg(self@),
            f_add(self@, r@) == 0,
    {
        proof {
            vstd::arithmetic::div_mod::lemma_mod_self_0(MODULUS as int);
        }
        FieldElement { val: (MODULUS - self.val) % MODULUS }
    }

    /// Field addition.
    pub fn add(&self, other: &Self) -> (r: Self)
        requires
            self.wf(),
            other.wf(),
        ensures
            r.wf(),
            r@ == f_add(self@, other@),
    {
        FieldElement { val: (self.val + other.val) % MODULUS }
    }

    /// Field subtraction.
    pub fn sub(&self, other: &Self) -> (r: Self)
        requires
            self.wf(),
            other.wf(),
        ensures
            r.wf(),
            r@ == f_sub(self@, other@),
    {
        FieldElement { val: (self.val + MODULUS - other.val) % MODULUS }
    }

    /// Field multiplication; the product of two canonical representatives
    /// fits in the `u64` temporary because MODULUS^2 < 2^64.
    pub fn mul(&self, other: &Self) -> (r: Self)
        requires
            self.wf(),
            other.wf(),
        ensures
            r.wf(),
            r@ == f_mul(self@, other@),
    {
        proof {
            assert(self.val * other.val <= (MODULUS - 1) * (MODULUS - 1)) by (nonlinear_arith)
                requires
                    self.val <= MODULUS - 1,
                    other.val <= MODULUS - 1,
            ;
        }
        FieldElement { val: (self.val * other.val) % MODULUS }
    }

    /// Exponentiation by right-to-left square-and-multiply over the bits
    /// of `exp`. A zero exponent yields one, including for a zero base.
    pub fn pow(&self, exp: u64) -> (r: Self)
        requires
            self.wf(),
        ensures
            r.wf(),
            r@ == fpow(self@, exp as nat),
    {
        let mut result = FieldElement::one();
        let mut base = *self;
        let mut e = exp;
        proof {
            vstd::arithmetic::div_mod::lemma_small_mod(
                fpow(self@, exp as nat) as nat,
                MODULUS as nat,
            );
        }
        while e > 0
            invariant
                base.wf(),
                result.wf(),
                f_mul(result@, fpow(base@, e as nat)) == fpow(self@, exp as nat),
            decreases e,
        {
            let ghost b0: int = base@;
            let ghost r0: int = result@;
            let ghost e0: nat = e as nat;
            if e % 2 == 1 {
                result = result.mul(&base);
            }
            base = base.mul(&base);
            e = e / 2;
            proof {
                if e0 % 2 == 1 {
                    lemma_fpow_unfold(b0, e0);
                    lemma_fpow_halve(b0, (e0 - 1) as nat);
                    lemma_f_mul_assoc(r0, b0, fpow(base@, e as nat));
                } else {
                    lemma_fpow_halve(b0, e0);
                }
            }
        }
        proof {
            lemma_fpow_base(base@);
            lemma_f_identities(result@);
        }
        result
    }

    /// The extended Euclidean algorithm on `(MODULUS, self)`, carrying the
    /// Bezout coefficient of `self` reduced modulo `MODULUS`. The returned
    /// element multiplied by `self` gives `gcd(MODULUS, self)` in the field;
    /// the modulus is prime, so that gcd is one for every nonzero argument.
    pub fn inverse(&self) -> (r: Self)
        requires
            self.wf(),
            self@ != 0,
        ensures
            r.wf(),
            f_mul(self@, r@) == gcd(MODULUS as nat, self@ as nat),
            gcd(MODULUS as nat, self@ as nat) == 1 ==> f_mul(self@, r@) == 1,
    {
        let v = self.val;
        let mut a: u64 = MODULUS;
        let mut b: u64 = v;
        let mut y1: u64 = 0;
        let mut y2: u64 = 1;
        while b != 0
            invariant
                0 < v < MODULUS,
                b < a,
                1 <= a <= MODULUS,
                y1 < MODULUS,
                y2 < MODULUS,
                (y1 * v) % (MODULUS as int) == (a as int) % (MODULUS as int),
                (y2 * v) % (MODULUS as int) == (b as int) % (MODULUS as int),
                gcd(a as nat, b as nat) == gcd(MODULUS as nat, v as nat),
            decreases b,
        {
            let q = a / b;
            let r = a % b;
            proof {
                assert((q % MODULUS) * y2 <= (MODULUS - 1) * (MODULUS - 1)) by (nonlinear_arith)
                    requires
                        q % MODULUS <= MODULUS - 1,
                        y2 <= MODULUS - 1,
                ;
            }
            let t = ((q % MODULUS) * y2) % MODULUS;
            let y = (y1 + (MODULUS - t)) % MODULUS;
            proof {
                let m = MODULUS as int;
                let qi = q as int;
                let y1i = y1 as int;
                let y2i = y2 as int;
                let vi = v as int;
                let ai = a as int;
                let bi = b as int;
                let ri = r as int;
                // The new coefficient is congruent to y1 - q * y2.
                vstd::arithmetic::div_mod::lemma_mul_mod_noop_left(qi, y2i, m);
                assert(t == (qi * y2i) % m);
                vstd::arithmetic::div_mod::lemma_mod_add_multiples_vanish(y1i - t, m);
                assert(y == (y1i - t) % m);
                vstd::arithmetic::div_mod::lemma_sub_mod_noop_right(y1i, qi * y2i, m);
                assert(y == (y1i - qi * y2i) % m);
                // Multiplying by v turns the Bezout identity into the
                // remainder identity for r = a - q * b.
                vstd::arithmetic::div_mod::lemma_mul_mod_noop_left(y1i - qi * y2i, vi, m);
                assert((y * vi) % m == ((y1i - qi * y2i) * vi) % m);
                vstd::arithmetic::mul::lemma_mul_is_distributive_sub_other_way(
                    vi,
                    y1i,
                    qi * y2i,
                );
                vstd::arithmetic::mul::lemma_mul_is_associative(qi, y2i, vi);
                assert((y1i - qi * y2i) * vi == y1i * vi - qi * (y2i * vi));
                vstd::arithmetic::div_mod::lemma_sub_mod_noop_right(
                    y1i * vi,
                    qi * (y2i * vi),
                    m,
                );
                vstd::arithmetic::div_mod::lemma_mul_mod_noop_right(qi, y2i * vi, m);
                vstd::arithmetic::div_mod::lemma_mul_mod_noop_right(qi, bi, m);
                assert((qi * (y2i * vi)) % m == (qi * bi) % m);
                vstd::arithmetic::div_mod::lemma_sub_mod_noop_right(y1i * vi, qi * bi, m);
                assert((y * vi) % m == (y1i * vi - qi * bi) % m);
                vstd::arithmetic::div_mod::lemma_sub_mod_noop(y1i * vi, qi * bi, m);
                vstd::arithmetic::div_mod::lemma_sub_mod_noop(ai, qi * bi, m);
                assert((y1i * vi - qi * bi) % m == (ai - qi * bi) % m);
                vstd::arithmetic::div_mod::lemma_fundamental_div_mod(ai, bi);
                assert(ai - qi * bi == ri);
                assert((y * vi) % m == ri % m);
            }
            a = b;
            b = r;
            y1 = y2;
            y2 = y;
        }
        proof {
            lemma_gcd_bound(MODULUS as nat, v as nat);
            vstd::arithmetic::div_mod::lemma_small_mod(a as nat, MODULUS as nat);
            assert(gcd(a as nat, 0) == a as nat);
            lemma_f_mul_comm(self@, y1 as int);
        }
        FieldElement { val: y1 }
    }

    /// Field division: `self` times the inverse of `other`.
    pub fn div(&self, other: &Self) -> (r: Self)
        requires
            self.wf(),
            other.wf(),
            other@ != 0,
        ensures
            r.wf(),
            f_mul(r@, other@) == f_mul(self@, gcd(MODULUS as nat, other@ as nat) as int),
            gcd(MODULUS as nat, other@ as nat) == 1 ==> f_mul(r@, other@) == self@,
    {
        let i = other.inverse();
        let r = self.mul(&i);
        proof {
            lemma_f_mul_assoc(self@, i@, other@);
            lemma_f_mul_comm(i@, other@);
            lemma_f_mul_comm(other@, i@);
            lemma_gcd_bound(MODULUS as nat, other@ as nat);
            vstd::arithmetic::div_mod::lemma_small_mod(
                gcd(MODULUS as nat, other@ as nat),
                MODULUS as nat,
            );
            lemma_f_identities(self@);
        }
        r
    }

    /// Whether the multiplicative order of `self` is exactly `order`:
    /// no power `self^j` with `1 <= j < order` is one, and `self^order` is.
    pub fn is_order(&self, order: u64) -> (r: bool)
        requires
            self.wf(),
            order >= 1,
        ensures
            r == (fpow(self@, order as nat) == 1 && forall|j: nat|
                1 <= j < order ==> fpow(self@, j) != 1),
    {
        let mut base = FieldElement::one();
        let mut i: u64 = 1;
        proof {
            lemma_fpow_base(self@);
        }
        while i < order
            invariant
                self.wf(),
                base.wf(),
                1 <= i <= order,
                base@ == fpow(self@, (i - 1) as nat),
                forall|j: nat| 1 <= j < i ==> fpow(self@, j) != 1,
            decreases order - i,
        {
            base = base.mul(self);
            proof {
                lemma_fpow_unfold(self@, i as nat);
                lemma_f_mul_comm(self@, fpow(self@, (i - 1) as nat));
            }
            if base.val == 1 {
                return false;
            }
            i = i + 1;
        }
        let last = base.mul(self);
        proof {
            lemma_fpow_unfold(self@, order as nat);
            lemma_f_mul_comm(self@, fpow(self@, (order - 1) as nat));
        }
        last.val == 1
    }

    /// A field element outside `exclude_elements`, drawn uniformly from the
    /// rest of the field. Sampling rejects excluded draws; if an improbable
    /// run of draws is all rejected, the smallest residue outside the
    /// exclusions is taken, which exists because fewer residues are excluded
    /// than the field has.
    pub fn random_element(exclude_elements: &[FieldElement]) -> (r: Self)
        requires
            exclude_elements@.len() < MODULUS,
        ensures
            r.wf(),
            forall|i: int|
                0 <= i < exclude_elements@.len() ==> exclude_elements@[i]@ != r@,
    {
        let mut attempts: u64 = 64;
        while attempts > 0
            decreases attempts,
        {
            let val = random_below(MODULUS);
            let element = FieldElement { val };
            if !contains_value(exclude_elements, &element) {
                return element;
            }
            attempts = attempts - 1;
        }
        let ghost views = exclude_elements@.map_values(|e: FieldElement| e@);
        let mut c: u64 = 0;
        while c < MODULUS
            invariant
                views == exclude_elements@.map_values(|e: FieldElement| e@),
                views.len() == exclude_elements@.len(),
                exclude_elements@.len() < MODULUS,
                c <= exclude_elements@.len(),
                forall|v: int| 0 <= v < c ==> views.contains(v),
            decreases MODULUS - c,
        {
            let element = FieldElement { val: c };
            if !contains_value(exclude_elements, &element) {
                proof {
                    assert forall|i: int|
                        0 <= i < exclude_elements@.len() implies exclude_elements@[i]@
                        != element@ by {}
                }
                return element;
            }
            proof {
                let i = choose|i: int|
                    0 <= i < exclude_elements@.len() && exclude_elements@[i]@ == c as int;
                assert(views[i] == c as int);
                assert(views.contains(c as int));
                lemma_pigeonhole(views, c as int + 1);
            }
            c = c + 1;
        }
        proof {
            assert(false);
        }
        vstd::pervasive::unreached()
    }
}

/// Relies on `rand::Rng::gen_range` on `rand::thread_rng()`: the draw is a
/// uniform value in `[0, bound)`; the call panics only on an empty range,
/// which the precondition excludes.
#[verifier::external_body]
fn random_below(bound: u64) -> (r: u64)
    requires
        bound >= 1,
    ensures
        r < bound,
{
    rand::Rng::gen_range(&mut rand::thread_rng(), 0..bound)
}

/// Whether some entry of `xs` equals `val`.
fn contains_value(xs: &[FieldElement], val: &FieldElement) -> (r: bool)
    ensures
        r == (exists|i: int| 0 <= i < xs@.len() && xs@[i]@ == val@),
{
    let n = xs.len();
    let mut j: usize = 0;
    while j < n
        invariant
            n == xs@.len(),
            j <= n,
            forall|i: int| 0 <= i < j ==> xs@[i]@ != val@,
        decreases n - j,
    {
        if xs[j].val == val.val {
            return true;
        }
        j = j + 1;
    }
    false
}

} // verus!


