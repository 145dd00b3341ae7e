//! The algebraic laws of the polynomial operations, stated over the
//! coefficient model and proved once and for all.

use crate::field::{f_add, f_mul, f_neg, lemma_f_add_assoc, lemma_f_distrib, lemma_f_identities, MODULUS};
use crate::poly::{
    canonical, conv, conv_upto, in_range, lemma_canonical_unique, lemma_conv_upto_range,
    lemma_conv_upto_zero_tail, lemma_trim, pad_len, padd, pcompose, pconst, pget, pmul, pneg,
    psub, trim,
};
use vstd::prelude::*;

verus! {

/// The coefficients of a sum are the sums of the coefficients.
pub proof fn lemma_pget_padd(a: Seq<int>, b: Seq<int>)
    ensures
        forall|k: int| 0 <= k ==> pget(padd(a, b), k) == f_add(pget(a, k), pget(b, k)),
{
    let raw = Seq::new(pad_len(a, b), |k: int| f_add(pget(a, k), pget(b, k)));
    lemma_trim(raw);
    assert forall|k: int| 0 <= k implies pget(padd(a, b), k) == f_add(pget(a, k), pget(b, k)) by {
        assert(pget(padd(a, b), k) == pget(raw, k));
        if k >= raw.len() {
            assert(pget(a, k) == 0 && pget(b, k) == 0);
        }
    }
}

/// The coefficients of a difference are the differences of the coefficients.
pub proof fn lemma_pget_psub(a: Seq<int>, b: Seq<int>)
    ensures
        forall|k: int| 0 <= k ==> pget(psub(a, b), k) == f_sub_get(a, b, k),
{
    let raw = Seq::new(pad_len(a, b), |k: int| crate::field::f_sub(pget(a, k), pget(b, k)));
    lemma_trim(raw);
    assert forall|k: int| 0 <= k implies pget(psub(a, b), k) == f_sub_get(a, b, k) by {
        assert(pget(psub(a, b), k) == pget(raw, k));
        if k >= raw.len() {
            vstd::arithmetic::div_mod::lemma_mod_self_0(MODULUS as int);
        }
    }
}

/// The difference of the coefficients of `X^k`.
pub open spec fn f_sub_get(a: Seq<int>, b: Seq<int>, k: int) -> int {
    crate::field::f_sub(pget(a, k), pget(b, k))
}

/// The coefficients of a negation are the negated coefficients.
pub proof fn lemma_pget_pneg(a: Seq<int>)
    ensures
        forall|k: int| 0 <= k ==> pget(pneg(a), k) == f_neg(pget(a, k)),
{
    let raw = Seq::new(a.len(), |k: int| f_neg(pget(a, k)));
    lemma_trim(raw);
    assert forall|k: int| 0 <= k implies pget(pneg(a), k) == f_neg(pget(a, k)) by {
        assert(pget(pneg(a), k) == pget(raw, k));
        if k >= raw.len() {
            vstd::arithmetic::div_mod::lemma_mod_self_0(MODULUS as int);
        }
    }
}

/// The coefficients of a product are the convolution sums, at every index.
pub proof fn lemma_pget_pmul(a: Seq<int>, b: Seq<int>)
    ensures
        forall|k: int| 0 <= k ==> pget(pmul(a, b), k) == conv(a, b, k),
{
    assert forall|k: int| 0 <= k implies pget(pmul(a, b), k) == conv(a, b, k) by {
        if a.len() == 0 || b.len() == 0 {
            assert forall|m: int| 0 <= m < k + 1 implies pget(a, m) == 0 || pget(b, k - m)
                == 0 by {}
            lemma_conv_upto_zero_tail(a, b, k, 0, (k + 1) as nat);
        } else {
            let raw = Seq::new((a.len() + b.len() - 1) as nat, |k: int| conv(a, b, k));
            lemma_trim(raw);
            assert(pget(pmul(a, b), k) == pget(raw, k));
            if k >= raw.len() {
                assert forall|m: int| 0 <= m < k + 1 implies pget(a, m) == 0 || pget(
                    b,
                    k - m,
                ) == 0 by {
                    if 0 <= m < a.len() {
                        assert(k - m >= b.len());
                    }
                }
                lemma_conv_upto_zero_tail(a, b, k, 0, (k + 1) as nat);
            }
        }
    }
}

/// Polynomial addition is commutative.
pub proof fn lemma_padd_comm(a: Seq<int>, b: Seq<int>)
    ensures
        padd(a, b) == padd(b, a),
{
    let raw1 = Seq::new(pad_len(a, b), |k: int| f_add(pget(a, k), pget(b, k)));
    let raw2 = Seq::new(pad_len(b, a), |k: int| f_add(pget(b, k), pget(a, k)));
    assert(raw1 =~= raw2);
}

/// Polynomial addition is associative.
pub proof fn lemma_padd_assoc(a: Seq<int>, b: Seq<int>, c: Seq<int>)
    ensures
        padd(padd(a, b), c) == padd(a, padd(b, c)),
{
    lemma_pget_padd(a, b);
    lemma_pget_padd(b, c);
    lemma_pget_padd(padd(a, b), c);
    lemma_pget_padd(a, padd(b, c));
    let raw1 = Seq::new(
        pad_len(padd(a, b), c),
        |k: int| f_add(pget(padd(a, b), k), pget(c, k)),
    );
    let raw2 = Seq::new(
        pad_len(a, padd(b, c)),
        |k: int| f_add(pget(a, k), pget(padd(b, c), k)),
    );
    lemma_trim(raw1);
    lemma_trim(raw2);
    assert forall|k: int| pget(padd(padd(a, b), c), k) == pget(padd(a, padd(b, c)), k) by {
        if 0 <= k {
            lemma_f_add_assoc(pget(a, k), pget(b, k), pget(c, k));
        }
    }
    lemma_canonical_unique(padd(padd(a, b), c), padd(a, padd(b, c)));
}

/// Adding the zero polynomial changes nothing.
pub proof fn lemma_padd_zero(a: Seq<int>)
    requires
        in_range(a),
        canonical(a),
    ensures
        padd(a, Seq::<int>::empty()) == a,
        padd(Seq::<int>::empty(), a) == a,
{
    lemma_pget_padd(a, Seq::<int>::empty());
    lemma_pget_padd(Seq::<int>::empty(), a);
    let raw = Seq::new(
        pad_len(a, Seq::<int>::empty()),
        |k: int| f_add(pget(a, k), pget(Seq::<int>::empty(), k)),
    );
    lemma_trim(raw);
    assert forall|k: int| pget(padd(a, Seq::<int>::empty()), k) == pget(a, k) by {
        if 0 <= k {
            vstd::arithmetic::div_mod::lemma_small_mod(pget(a, k) as nat, MODULUS as nat);
        } else {
            assert(pget(padd(a, Seq::<int>::empty()), k) == 0);
        }
    }
    lemma_canonical_unique(padd(a, Seq::<int>::empty()), a);
    assert forall|k: int| pget(padd(Seq::<int>::empty(), a), k) == pget(a, k) by {
        if 0 <= k {
            vstd::arithmetic::div_mod::lemma_small_mod(pget(a, k) as nat, MODULUS as nat);
        } else {
            assert(pget(padd(Seq::<int>::empty(), a), k) == 0);
        }
    }
    let raw2 = Seq::new(
        pad_len(Seq::<int>::empty(), a),
        |k: int| f_add(pget(Seq::<int>::empty(), k), pget(a, k)),
    );
    lemma_trim(raw2);
    lemma_canonical_unique(padd(Seq::<int>::empty(), a), a);
}

/// Subtracting a polynomial from itself gives the zero polynomial.
pub proof fn lemma_psub_self(a: Seq<int>)
    ensures
        psub(a, a) == Seq::<int>::empty(),
{
    lemma_pget_psub(a, a);
    let raw = Seq::new(pad_len(a, a), |k: int| crate::field::f_sub(pget(a, k), pget(a, k)));
    lemma_trim(raw);
    assert forall|k: int| pget(psub(a, a), k) == pget(Seq::<int>::empty(), k) by {
        if 0 <= k {
            vstd::arithmetic::div_mod::lemma_mod_self_0(MODULUS as int);
            assert(f_sub_get(a, a, k) == 0);
        }
    }
    lemma_canonical_unique(psub(a, a), Seq::<int>::empty());
}

/// Adding the negation of a polynomial gives the zero polynomial.
pub proof fn lemma_padd_pneg(a: Seq<int>)
    requires
        in_range(a),
    ensures
        padd(a, pneg(a)) == Seq::<int>::empty(),
{
    lemma_pget_pneg(a);
    lemma_pget_padd(a, pneg(a));
    assert forall|k: int| pget(padd(a, pneg(a)), k) == pget(Seq::<int>::empty(), k) by {
        if 0 <= k {
            let x = pget(a, k);
            assert(0 <= x < MODULUS);
            vstd::arithmetic::div_mod::lemma_mod_self_0(MODULUS as int);
            if x == 0 {
                assert(f_neg(x) == 0);
                assert(f_add(x, f_neg(x)) == 0);
            } else {
                vstd::arithmetic::div_mod::lemma_small_mod((MODULUS - x) as nat, MODULUS as nat);
                assert(f_neg(x) == MODULUS - x);
                assert(f_add(x, f_neg(x)) == 0);
            }
        }
    }
    let raw = Seq::new(pad_len(a, pneg(a)), |k: int| f_add(pget(a, k), pget(pneg(a), k)));
    lemma_trim(raw);
    lemma_canonical_unique(padd(a, pneg(a)), Seq::<int>::empty());
}

/// The zero polynomial absorbs multiplication.
pub proof fn lemma_pmul_zero(a: Seq<int>)
    ensures
        pmul(a, Seq::<int>::empty()) == Seq::<int>::empty(),
        pmul(Seq::<int>::empty(), a) == Seq::<int>::empty(),
{
}

/// Multiplying by the constant polynomial one changes nothing.
pub proof fn lemma_pmul_one(a: Seq<int>)
    requires
        in_range(a),
        canonical(a),
    ensures
        pmul(a, seq![1int]) == a,
{
    let one = seq![1int];
    lemma_pget_pmul(a, one);
    assert forall|k: int| pget(pmul(a, one), k) == pget(a, k) by {
        if 0 <= k {
            assert forall|m: int| 0 <= m < k implies pget(a, m) == 0 || pget(one, k - m)
                == 0 by {
                assert(pget(one, k - m) == 0);
            }
            lemma_conv_upto_zero_tail(a, one, k, 0, k as nat);
            assert(conv_upto(a, one, k, (k + 1) as nat) == f_add(
                conv_upto(a, one, k, k as nat),
                f_mul(pget(a, k), pget(one, 0)),
            ));
            let x = pget(a, k);
            assert(0 <= x < MODULUS) by {
                if 0 <= k < a.len() {
                    assert(0 <= a[k] < MODULUS);
                }
            }
            lemma_f_identities(x);
            assert(f_mul(x, 1) == f_mul(1, x));
            assert(pget(one, 0) == 1);
            assert(conv(a, one, k) == f_add(0, f_mul(x, 1)));
            assert(f_add(0, x) == f_add(x, 0));
            assert(conv(a, one, k) == pget(a, k));
            assert(pget(pmul(a, one), k) == conv(a, one, k));
        }
    }
    if a.len() == 0 || one.len() == 0 {
    } else {
        lemma_trim(Seq::new((a.len() + one.len() - 1) as nat, |k: int| conv(a, one, k)));
    }
    lemma_canonical_unique(pmul(a, one), a);
}

/// The partial convolution taken from the top: the last `n` of the `k + 1`
/// product terms, accumulated in the opposite order.
spec fn conv_high(a: Seq<int>, b: Seq<int>, k: int, n: nat) -> int
    decreases n,
{
    if n == 0 {
        0
    } else {
        f_add(
            conv_high(a, b, k, (n - 1) as nat),
            f_mul(pget(a, k - (n - 1)), pget(b, n - 1)),
        )
    }
}

/// Reading the terms from the top for one operand order is reading them
/// from the bottom for the other.
proof fn lemma_conv_high_swap(a: Seq<int>, b: Seq<int>, k: int, n: nat)
    ensures
        conv_high(a, b, k, n) == conv_upto(b, a, k, n),
    decreases n,
{
    if n > 0 {
        lemma_conv_high_swap(a, b, k, (n - 1) as nat);
    }
}

/// A convolution splits into a bottom part and a top part at any point.
proof fn lemma_conv_split(a: Seq<int>, b: Seq<int>, k: int, n: nat)
    requires
        0 <= k,
        n <= k + 1,
    ensures
        conv(a, b, k) == f_add(conv_upto(a, b, k, n), conv_high(a, b, k, (k + 1 - n) as nat)),
    decreases k + 1 - n,
{
    if n == k + 1 {
        lemma_conv_upto_range(a, b, k, n);
        vstd::arithmetic::div_mod::lemma_small_mod(
            conv_upto(a, b, k, n) as nat,
            MODULUS as nat,
        );
    } else {
        lemma_conv_split(a, b, k, (n + 1) as nat);
        let u = conv_upto(a, b, k, n);
        let h = conv_high(a, b, k, (k - n) as nat);
        let t = f_mul(pget(a, n as int), pget(b, k - n));
        assert(conv_upto(a, b, k, (n + 1) as nat) == f_add(u, t));
        assert(conv_high(a, b, k, (k + 1 - n) as nat) == f_add(h, t));
        lemma_f_add_assoc(u, t, h);
        lemma_f_add_assoc(u, h, t);
        assert(f_add(t, h) == f_add(h, t));
    }
}

/// Convolution is symmetric in its operands.
proof fn lemma_conv_comm(a: Seq<int>, b: Seq<int>, k: int)
    ensures
        conv(a, b, k) == conv(b, a, k),
{
    if k >= 0 {
        lemma_conv_split(a, b, k, 0);
        lemma_conv_high_swap(a, b, k, (k + 1) as nat);
        lemma_conv_upto_range(b, a, k, (k + 1) as nat);
        vstd::arithmetic::div_mod::lemma_small_mod(
            conv_upto(b, a, k, (k + 1) as nat) as nat,
            MODULUS as nat,
        );
        assert(conv(a, b, k) == f_add(0, conv_upto(b, a, k, (k + 1) as nat)));
    } else {
        lemma_conv_upto_zero_tail(a, b, k, 0, (k + 1) as nat);
        lemma_conv_upto_zero_tail(b, a, k, 0, (k + 1) as nat);
    }
}

/// Polynomial multiplication is commutative.
pub proof fn lemma_pmul_comm(a: Seq<int>, b: Seq<int>)
    ensures
        pmul(a, b) == pmul(b, a),
{
    if a.len() == 0 || b.len() == 0 {
    } else {
        let raw1 = Seq::new((a.len() + b.len() - 1) as nat, |k: int| conv(a, b, k));
        let raw2 = Seq::new((b.len() + a.len() - 1) as nat, |k: int| conv(b, a, k));
        assert forall|k: int| 0 <= k < raw1.len() implies raw1[k] == raw2[k] by {
            lemma_conv_comm(a, b, k);
        }
        assert(raw1 =~= raw2);
    }
}

/// Multiplication distributes over addition, term by term in the
/// partial convolutions.
proof fn lemma_conv_upto_distrib(a: Seq<int>, s: Seq<int>, b: Seq<int>, c: Seq<int>, k: int, n: nat)
    requires
        forall|j: int| pget(s, j) == f_add(pget(b, j), pget(c, j)),
    ensures
        conv_upto(a, s, k, n) == f_add(conv_upto(a, b, k, n), conv_upto(a, c, k, n)),
    decreases n,
{
    if n == 0 {
        vstd::arithmetic::div_mod::lemma_mod_self_0(MODULUS as int);
        assert(f_add(0, 0) == 0);
    } else {
        lemma_conv_upto_distrib(a, s, b, c, k, (n - 1) as nat);
        let m = n - 1;
        let pa = pget(a, m);
        let tb = f_mul(pa, pget(b, k - m));
        let tc = f_mul(pa, pget(c, k - m));
        let ub = conv_upto(a, b, k, m as nat);
        let uc = conv_upto(a, c, k, m as nat);
        lemma_f_distrib(pa, pget(b, k - m), pget(c, k - m));
        assert(f_mul(pa, pget(s, k - m)) == f_add(tb, tc));
        // Reassociate f_add(f_add(ub, uc), f_add(tb, tc)) into
        // f_add(f_add(ub, tb), f_add(uc, tc)).
        lemma_f_add_assoc(f_add(ub, uc), tb, tc);
        lemma_f_add_assoc(ub, uc, tb);
        assert(f_add(uc, tb) == f_add(tb, uc));
        lemma_f_add_assoc(ub, tb, uc);
        lemma_f_add_assoc(f_add(ub, tb), uc, tc);
    }
}

/// Polynomial multiplication distributes over polynomial addition.
pub proof fn lemma_pmul_distrib(a: Seq<int>, b: Seq<int>, c: Seq<int>)
    ensures
        pmul(a, padd(b, c)) == padd(pmul(a, b), pmul(a, c)),
{
    let s = padd(b, c);
    lemma_pget_padd(b, c);
    assert forall|j: int| pget(s, j) == f_add(pget(b, j), pget(c, j)) by {
        if j < 0 {
            vstd::arithmetic::div_mod::lemma_mod_self_0(MODULUS as int);
            assert(f_add(0, 0) == 0);
        }
    }
    lemma_pget_pmul(a, s);
    lemma_pget_pmul(a, b);
    lemma_pget_pmul(a, c);
    lemma_pget_padd(pmul(a, b), pmul(a, c));
    assert forall|k: int| pget(pmul(a, s), k) == pget(padd(pmul(a, b), pmul(a, c)), k) by {
        if 0 <= k {
            lemma_conv_upto_distrib(a, s, b, c, k, (k + 1) as nat);
            assert(conv(a, s, k) == f_add(conv(a, b, k), conv(a, c, k)));
            assert(pget(pmul(a, s), k) == conv(a, s, k));
            assert(pget(pmul(a, b), k) == conv(a, b, k));
            assert(pget(pmul(a, c), k) == conv(a, c, k));
        }
    }
    lemma_pmul_canonical(a, s);
    lemma_padd_canonical(pmul(a, b), pmul(a, c));
    lemma_canonical_unique(pmul(a, s), padd(pmul(a, b), pmul(a, c)));
}

/// Every product is canonical.
pub proof fn lemma_pmul_canonical(a: Seq<int>, b: Seq<int>)
    ensures
        canonical(pmul(a, b)),
{
    if a.len() == 0 || b.len() == 0 {
    } else {
        lemma_trim(Seq::new((a.len() + b.len() - 1) as nat, |k: int| conv(a, b, k)));
    }
}

/// Every sum is canonical.
pub proof fn lemma_padd_canonical(a: Seq<int>, b: Seq<int>)
    ensures
        canonical(padd(a, b)),
{
    lemma_trim(Seq::new(pad_len(a, b), |k: int| f_add(pget(a, k), pget(b, k))));
}

/// A partial convolution depends only on the coefficients of its operands.
proof fn lemma_conv_congruent(a: Seq<int>, a2: Seq<int>, b: Seq<int>, k: int, n: nat)
    requires
        forall|j: int| pget(a, j) == pget(a2, j),
    ensures
        conv_upto(a, b, k, n) == conv_upto(a2, b, k, n),
    decreases n,
{
    if n > 0 {
        lemma_conv_congruent(a, a2, b, k, (n - 1) as nat);
    }
}

/// Peeling the constant coefficient off the first operand: the convolution
/// is that coefficient times the top coefficient of the other operand, plus
/// the convolution of the tail one index down.
proof fn lemma_conv_upto_peel(a: Seq<int>, ta: Seq<int>, b: Seq<int>, k: int, n: nat)
    requires
        a.len() >= 1,
        ta == a.subrange(1, a.len() as int),
    ensures
        conv_upto(a, b, k, (n + 1) as nat) == f_add(
            f_mul(pget(a, 0), pget(b, k)),
            conv_upto(ta, b, k - 1, n),
        ),
    decreases n,
{
    let top = f_mul(pget(a, 0), pget(b, k));
    if n == 0 {
        assert(conv_upto(a, b, k, 0nat) == 0);
        assert(conv_upto(ta, b, k - 1, 0nat) == 0);
        assert(conv_upto(a, b, k, 1nat) == f_add(0, top));
    } else {
        lemma_conv_upto_peel(a, ta, b, k, (n - 1) as nat);
        let u = conv_upto(ta, b, k - 1, (n - 1) as nat);
        let t = f_mul(pget(a, n as int), pget(b, k - n));
        assert(pget(ta, n - 1) == pget(a, n as int)) by {
            if 0 <= n - 1 < ta.len() {
                assert(ta[n - 1] == a[n as int]);
            }
        }
        assert(conv_upto(ta, b, k - 1, n) == f_add(u, t));
        assert(conv_upto(a, b, k, (n + 1) as nat) == f_add(f_add(top, u), t));
        lemma_f_add_assoc(top, u, t);
    }
}

/// Scaling one operand by a constant scales the convolution.
proof fn lemma_conv_upto_scale(sa: Seq<int>, a: Seq<int>, b: Seq<int>, s: int, k: int, n: nat)
    requires
        forall|j: int| pget(sa, j) == f_mul(s, pget(a, j)),
    ensures
        conv_upto(sa, b, k, n) == f_mul(s, conv_upto(a, b, k, n)),
    decreases n,
{
    if n == 0 {
        assert(f_mul(s, 0) == 0);
    } else {
        lemma_conv_upto_scale(sa, a, b, s, k, (n - 1) as nat);
        let m = n - 1;
        let u = conv_upto(a, b, k, m as nat);
        let pa = pget(a, m);
        let pb = pget(b, k - m);
        lemma_f_distrib(s, u, f_mul(pa, pb));
        crate::field::lemma_f_mul_assoc(s, pa, pb);
        assert(pget(sa, m) == f_mul(s, pa));
        assert(f_mul(f_mul(s, pa), pb) == f_mul(s, f_mul(pa, pb)));
    }
}

/// Prepending a zero coefficient to one operand shifts the convolution
/// down by one index.
proof fn lemma_conv_upto_shift(sh: Seq<int>, a: Seq<int>, b: Seq<int>, k: int, n: nat)
    requires
        forall|j: int| pget(sh, j) == (if 1 <= j {
            pget(a, j - 1)
        } else {
            0
        }),
    ensures
        conv_upto(sh, b, k, (n + 1) as nat) == conv_upto(a, b, k - 1, n),
    decreases n,
{
    if n == 0 {
        assert(pget(sh, 0) == 0);
        assert(f_mul(0, pget(b, k)) == 0);
        assert(conv_upto(sh, b, k, 0nat) == 0);
        assert(conv_upto(a, b, k - 1, 0nat) == 0);
        assert(conv_upto(sh, b, k, 1nat) == f_add(0, 0));
        vstd::arithmetic::div_mod::lemma_mod_self_0(MODULUS as int);
    } else {
        lemma_conv_upto_shift(sh, a, b, k, (n - 1) as nat);
        assert(pget(sh, n as int) == pget(a, n - 1));
        assert(k - n == (k - 1) - (n - 1));
    }
}

/// A pointwise sum in the first operand splits the convolution.
proof fn lemma_conv_upto_distrib_left(
    s: Seq<int>,
    a: Seq<int>,
    b: Seq<int>,
    c: Seq<int>,
    k: int,
    n: nat,
)
    requires
        forall|j: int| pget(s, j) == f_add(pget(a, j), pget(b, j)),
    ensures
        conv_upto(s, c, k, n) == f_add(conv_upto(a, c, k, n), conv_upto(b, c, k, n)),
    decreases n,
{
    if n == 0 {
        vstd::arithmetic::div_mod::lemma_mod_self_0(MODULUS as int);
        assert(f_add(0, 0) == 0);
    } else {
        lemma_conv_upto_distrib_left(s, a, b, c, k, (n - 1) as nat);
        let m = n - 1;
        let pc = pget(c, k - m);
        let pa = pget(a, m);
        let pb = pget(b, m);
        let ta = f_mul(pa, pc);
        let tb = f_mul(pb, pc);
        let ua = conv_upto(a, c, k, m as nat);
        let ub = conv_upto(b, c, k, m as nat);
        lemma_f_distrib(pc, pa, pb);
        assert(f_mul(pget(s, m), pc) == f_add(ta, tb)) by {
            assert(f_mul(pc, f_add(pa, pb)) == f_add(f_mul(pc, pa), f_mul(pc, pb)));
        }
        lemma_f_add_assoc(f_add(ua, ub), ta, tb);
        lemma_f_add_assoc(ua, ub, ta);
        assert(f_add(ub, ta) == f_add(ta, ub));
        lemma_f_add_assoc(ua, ta, ub);
        lemma_f_add_assoc(f_add(ua, ta), ub, tb);
    }
}

/// The convolution form of associativity: multiplying by `b` and then
/// convolving with `c` is convolving with the product of `b` and `c`.
proof fn lemma_conv_assoc(a: Seq<int>, b: Seq<int>, c: Seq<int>)
    ensures
        forall|k: int| conv(pmul(a, b), c, k) == conv(a, pmul(b, c), k),
    decreases a.len(),
{
    let p = pmul(a, b);
    let q = pmul(b, c);
    lemma_pget_pmul(a, b);
    lemma_pget_pmul(b, c);
    lemma_pget_pmul(a, q);
    if a.len() == 0 {
        assert forall|k: int| conv(p, c, k) == conv(a, q, k) by {
            assert forall|m: int| 0 <= m < (k + 1) as nat implies pget(p, m) == 0 || pget(
                c,
                k - m,
            ) == 0 by {
                if 0 <= m {
                    lemma_conv_upto_zero_tail(a, b, m, 0, (m + 1) as nat);
                }
            }
            lemma_conv_upto_zero_tail(p, c, k, 0, (k + 1) as nat);
            lemma_conv_upto_zero_tail(a, q, k, 0, (k + 1) as nat);
        }
    } else {
        let a0 = a[0];
        let ta = a.subrange(1, a.len() as int);
        lemma_conv_assoc(ta, b, c);
        let p2 = pmul(ta, b);
        lemma_pget_pmul(ta, b);
        lemma_pget_pmul(ta, q);
        let sc = Seq::new(b.len(), |i: int| f_mul(a0, pget(b, i)));
        let sh = Seq::new(p2.len() + 1, |i: int| if 1 <= i {
            pget(p2, i - 1)
        } else {
            0
        });
        assert forall|j: int| pget(sc, j) == f_mul(a0, pget(b, j)) by {
            if !(0 <= j < b.len()) {
                assert(f_mul(a0, 0) == 0);
            }
        }
        assert forall|j: int| pget(sh, j) == (if 1 <= j {
            pget(p2, j - 1)
        } else {
            0
        }) by {}
        // The product with `a` is, coefficient by coefficient, the scaled
        // copy of `b` plus the shifted product with the tail of `a`.
        assert forall|j: int| pget(p, j) == f_add(pget(sc, j), pget(sh, j)) by {
            if 0 <= j {
                lemma_conv_upto_peel(a, ta, b, j, j as nat);
                assert(conv(a, b, j) == f_add(f_mul(a0, pget(b, j)), conv_upto(ta, b, j - 1, j as nat)));
                if j == 0 {
                    assert(pget(sh, 0) == 0);
                    assert(conv_upto(ta, b, -1, 0nat) == 0);
                } else {
                    assert(conv(ta, b, j - 1) == conv_upto(ta, b, j - 1, j as nat));
                    assert(pget(sh, j) == pget(p2, j - 1));
                    assert(pget(p2, j - 1) == conv(ta, b, j - 1));
                }
            } else {
                vstd::arithmetic::div_mod::lemma_mod_self_0(MODULUS as int);
                assert(f_add(0, 0) == 0);
            }
        }
        assert forall|k: int| conv(p, c, k) == conv(a, q, k) by {
            if k < 0 {
                lemma_conv_upto_zero_tail(p, c, k, 0, (k + 1) as nat);
                lemma_conv_upto_zero_tail(a, q, k, 0, (k + 1) as nat);
            } else {
                lemma_conv_upto_distrib_left(p, sc, sh, c, k, (k + 1) as nat);
                lemma_conv_upto_scale(sc, b, c, a0, k, (k + 1) as nat);
                lemma_conv_upto_shift(sh, p2, c, k, k as nat);
                assert(conv(sh, c, k) == conv_upto(p2, c, k - 1, k as nat));
                if k == 0 {
                    assert(conv_upto(p2, c, -1, 0nat) == 0);
                    lemma_conv_upto_zero_tail(ta, q, -1, 0, 0nat);
                    assert(conv(ta, q, -1) == conv_upto(ta, q, -1, (-1 + 1) as nat));
                } else {
                    assert(conv_upto(p2, c, k - 1, k as nat) == conv(p2, c, k - 1));
                }
                assert(conv(p2, c, k - 1) == conv(ta, q, k - 1));
                lemma_conv_upto_peel(a, ta, q, k, k as nat);
                assert(conv(a, q, k) == f_add(
                    f_mul(a0, pget(q, k)),
                    conv_upto(ta, q, k - 1, k as nat),
                ));
                assert(pget(q, k) == conv(b, c, k));
                assert(conv(p, c, k) == f_add(conv(sc, c, k), conv(sh, c, k)));
                assert(conv(sc, c, k) == f_mul(a0, conv(b, c, k)));
            }
        }
    }
}

/// Polynomial multiplication is associative.
pub proof fn lemma_pmul_assoc(a: Seq<int>, b: Seq<int>, c: Seq<int>)
    ensures
        pmul(pmul(a, b), c) == pmul(a, pmul(b, c)),
{
    lemma_conv_assoc(a, b, c);
    lemma_pget_pmul(pmul(a, b), c);
    lemma_pget_pmul(a, pmul(b, c));
    lemma_pmul_canonical(pmul(a, b), c);
    lemma_pmul_canonical(a, pmul(b, c));
    assert forall|k: int| pget(pmul(pmul(a, b), c), k) == pget(pmul(a, pmul(b, c)), k) by {
        if 0 <= k {
            assert(conv(pmul(a, b), c, k) == conv(a, pmul(b, c), k));
        }
    }
    lemma_canonical_unique(pmul(pmul(a, b), c), pmul(a, pmul(b, c)));
}

/// The degree law: when the leading coefficients do not multiply to zero
/// in the field, degrees add. Over this prime modulus the product of two
/// non-zero residues is never zero, so the hypothesis holds of every pair
/// of non-zero polynomials; that arithmetic fact is not derived here.
pub proof fn lemma_degree_pmul(a: Seq<int>, b: Seq<int>)
    requires
        a.len() > 0,
        b.len() > 0,
        f_mul(a[a.len() - 1], b[b.len() - 1]) != 0,
    ensures
        pmul(a, b).len() == a.len() + b.len() - 1,
{
    let la = a.len() as int;
    let lb = b.len() as int;
    let kstar = la + lb - 2;
    let raw = Seq::new((la + lb - 1) as nat, |k: int| conv(a, b, k));
    assert forall|m: int| 0 <= m < la - 1 implies pget(a, m) == 0 || pget(b, kstar - m)
        == 0 by {
        assert(kstar - m >= lb);
    }
    lemma_conv_upto_zero_tail(a, b, kstar, 0, (la - 1) as nat);
    assert forall|m: int| la <= m < kstar + 1 implies pget(a, m) == 0 || pget(b, kstar - m)
        == 0 by {
        assert(pget(a, m) == 0);
    }
    lemma_conv_upto_zero_tail(a, b, kstar, la as nat, (kstar + 1) as nat);
    assert(conv_upto(a, b, kstar, la as nat) == f_add(
        conv_upto(a, b, kstar, (la - 1) as nat),
        f_mul(pget(a, la - 1), pget(b, kstar - (la - 1))),
    ));
    let t = f_mul(a[la - 1], b[lb - 1]);
    assert(0 <= t < MODULUS);
    vstd::arithmetic::div_mod::lemma_small_mod(t as nat, MODULUS as nat);
    assert(conv(a, b, kstar) == t);
    assert(raw[raw.len() - 1] != 0);
    assert(trim(raw) == raw);
}

/// Composing with the monomial `X` on the right changes nothing.
pub proof fn lemma_pcompose_x_right(p: Seq<int>)
    requires
        in_range(p),
        canonical(p),
    ensures
        pcompose(p, seq![0int, 1int]) == p,
    decreases p.len(),
{
    let x = seq![0int, 1int];
    if p.len() == 0 {
    } else {
        let tail = p.subrange(1, p.len() as int);
        assert(in_range(tail) && canonical(tail)) by {
            assert forall|i: int| 0 <= i < tail.len() implies 0 <= #[trigger] tail[i]
                < MODULUS by {
                assert(tail[i] == p[i + 1]);
            }
            if tail.len() > 0 {
                assert(tail[tail.len() - 1] == p[p.len() - 1]);
            }
        }
        lemma_pcompose_x_right(tail);
        lemma_pget_pmul(tail, x);
        lemma_pget_padd(pmul(tail, x), pconst(p[0]));
        assert forall|k: int| pget(pcompose(p, x), k) == pget(p, k) by {
            if 0 <= k {
                assert(pget(pcompose(p, x), k) == f_add(conv(tail, x, k), pget(pconst(p[0]), k)));
                if k == 0 {
                    assert(conv_upto(tail, x, 0, 0nat) == 0);
                    assert(conv(tail, x, 0) == f_add(0, f_mul(pget(tail, 0), pget(x, 0))));
                    assert(f_mul(pget(tail, 0), 0) == 0);
                    vstd::arithmetic::div_mod::lemma_mod_self_0(MODULUS as int);
                    assert(conv(tail, x, 0) == 0);
                    if p[0] == 0 {
                        assert(pget(pconst(p[0]), 0) == 0);
                        assert(f_add(0, 0) == 0);
                    } else {
                        assert(pget(pconst(p[0]), 0) == p[0]);
                        vstd::arithmetic::div_mod::lemma_small_mod(p[0] as nat, MODULUS as nat);
                    }
                } else {
                    assert forall|m: int| 0 <= m < k - 1 implies pget(tail, m) == 0 || pget(
                        x,
                        k - m,
                    ) == 0 by {
                        assert(pget(x, k - m) == 0);
                    }
                    lemma_conv_upto_zero_tail(tail, x, k, 0, (k - 1) as nat);
                    assert(conv_upto(tail, x, k, k as nat) == f_add(
                        conv_upto(tail, x, k, (k - 1) as nat),
                        f_mul(pget(tail, k - 1), pget(x, 1)),
                    ));
                    assert(conv(tail, x, k) == f_add(
                        conv_upto(tail, x, k, k as nat),
                        f_mul(pget(tail, k), pget(x, 0)),
                    ));
                    let v = pget(tail, k - 1);
                    assert(0 <= v < MODULUS) by {
                        if 0 <= k - 1 < tail.len() {
                            assert(0 <= tail[k - 1] < MODULUS);
                        }
                    }
                    lemma_f_identities(v);
                    assert(f_mul(v, 1) == v);
                    assert(f_add(0, v) == f_add(v, 0));
                    assert(f_mul(pget(tail, k), 0) == 0);
                    assert(conv(tail, x, k) == v);
                    assert(pget(pconst(p[0]), k) == 0);
                    assert(f_add(v, 0) == v);
                    assert(pget(tail, k - 1) == pget(p, k));
                }
            }
        }
        lemma_padd_canonical(pmul(tail, x), pconst(p[0]));
        lemma_canonical_unique(pcompose(p, x), p);
    }
}

/// Composing the monomial `X` with any polynomial gives that polynomial.
pub proof fn lemma_pcompose_x_left(q: Seq<int>)
    requires
        in_range(q),
        canonical(q),
    ensures
        pcompose(seq![0int, 1int], q) == q,
{
    let x = seq![0int, 1int];
    let tail = x.subrange(1, 2);
    assert(tail =~= seq![1int]);
    let tail2 = tail.subrange(1, 1);
    assert(tail2 =~= Seq::<int>::empty());
    assert(pcompose(tail2, q) == Seq::<int>::empty());
    assert(pcompose(tail, q) == padd(pmul(Seq::<int>::empty(), q), pconst(1)));
    lemma_pmul_zero(q);
    assert(in_range(pconst(1)) && canonical(pconst(1)));
    lemma_padd_zero(pconst(1));
    assert(pcompose(tail, q) == pconst(1));
    assert(pcompose(x, q) == padd(pmul(pconst(1), q), pconst(0)));
    lemma_pmul_comm(pconst(1), q);
    assert(pconst(1) =~= seq![1int]);
    lemma_pmul_one(q);
    assert(pconst(0) =~= Seq::<int>::empty());
    lemma_padd_zero(q);
}

/// Composing a constant polynomial with anything gives the constant back.
pub proof fn lemma_pcompose_const(c: int, q: Seq<int>)
    requires
        0 <= c < MODULUS,
    ensures
        pcompose(pconst(c), q) == pconst(c),
{
    if c == 0 {
    } else {
        let p = pconst(c);
        assert(p.len() == 1);
        assert(p[0] == c);
        let tail = p.subrange(1, 1);
        assert(tail =~= Seq::<int>::empty());
        assert(pcompose(tail, q) == Seq::<int>::empty());
        assert(pcompose(p, q) == padd(pmul(Seq::<int>::empty(), q), pconst(c)));
        lemma_pmul_zero(q);
        assert(in_range(pconst(c)) && canonical(pconst(c)));
        lemma_padd_zero(pconst(c));
    }
}

} // verus!
