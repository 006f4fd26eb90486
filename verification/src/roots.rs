//! Root counting for polynomials over a prime modulus: synthetic division
//! by a linear factor, the bound on the number of roots, and the uniqueness
//! of interpolation that follows from it.

use crate::euclid::{coprime_below, lemma_zero_product};
use crate::polyspec::{
    lemma_peval_drop_first, lemma_peval_neg, lemma_peval_pointwise_add, lemma_peval_singleton,
    padded, peval,
};
use vstd::arithmetic::div_mod::{
    lemma_add_mod_noop, lemma_fundamental_div_mod_converse_mod, lemma_mod_self_0,
    lemma_mul_mod_noop_right, lemma_small_mod, lemma_sub_mod_noop,
};
use vstd::prelude::*;

verus! {

/// The quotient of `q` by the linear factor `x - r`: the Horner recursion
/// `q(x) = q[0] + x q'(x)` turns into
/// `q(x) = (x - r) (q'(r) + x d'(x)) + q(r)` with `d'` the quotient of `q'`.
pub open spec fn synth_div(q: Seq<int>, r: int) -> Seq<int>
    decreases q.len(),
{
    if q.len() <= 1 {
        Seq::empty()
    } else {
        seq![peval(q.drop_first(), r)] + synth_div(q.drop_first(), r)
    }
}

/// Division identity: a polynomial splits into the linear factor `x - r`
/// times its synthetic quotient, plus its value at `r`.
pub proof fn lemma_synth_div(q: Seq<int>, r: int, x: int)
    requires
        q.len() >= 1,
    ensures
        synth_div(q, r).len() == q.len() - 1,
        peval(q, x) == (x - r) * peval(synth_div(q, r), x) + peval(q, r),
    decreases q.len(),
{
    if q.len() == 1 {
        assert(q =~= seq![q[0]]);
        lemma_peval_singleton(q[0], x);
        lemma_peval_singleton(q[0], r);
        assert(peval(synth_div(q, r), x) == 0);
        assert((x - r) * 0 == 0) by (nonlinear_arith);
    } else {
        let q1 = q.drop_first();
        lemma_synth_div(q1, r, x);
        let d1 = synth_div(q1, r);
        let d = synth_div(q, r);
        assert(d == seq![peval(q1, r)] + d1);
        assert(d.len() == q.len() - 1);
        lemma_peval_drop_first(q, x);
        lemma_peval_drop_first(q, r);
        lemma_peval_drop_first(d, x);
        assert(d.drop_first() =~= d1);
        assert(d[0] == peval(q1, r));
        let p = peval(d1, x);
        let qr = peval(q1, r);
        assert(q[0] + x * ((x - r) * p + qr) == (x - r) * (qr + x * p) + (q[0] + r * qr))
            by (nonlinear_arith);
    }
}

/// Two distinct values in `[0, m)` stay distinct modulo `m`.
pub proof fn lemma_diff_nonzero(a: int, b: int, m: int)
    requires
        m >= 1,
        0 <= a < m,
        0 <= b < m,
        a != b,
    ensures
        (a - b) % m != 0,
{
    if a > b {
        lemma_small_mod((a - b) as nat, m as nat);
    } else {
        lemma_fundamental_div_mod_converse_mod(a - b, m, -1, a - b + m);
    }
}

/// A polynomial with more distinct roots in `[0, m)` than coefficients
/// vanishes everywhere modulo a prime `m`.
pub proof fn lemma_vanishing(q: Seq<int>, roots: Seq<int>, m: int, x: int)
    requires
        m >= 2,
        coprime_below(m),
        q.len() <= roots.len(),
        forall|i: int| 0 <= i < roots.len() ==> 0 <= #[trigger] roots[i] < m,
        forall|i: int, j: int|
            0 <= i < roots.len() && 0 <= j < roots.len() && i != j ==> #[trigger] roots[i]
                != #[trigger] roots[j],
        forall|i: int| 0 <= i < roots.len() ==> #[trigger] peval(q, roots[i]) % m == 0,
    ensures
        peval(q, x) % m == 0,
    decreases q.len(),
{
    if q.len() == 0 {
        lemma_small_mod(0nat, m as nat);
    } else {
        let r = roots[0];
        let d = synth_div(q, r);
        lemma_synth_div(q, r, x);
        let roots1 = roots.drop_first();
        assert forall|i: int| 0 <= i < roots1.len() implies #[trigger] peval(d, roots1[i]) % m
            == 0 by {
            let ri = roots1[i];
            assert(ri == roots[i + 1]);
            assert(ri != r);
            lemma_synth_div(q, r, ri);
            assert((ri - r) * peval(d, ri) == peval(q, ri) - peval(q, r));
            assert(((ri - r) * peval(d, ri)) % m == 0) by {
                lemma_sub_mod_noop(peval(q, ri), peval(q, r), m);
                lemma_mod_self_0(m);
                lemma_small_mod(0nat, m as nat);
            }
            lemma_diff_nonzero(ri, r, m);
            lemma_zero_product(ri - r, peval(d, ri), m);
        }
        lemma_vanishing(d, roots1, m, x);
        assert(((x - r) * peval(d, x)) % m == 0) by {
            lemma_mul_mod_noop_right(x - r, peval(d, x), m);
            assert((x - r) * 0 == 0) by (nonlinear_arith);
            lemma_small_mod(0nat, m as nat);
        }
        assert(peval(q, x) % m == 0) by {
            lemma_add_mod_noop((x - r) * peval(d, x), peval(q, r), m);
            lemma_small_mod(0nat, m as nat);
        }
    }
}

/// Uniqueness of interpolation: two polynomials with at most `n`
/// coefficients each that agree modulo a prime `m` at `n` distinct points of
/// `[0, m)` agree everywhere modulo `m`.
pub proof fn lemma_interpolation_unique(c: Seq<int>, q: Seq<int>, pts: Seq<int>, m: int, x: int)
    requires
        m >= 2,
        coprime_below(m),
        c.len() <= pts.len(),
        q.len() <= pts.len(),
        forall|i: int| 0 <= i < pts.len() ==> 0 <= #[trigger] pts[i] < m,
        forall|i: int, j: int|
            0 <= i < pts.len() && 0 <= j < pts.len() && i != j ==> #[trigger] pts[i]
                != #[trigger] pts[j],
        forall|i: int|
            0 <= i < pts.len() ==> #[trigger] peval(c, pts[i]) % m == #[trigger] peval(
                q,
                pts[i],
            ) % m,
    ensures
        peval(c, x) % m == peval(q, x) % m,
{
    let nq = q.map_values(|v: int| -v);
    let maxlen = if c.len() >= q.len() {
        c.len()
    } else {
        q.len()
    };
    let e = Seq::new(maxlen, |k: int| padded(c, k) + padded(nq, k));
    assert(forall|k: int|
        0 <= k < e.len() ==> #[trigger] e[k] == padded(c, k) + padded(nq, k));
    assert forall|w: int| true implies #[trigger] peval(e, w) == peval(c, w) - peval(q, w) by {
        lemma_peval_pointwise_add(c, nq, e, w);
        lemma_peval_neg(q, w);
    }
    assert forall|i: int| 0 <= i < pts.len() implies #[trigger] peval(e, pts[i]) % m == 0 by {
        lemma_sub_mod_noop(peval(c, pts[i]), peval(q, pts[i]), m);
        lemma_mod_self_0(m);
        lemma_small_mod(0nat, m as nat);
        assert(peval(e, pts[i]) == peval(c, pts[i]) - peval(q, pts[i]));
    }
    lemma_vanishing(e, pts, m, x);
    assert(peval(e, x) == peval(c, x) - peval(q, x));
    lemma_sub_mod_noop(peval(c, x), peval(q, x), m);
    let a = peval(c, x) % m;
    let b = peval(q, x) % m;
    vstd::arithmetic::div_mod::lemma_mod_bound(peval(c, x), m);
    vstd::arithmetic::div_mod::lemma_mod_bound(peval(q, x), m);
    if a != b {
        lemma_diff_nonzero(a, b, m);
        assert((a - b) % m == 0);
        assert(false);
    }
}

} // verus!
