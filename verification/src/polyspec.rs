//! The mathematical model of univariate polynomials: a coefficient sequence
//! (lowest degree first) evaluated as an exact integer sum, and the
//! convolution that models polynomial multiplication, together with the
//! lemmas relating evaluation to addition, scaling, shifting and products.

use vstd::arithmetic::power::{lemma0_pow, lemma_pow0, lemma_pow_adds, pow};
use vstd::prelude::*;

verus! {

/// The value at `x` of the polynomial with coefficients `s`, lowest degree
/// first: the exact integer sum of `s[i] * x^i`.
pub open spec fn peval(s: Seq<int>, x: int) -> int
    decreases s.len(),
{
    if s.len() == 0 {
        0
    } else {
        peval(s.drop_last(), x) + s.last() * pow(x, (s.len() - 1) as nat)
    }
}

/// A coefficient read with zero padding past the end of the sequence.
pub open spec fn padded(s: Seq<int>, k: int) -> int {
    if 0 <= k < s.len() {
        s[k]
    } else {
        0
    }
}

/// One term of the convolution sum: `a[i] * b[k - i]` when the second index
/// is in range, else zero.
pub open spec fn conv_term(a: Seq<int>, b: Seq<int>, k: int, i: int) -> int {
    if 0 <= k - i < b.len() {
        a[i] * b[k - i]
    } else {
        0
    }
}

/// The convolution sum at index `k` restricted to first factors `i < n`.
pub open spec fn conv_sum(a: Seq<int>, b: Seq<int>, k: int, n: nat) -> int
    decreases n,
{
    if n == 0 {
        0
    } else {
        conv_sum(a, b, k, (n - 1) as nat) + conv_term(a, b, k, n - 1)
    }
}

/// Coefficient `k` of the product of the polynomials `a` and `b`.
pub open spec fn conv_coeff(a: Seq<int>, b: Seq<int>, k: int) -> int {
    conv_sum(a, b, k, a.len())
}

/// The full coefficient sequence of the product polynomial.
pub open spec fn conv_seq(a: Seq<int>, b: Seq<int>) -> Seq<int>
    recommends
        a.len() >= 1,
        b.len() >= 1,
{
    Seq::new((a.len() + b.len() - 1) as nat, |k: int| conv_coeff(a, b, k))
}

/// A polynomial whose coefficients are all zero evaluates to zero.
pub proof fn lemma_peval_all_zero(s: Seq<int>, x: int)
    requires
        forall|i: int| 0 <= i < s.len() ==> s[i] == 0,
    ensures
        peval(s, x) == 0,
    decreases s.len(),
{
    if s.len() > 0 {
        lemma_peval_all_zero(s.drop_last(), x);
        assert(s.last() == 0);
    }
}

/// Evaluation is linear: if `c` is the coefficient-wise sum of `a` and `b`
/// (padded with zeros to the longer length), its value is the sum of their
/// values.
pub proof fn lemma_peval_pointwise_add(a: Seq<int>, b: Seq<int>, c: Seq<int>, x: int)
    requires
        c.len() >= a.len(),
        c.len() >= b.len(),
        forall|k: int| 0 <= k < c.len() ==> #[trigger] c[k] == padded(a, k) + padded(b, k),
    ensures
        peval(c, x) == peval(a, x) + peval(b, x),
    decreases c.len(),
{
    if c.len() == 0 {
        assert(a.len() == 0 && b.len() == 0);
    } else {
        let ll = c.len() - 1;
        let c1 = c.drop_last();
        let a1 = if a.len() == c.len() {
            a.drop_last()
        } else {
            a
        };
        let b1 = if b.len() == c.len() {
            b.drop_last()
        } else {
            b
        };
        assert(forall|k: int| 0 <= k < c1.len() ==> #[trigger] c1[k] == padded(a1, k) + padded(
            b1,
            k,
        )) by {
            assert(forall|k: int| 0 <= k < c1.len() ==> #[trigger] c1[k] == c[k]);
            assert(forall|k: int| 0 <= k < ll ==> padded(a1, k) == padded(a, k));
            assert(forall|k: int| 0 <= k < ll ==> padded(b1, k) == padded(b, k));
        }
        lemma_peval_pointwise_add(a1, b1, c1, x);
        let pw = pow(x, ll as nat);
        assert(c.last() == padded(a, ll) + padded(b, ll));
        assert((padded(a, ll) + padded(b, ll)) * pw == padded(a, ll) * pw + padded(b, ll) * pw)
            by (nonlinear_arith);
        if a.len() == c.len() {
            assert(peval(a, x) == peval(a1, x) + a.last() * pw);
            assert(padded(a, ll) == a.last());
        } else {
            assert(peval(a1, x) == peval(a, x) && padded(a, ll) == 0);
        }
        if b.len() == c.len() {
            assert(peval(b, x) == peval(b1, x) + b.last() * pw);
            assert(padded(b, ll) == b.last());
        } else {
            assert(peval(b1, x) == peval(b, x) && padded(b, ll) == 0);
        }
    }
}

/// Evaluating a polynomial whose coefficients are those of `b` scaled by a
/// constant `c` and shifted up by `s` positions multiplies the value of `b`
/// by `c * x^s`.
pub proof fn lemma_peval_shift_scale(b: Seq<int>, c: int, s: nat, u: Seq<int>, x: int)
    requires
        u.len() == s + b.len(),
        forall|k: int|
            0 <= k < u.len() ==> #[trigger] u[k] == if k < s {
                0
            } else {
                c * b[k - s]
            },
    ensures
        peval(u, x) == c * pow(x, s) * peval(b, x),
    decreases b.len(),
{
    if b.len() == 0 {
        lemma_peval_all_zero(u, x);
        assert(c * pow(x, s) * 0 == 0) by (nonlinear_arith);
    } else {
        let b1 = b.drop_last();
        let u1 = u.drop_last();
        assert(forall|k: int|
            0 <= k < u1.len() ==> #[trigger] u1[k] == if k < s {
                0
            } else {
                c * b1[k - s]
            }) by {
            assert(forall|k: int| 0 <= k < u1.len() ==> #[trigger] u1[k] == u[k]);
            assert(forall|k: int| s <= k < u1.len() ==> #[trigger] b1[k - s] == b[k - s]);
        }
        lemma_peval_shift_scale(b1, c, s, u1, x);
        let lb = b.len() - 1;
        let ps = pow(x, s);
        let pl = pow(x, lb as nat);
        let psl = pow(x, (s + lb) as nat);
        lemma_pow_adds(x, s, lb as nat);
        assert(psl == ps * pl);
        assert(u.last() == c * b.last());
        assert(peval(u, x) == peval(u1, x) + (c * b.last()) * psl);
        assert(peval(b, x) == peval(b1, x) + b.last() * pl);
        assert(c * ps * (peval(b1, x) + b.last() * pl) == c * ps * peval(b1, x) + (c * b.last()) * (
        ps * pl)) by (nonlinear_arith);
    }
}

/// The convolution sum at `k` over the first `n` coefficients reads only
/// those coefficients, so two first factors agreeing there give equal sums.
pub proof fn lemma_conv_sum_prefix(a: Seq<int>, a2: Seq<int>, b: Seq<int>, k: int, n: nat)
    requires
        n <= a.len(),
        n <= a2.len(),
        forall|i: int| 0 <= i < n ==> a[i] == a2[i],
    ensures
        conv_sum(a, b, k, n) == conv_sum(a2, b, k, n),
    decreases n,
{
    if n > 0 {
        lemma_conv_sum_prefix(a, a2, b, k, (n - 1) as nat);
    }
}

/// Beyond the last product coefficient every convolution term is zero.
pub proof fn lemma_conv_sum_high_zero(a: Seq<int>, b: Seq<int>, k: int, n: nat)
    requires
        n <= a.len(),
        k >= n + b.len() - 1,
    ensures
        conv_sum(a, b, k, n) == 0,
    decreases n,
{
    if n > 0 {
        lemma_conv_sum_high_zero(a, b, k, (n - 1) as nat);
        assert(conv_term(a, b, k, n - 1) == 0);
    }
}

/// Evaluation turns convolution into multiplication: the product polynomial
/// evaluates to the product of the values.
pub proof fn lemma_peval_conv(a: Seq<int>, b: Seq<int>, x: int)
    requires
        a.len() >= 1,
        b.len() >= 1,
    ensures
        peval(conv_seq(a, b), x) == peval(a, x) * peval(b, x),
    decreases a.len(),
{
    let c = conv_seq(a, b);
    if a.len() == 1 {
        assert forall|k: int| 0 <= k < c.len() implies #[trigger] c[k] == if k < 0 {
            0
        } else {
            a[0] * b[k - 0]
        } by {
            assert(conv_sum(a, b, k, 0nat) == 0);
            assert(c[k] == conv_sum(a, b, k, 1nat));
            assert(conv_sum(a, b, k, 1nat) == conv_sum(a, b, k, 0nat) + conv_term(a, b, k, 0));
            assert(conv_term(a, b, k, 0) == a[0] * b[k]);
        }
        lemma_peval_shift_scale(b, a[0], 0nat, c, x);
        lemma_pow0(x);
        assert(peval(a, x) == peval(a.drop_last(), x) + a[0] * 1);
        assert(a[0] * pow(x, 0nat) * peval(b, x) == a[0] * peval(b, x)) by (nonlinear_arith)
            requires
                pow(x, 0nat) == 1,
        ;
        assert(peval(a, x) * peval(b, x) == a[0] * peval(b, x)) by (nonlinear_arith)
            requires
                peval(a, x) == a[0],
        ;
    } else {
        let a1 = a.drop_last();
        let c1 = conv_seq(a1, b);
        lemma_peval_conv(a1, b, x);
        let s = (a.len() - 1) as nat;
        let u = Seq::new(
            (s + b.len()) as nat,
            |k: int|
                if k < s {
                    0
                } else {
                    a.last() * b[k - s]
                },
        );
        lemma_peval_shift_scale(b, a.last(), s, u, x);
        assert(forall|k: int| 0 <= k < c.len() ==> #[trigger] c[k] == padded(c1, k) + padded(u, k))
            by {
            assert forall|k: int| 0 <= k < c.len() implies #[trigger] c[k] == padded(c1, k)
                + padded(u, k) by {
                assert(c[k] == conv_sum(a, b, k, a.len()));
                assert(conv_sum(a, b, k, a.len()) == conv_sum(a, b, k, s) + conv_term(
                    a,
                    b,
                    k,
                    s as int,
                ));
                lemma_conv_sum_prefix(a, a1, b, k, s);
                if k < c1.len() {
                    assert(padded(c1, k) == conv_sum(a1, b, k, s));
                } else {
                    lemma_conv_sum_high_zero(a1, b, k, s);
                    assert(padded(c1, k) == 0);
                }
                assert(conv_term(a, b, k, s as int) == padded(u, k));
            }
        }
        lemma_peval_pointwise_add(c1, u, c, x);
        let ps = pow(x, s);
        assert(peval(a, x) == peval(a1, x) + a.last() * ps);
        assert((peval(a1, x) + a.last() * ps) * peval(b, x) == peval(a1, x) * peval(b, x) + a.last()
            * ps * peval(b, x)) by (nonlinear_arith);
    }
}

/// Evaluation respects coefficient-wise congruence: sequences equal modulo
/// `m` at every index evaluate to the same value modulo `m`.
pub proof fn lemma_peval_mod(s: Seq<int>, t: Seq<int>, m: int, x: int)
    requires
        m >= 1,
        s.len() == t.len(),
        forall|k: int| 0 <= k < s.len() ==> #[trigger] s[k] % m == #[trigger] t[k] % m,
    ensures
        peval(s, x) % m == peval(t, x) % m,
    decreases s.len(),
{
    if s.len() > 0 {
        let s1 = s.drop_last();
        let t1 = t.drop_last();
        assert(forall|k: int| 0 <= k < s1.len() ==> #[trigger] s1[k] % m == #[trigger] t1[k] % m)
            by {
            assert(forall|k: int|
                0 <= k < s1.len() ==> s1[k] == s[k] && #[trigger] t1[k] == t[k]);
        }
        lemma_peval_mod(s1, t1, m, x);
        let pw = pow(x, (s.len() - 1) as nat);
        assert((s.last() * pw) % m == (t.last() * pw) % m) by {
            vstd::arithmetic::div_mod::lemma_mul_mod_noop_left(s.last(), pw, m);
            vstd::arithmetic::div_mod::lemma_mul_mod_noop_left(t.last(), pw, m);
        }
        vstd::arithmetic::div_mod::lemma_add_mod_noop(peval(s1, x), s.last() * pw, m);
        vstd::arithmetic::div_mod::lemma_add_mod_noop(peval(t1, x), t.last() * pw, m);
    }
}

/// At zero, a polynomial evaluates to its constant term.
pub proof fn lemma_peval_at_zero(s: Seq<int>)
    requires
        s.len() >= 1,
    ensures
        peval(s, 0) == s[0],
    decreases s.len(),
{
    if s.len() == 1 {
        lemma_pow0(0);
        assert(peval(s.drop_last(), 0) == 0);
    } else {
        lemma_peval_at_zero(s.drop_last());
        lemma0_pow((s.len() - 1) as nat);
        assert(s.last() * 0 == 0) by (nonlinear_arith);
    }
}

/// A constant polynomial evaluates to its constant.
pub proof fn lemma_peval_singleton(c: int, x: int)
    ensures
        peval(seq![c], x) == c,
{
    let s = seq![c];
    assert(s.drop_last() =~= Seq::<int>::empty());
    assert(peval(Seq::<int>::empty(), x) == 0);
    assert(s.last() == c);
    lemma_pow0(x);
    assert(c * 1 == c) by (nonlinear_arith);
}

/// A degree-one polynomial `c0 + c1 x` evaluates accordingly.
pub proof fn lemma_peval_deg1(c0: int, c1: int, x: int)
    ensures
        peval(seq![c0, c1], x) == c0 + c1 * x,
{
    let s = seq![c0, c1];
    assert(s.drop_last() =~= seq![c0]);
    lemma_peval_singleton(c0, x);
    vstd::arithmetic::power::lemma_pow1(x);
}

/// Evaluation in Horner form: the constant term plus `x` times the value of
/// the remaining coefficients.
pub proof fn lemma_peval_drop_first(s: Seq<int>, x: int)
    requires
        s.len() >= 1,
    ensures
        peval(s, x) == s[0] + x * peval(s.drop_first(), x),
    decreases s.len(),
{
    if s.len() == 1 {
        assert(s =~= seq![s[0]]);
        lemma_peval_singleton(s[0], x);
        assert(s.drop_first() =~= Seq::<int>::empty());
        assert(x * 0 == 0) by (nonlinear_arith);
    } else {
        let n = s.len();
        let t = s.last();
        let q1 = s.drop_last();
        lemma_peval_drop_first(q1, x);
        assert(s.drop_first().drop_last() =~= q1.drop_first());
        assert(s.drop_first().last() == t);
        assert(peval(s.drop_first(), x) == peval(q1.drop_first(), x) + t * pow(
            x,
            (n - 2) as nat,
        ));
        assert(pow(x, (n - 1) as nat) == x * pow(x, (n - 2) as nat)) by {
            vstd::arithmetic::power::lemma_pow1(x);
            lemma_pow_adds(x, 1nat, (n - 2) as nat);
        }
        let a = peval(q1.drop_first(), x);
        let b = pow(x, (n - 2) as nat);
        assert(s[0] + x * (a + t * b) == (s[0] + x * a) + t * (x * b)) by (nonlinear_arith);
    }
}

/// Negating every coefficient negates the value.
pub proof fn lemma_peval_neg(s: Seq<int>, x: int)
    ensures
        peval(s.map_values(|v: int| -v), x) == -peval(s, x),
    decreases s.len(),
{
    let ns = s.map_values(|v: int| -v);
    if s.len() == 0 {
        assert(ns.len() == 0);
    } else {
        lemma_peval_neg(s.drop_last(), x);
        assert(ns.drop_last() =~= s.drop_last().map_values(|v: int| -v));
        assert(ns.last() == -s.last());
        assert((-s.last()) * pow(x, (s.len() - 1) as nat) == -(s.last() * pow(
            x,
            (s.len() - 1) as nat,
        ))) by (nonlinear_arith);
    }
}

/// Growing an evaluation prefix by one coefficient adds one term.
pub proof fn lemma_peval_take_step(s: Seq<int>, x: int, i: int)
    requires
        0 <= i < s.len(),
    ensures
        peval(s.take(i + 1), x) == peval(s.take(i), x) + s[i] * pow(x, i as nat),
{
    let t = s.take(i + 1);
    assert(t.drop_last() =~= s.take(i));
    assert(t.last() == s[i]);
}

} // verus!
