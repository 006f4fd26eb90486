//! Lagrange interpolation: the unique lowest-degree polynomial through a
//! given set of points, built as a sum of basis polynomials
//! `L_i(x) = prod_{j != i} (x - x_j) / (x_i - x_j)`.

use crate::euclid::gcd;
use crate::field::{SampleFF, SampleFFE};
use crate::poly::UniPoly;
use crate::polyspec::{lemma_peval_all_zero, lemma_peval_deg1, lemma_peval_singleton, peval};
use crate::FieldError;
use vstd::arithmetic::div_mod::{
    lemma_add_mod_noop, lemma_mul_mod_noop_general, lemma_mul_mod_noop_left,
    lemma_mul_mod_noop_right, lemma_small_mod,
};
use vstd::prelude::*;

verus! {

/// Every element of the sequence belongs to the given field.
pub open spec fn same_field_elems(s: Seq<SampleFFE>, f: SampleFF) -> bool {
    forall|i: int| 0 <= i < s.len() ==> (#[trigger] s[i]).field == f
}

/// Every element of the sequence is well formed.
pub open spec fn wf_elems(s: Seq<SampleFFE>) -> bool {
    forall|i: int| 0 <= i < s.len() ==> (#[trigger] s[i]).wf()
}

/// The element values are pairwise distinct.
pub open spec fn distinct_vals(s: Seq<SampleFFE>) -> bool {
    forall|i: int, j: int|
        0 <= i < s.len() && 0 <= j < s.len() && i != j ==> (#[trigger] s[i]).value != (
        #[trigger] s[j]).value
}

/// Every pairwise difference of element values is invertible modulo the
/// field's modulus; in a prime field this holds of any distinct values.
pub open spec fn pairs_invertible(s: Seq<SampleFFE>, f: SampleFF) -> bool {
    forall|i: int, j: int|
        0 <= i < s.len() && 0 <= j < s.len() && i != j ==> gcd(
            (((#[trigger] s[i]).v() - (#[trigger] s[j]).v()) % f.m()) as nat,
            f.modulus as nat,
        ) == 1
}

/// In a field with a prime modulus — every value in `[1, modulus)` coprime
/// with it — any pairwise distinct elements have invertible differences, so
/// interpolation through them cannot fail with `NoInverse`.
pub proof fn lemma_distinct_implies_invertible(s: Seq<SampleFFE>, f: SampleFF)
    requires
        f.wf(),
        crate::euclid::coprime_below(f.m()),
        wf_elems(s),
        same_field_elems(s, f),
        distinct_vals(s),
    ensures
        pairs_invertible(s, f),
{
    assert forall|i: int, j: int|
        0 <= i < s.len() && 0 <= j < s.len() && i != j implies gcd(
        (((#[trigger] s[i]).v() - (#[trigger] s[j]).v()) % f.m()) as nat,
        f.modulus as nat,
    ) == 1 by {
        assert(s[i].wf() && s[i].field == f);
        assert(s[j].wf() && s[j].field == f);
        assert(s[i].value != s[j].value);
        crate::roots::lemma_diff_nonzero(s[i].v(), s[j].v(), f.m());
        vstd::arithmetic::div_mod::lemma_mod_bound(s[i].v() - s[j].v(), f.m());
        let d = (s[i].v() - s[j].v()) % f.m();
        assert(1 <= d < f.m());
        assert(gcd(d as nat, f.m() as nat) == 1);
        assert(f.m() as nat == f.modulus as nat);
    }
}

/// Tests that every element of `s` belongs to `field`.
fn check_same_field(field: SampleFF, s: &Vec<SampleFFE>) -> (r: bool)
    ensures
        r == same_field_elems(s@, field),
{
    let mut i: usize = 0;
    while i < s.len()
        invariant
            i <= s.len(),
            forall|t: int| 0 <= t < i ==> (#[trigger] s@[t]).field == field,
        decreases s.len() - i,
    {
        if s[i].field != field {
            proof {
                let ti: int = i as int;
                assert(s@[ti].field != field);
            }
            return false;
        }
        i = i + 1;
    }
    true
}

/// Tests that the element values of `s` are pairwise distinct.
fn check_distinct(s: &Vec<SampleFFE>) -> (r: bool)
    ensures
        r == distinct_vals(s@),
{
    let n = s.len();
    let mut i: usize = 0;
    while i < n
        invariant
            n == s.len(),
            i <= n,
            forall|t: int, u: int| 0 <= t < i && t < u < n ==> (#[trigger] s@[t]).value != (
            #[trigger] s@[u]).value,
        decreases n - i,
    {
        let mut j = i + 1;
        while j < n
            invariant
                n == s.len(),
                i < j <= n,
                i < n,
                forall|t: int, u: int| 0 <= t < i && t < u < n ==> (#[trigger] s@[t]).value != (
                #[trigger] s@[u]).value,
                forall|u: int| i < u < j ==> (#[trigger] s@[u]).value != s@[i as int].value,
            decreases n - j,
        {
            if s[i].value == s[j].value {
                proof {
                    let ti: int = i as int;
                    let tj: int = j as int;
                    assert(s@[ti].value == s@[tj].value && ti != tj);
                }
                return false;
            }
            j = j + 1;
        }
        i = i + 1;
    }
    proof {
        assert forall|t: int, u: int|
            0 <= t < s@.len() && 0 <= u < s@.len() && t != u implies (#[trigger] s@[t]).value != (
        #[trigger] s@[u]).value by {
            if t < u {
            } else {
                assert(u < t);
            }
        }
    }
    true
}

/// The value of a product at a point, given the value of one factor there:
/// multiplying by a factor congruent to `c` scales the value by `c`.
proof fn lemma_eval_prod_point(pv: int, y: int, lv: int, c: int, m: int)
    requires
        m >= 2,
        0 <= y < m,
        pv % m == (y * lv) % m,
        lv % m == c,
    ensures
        c == 0 ==> pv % m == 0,
        c == 1 ==> pv % m == y,
{
    lemma_mul_mod_noop_right(y, lv, m);
    if c == 0 {
        assert(y * 0 == 0) by (nonlinear_arith);
        lemma_small_mod(0nat, m as nat);
    }
    if c == 1 {
        assert(y * 1 == y) by (nonlinear_arith);
        lemma_small_mod(y as nat, m as nat);
    }
}

/// The value of a sum at a point, from the values of the two summands.
proof fn lemma_eval_sum_point(sv: int, rv: int, pv: int, a: int, b: int, m: int)
    requires
        m >= 2,
        sv % m == (rv + pv) % m,
        rv % m == a,
        pv % m == b,
        0 <= a + b < m,
    ensures
        sv % m == a + b,
{
    lemma_add_mod_noop(rv, pv, m);
    lemma_small_mod((a + b) as nat, m as nat);
}

impl UniPoly {
    /// The Lagrange basis polynomial for the node `x_value` against the node
    /// list `x_values`: the product over every other node `x_j` of
    /// `(x - x_j) / (x_value - x_j)`. It takes the value one at `x_value`
    /// and zero at every other node, and exists exactly when each pairwise
    /// difference has an inverse.
    pub fn get_lagrange_polynomial(
        field: SampleFF,
        x_value: SampleFFE,
        x_values: &Vec<SampleFFE>,
    ) -> (r: Result<UniPoly, FieldError>)
        requires
            field.wf(),
            x_value.wf(),
            x_value.field == field,
            wf_elems(x_values@),
            same_field_elems(x_values@, field),
            x_values@.len() + 2 <= usize::MAX,
        ensures
            r is Ok <==> (forall|j: int|
                0 <= j < x_values@.len() && (#[trigger] x_values@[j]).value != x_value.value
                    ==> gcd(
                    ((x_value.v() - x_values@[j].v()) % field.m()) as nat,
                    field.modulus as nat,
                ) == 1),
            r matches Err(e) ==> e == FieldError::NoInverse,
            r matches Ok(p) ==> {
                &&& p.wf()
                &&& p.field == field
                &&& peval(p.vals(), x_value.v()) % field.m() == 1
                &&& forall|j: int|
                    0 <= j < x_values@.len() && (#[trigger] x_values@[j]).value != x_value.value
                        ==> peval(p.vals(), x_values@[j].v()) % field.m() == 0
                &&& p.vals().len() <= x_values@.len() + 1
                &&& (exists|t: int|
                    0 <= t < x_values@.len() && (#[trigger] x_values@[t]).value == x_value.value)
                    ==> p.vals().len() <= x_values@.len()
            },
    {
        let m = field.modulus;
        let n = x_values.len();
        let mut res = UniPoly::one(field);
        proof {
            lemma_peval_singleton(1, x_value.v());
            lemma_small_mod(1nat, m as nat);
            assert(res.vals() == seq![1int]);
        }
        let mut i: usize = 0;
        while i < n
            invariant
                field.wf(),
                x_value.wf(),
                x_value.field == field,
                wf_elems(x_values@),
                same_field_elems(x_values@, field),
                m == field.modulus,
                n == x_values@.len(),
                n + 2 <= usize::MAX,
                i <= n,
                res.wf(),
                res.field == field,
                1 <= res.vals().len(),
                res.vals().len() <= 1 + i,
                (exists|t: int|
                    0 <= t < i && (#[trigger] x_values@[t]).value == x_value.value)
                    ==> res.vals().len() <= i,
                peval(res.vals(), x_value.v()) % (m as int) == 1,
                forall|t: int|
                    0 <= t < i && (#[trigger] x_values@[t]).value != x_value.value ==> peval(
                        res.vals(),
                        x_values@[t].v(),
                    ) % (m as int) == 0,
                forall|t: int|
                    0 <= t < i && (#[trigger] x_values@[t]).value != x_value.value ==> gcd(
                        ((x_value.v() - x_values@[t].v()) % field.m()) as nat,
                        field.modulus as nat,
                    ) == 1,
            decreases n - i,
        {
            let xj = x_values[i];
            if xj.value == x_value.value {
                proof {
                    let ti: int = i as int;
                    assert(x_values@[ti].value == x_value.value);
                    assert(exists|t: int|
                        0 <= t < i + 1 && (#[trigger] x_values@[t]).value == x_value.value);
                }
                i = i + 1;
                continue ;
            }
            let d = match x_value.sub(xj) {
                Ok(e) => e,
                Err(_) => unreached(),
            };
            let inv = match d.inverse() {
                Ok(e) => e,
                Err(_) => {
                    proof {
                        let ti: int = i as int;
                        assert(x_values@[ti].value != x_value.value);
                        assert(d.v() == (x_value.v() - x_values@[ti].v()) % field.m());
                        assert(gcd(d.v() as nat, field.modulus as nat) != 1);
                        assert(exists|j: int|
                            0 <= j < x_values@.len() && (#[trigger] x_values@[j]).value
                                != x_value.value && gcd(
                                ((x_value.v() - x_values@[j].v()) % field.m()) as nat,
                                field.modulus as nat,
                            ) != 1);
                    }
                    return Err(FieldError::NoInverse);
                },
            };
            let num = UniPoly {
                coefficients: vec![xj.neg(), field.one()],
                field,
            };
            let invp = UniPoly { coefficients: vec![inv], field };
            proof {
                assert(num.vals() =~= seq![crate::field::spec_neg(xj).v(), 1int]);
                assert(invp.vals() =~= seq![inv.v()]);
                assert(inv.v() != 0) by {
                    if inv.v() == 0 {
                        assert(d.v() * 0 == 0) by (nonlinear_arith);
                        lemma_small_mod(0nat, m as nat);
                    }
                }
            }
            let factor = match num.mul(&invp) {
                Ok(f) => f,
                Err(_) => unreached(),
            };
            proof {
                lemma_factor_points(num, invp, factor, x_value, xj, d, inv, field);
            }
            let res2 = match res.mul(&factor) {
                Ok(p) => p,
                Err(_) => unreached(),
            };
            proof {
                let mi = m as int;
                assert(!res.is_zero_spec()) by {
                    if res.is_zero_spec() {
                        lemma_peval_all_zero(res.vals(), x_value.v());
                        lemma_small_mod(0nat, m as nat);
                    }
                }
                assert(!factor.is_zero_spec());
                assert(res2.vals().len() == res.vals().len() + 1);
                // value one at the node itself
                assert(peval(res2.vals(), x_value.v()) % mi == 1) by {
                    lemma_mul_mod_noop_general(
                        peval(res.vals(), x_value.v()),
                        peval(factor.vals(), x_value.v()),
                        mi,
                    );
                    lemma_small_mod(1nat, m as nat);
                }
                // value zero at every processed node and at the new one
                assert forall|t: int|
                    0 <= t < i + 1 && (#[trigger] x_values@[t]).value != x_value.value implies peval(
                    res2.vals(),
                    x_values@[t].v(),
                ) % mi == 0 by {
                    let w = x_values@[t].v();
                    lemma_mul_mod_noop_general(peval(res.vals(), w), peval(factor.vals(), w), mi);
                    if t < i {
                        assert(peval(res.vals(), w) % mi == 0);
                        assert((0int * (peval(factor.vals(), w) % mi)) % mi == 0) by {
                            assert(0int * (peval(factor.vals(), w) % mi) == 0) by (nonlinear_arith);
                            lemma_small_mod(0nat, m as nat);
                        }
                    } else {
                        assert(t == i);
                        assert(x_values@[t].value == xj.value);
                        assert(peval(factor.vals(), w) % mi == 0);
                        assert(((peval(res.vals(), w) % mi) * 0int) % mi == 0) by {
                            assert((peval(res.vals(), w) % mi) * 0int == 0) by (nonlinear_arith);
                            lemma_small_mod(0nat, m as nat);
                        }
                    }
                }
            }
            res = res2;
            i = i + 1;
        }
        Ok(res)
    }
}

impl UniPoly {
    /// Lagrange interpolation through the points `(x_values[i], y_values[i])`:
    /// builds each basis polynomial and returns `sum_i y_i * L_i`. Succeeds
    /// exactly when all points lie in `field`, the x-coordinates are pairwise
    /// distinct, and every pairwise difference is invertible (always true of
    /// a prime modulus); the result passes through every given point and has
    /// degree below the number of points.
    pub fn interpolate_xy(
        field: SampleFF,
        x_values: &Vec<SampleFFE>,
        y_values: &Vec<SampleFFE>,
    ) -> (r: Result<UniPoly, FieldError>)
        requires
            field.wf(),
            x_values@.len() == y_values@.len(),
            wf_elems(x_values@),
            wf_elems(y_values@),
            x_values@.len() + 2 <= usize::MAX,
        ensures
            !(same_field_elems(x_values@, field) && same_field_elems(y_values@, field)) <==> r
                == Err::<UniPoly, FieldError>(FieldError::DifferentField),
            (same_field_elems(x_values@, field) && same_field_elems(y_values@, field)
                && !distinct_vals(x_values@)) <==> r == Err::<UniPoly, FieldError>(
                FieldError::DuplicatePoint,
            ),
            (same_field_elems(x_values@, field) && same_field_elems(y_values@, field)
                && distinct_vals(x_values@) && !pairs_invertible(x_values@, field)) <==> r == Err::<
                UniPoly,
                FieldError,
            >(FieldError::NoInverse),
            (same_field_elems(x_values@, field) && same_field_elems(y_values@, field)
                && distinct_vals(x_values@) && pairs_invertible(x_values@, field)) ==> match r {
                Ok(p) => {
                    &&& p.wf()
                    &&& p.field == field
                    &&& p.vals().len() <= (if x_values@.len() == 0 {
                        1int
                    } else {
                        x_values@.len() as int
                    })
                    &&& forall|i: int|
                        0 <= i < x_values@.len() ==> #[trigger] peval(
                            p.vals(),
                            x_values@[i].v(),
                        ) % field.m() == y_values@[i].v()
                },
                Err(_) => false,
            },
    {
        let m = field.modulus;
        let n = x_values.len();
        if !check_same_field(field, x_values) || !check_same_field(field, y_values) {
            return Err(FieldError::DifferentField);
        }
        if !check_distinct(x_values) {
            return Err(FieldError::DuplicatePoint);
        }
        let mut res = UniPoly::zero(field);
        proof {
            assert forall|t: int| 0 <= t < n implies #[trigger] peval(
                res.vals(),
                x_values@[t].v(),
            ) % (m as int) == 0 by {
                lemma_peval_all_zero(res.vals(), x_values@[t].v());
                lemma_small_mod(0nat, m as nat);
            }
        }
        let mut i: usize = 0;
        while i < n
            invariant
                field.wf(),
                m == field.modulus,
                n == x_values@.len(),
                n == y_values@.len(),
                n + 2 <= usize::MAX,
                wf_elems(x_values@),
                wf_elems(y_values@),
                same_field_elems(x_values@, field),
                same_field_elems(y_values@, field),
                distinct_vals(x_values@),
                i <= n,
                res.wf(),
                res.field == field,
                1 <= res.vals().len(),
                res.vals().len() <= (if n == 0 {
                    1int
                } else {
                    n as int
                }),
                forall|t: int|
                    0 <= t < n ==> #[trigger] peval(res.vals(), x_values@[t].v()) % (m as int) == (
                    if t < i {
                        y_values@[t].v()
                    } else {
                        0
                    }),
                forall|t: int, j: int|
                    0 <= t < i && 0 <= j < n && j != t ==> gcd(
                        (((#[trigger] x_values@[t]).v() - (#[trigger] x_values@[j]).v())
                            % field.m()) as nat,
                        field.modulus as nat,
                    ) == 1,
            decreases n - i,
        {
            let xi = x_values[i];
            let li = match UniPoly::get_lagrange_polynomial(field, xi, x_values) {
                Ok(l) => l,
                Err(_) => {
                    proof {
                        let ti: int = i as int;
                        let bad = choose|j: int|
                            0 <= j < x_values@.len() && (#[trigger] x_values@[j]).value
                                != xi.value && gcd(
                                ((xi.v() - x_values@[j].v()) % field.m()) as nat,
                                field.modulus as nat,
                            ) != 1;
                        assert(x_values@[bad].value != x_values@[ti].value);
                        assert(bad != ti);
                        assert(!pairs_invertible(x_values@, field));
                    }
                    return Err(FieldError::NoInverse);
                },
            };
            proof {
                let ti: int = i as int;
                assert(x_values@[ti].value == xi.value);
                assert(exists|t: int|
                    0 <= t < x_values@.len() && (#[trigger] x_values@[t]).value == xi.value);
                assert(li.vals().len() <= n);
            }
            let ypoly = UniPoly { coefficients: vec![y_values[i]], field };
            proof {
                assert(ypoly.vals() =~= seq![y_values@[i as int].v()]);
            }
            let prod = match ypoly.mul(&li) {
                Ok(p) => p,
                Err(_) => unreached(),
            };
            let res2 = match res.add(&prod) {
                Ok(p) => p,
                Err(_) => unreached(),
            };
            proof {
                let mi = m as int;
                let ti: int = i as int;
                let yiv = y_values@[ti].v();
                // the product has at most as many coefficients as the basis
                assert(prod.vals().len() <= n) by {
                    if !ypoly.is_zero_spec() && !li.is_zero_spec() {
                        assert(prod.vals().len() == 1 + li.vals().len() - 1);
                    } else {
                        assert(prod.vals() == seq![0int]);
                    }
                }
                assert(res2.vals().len() <= n) by {
                    if res.is_zero_spec() {
                        assert(res2.vals() == prod.vals());
                    } else if prod.is_zero_spec() {
                        assert(res2.vals() == res.vals());
                    }
                }
                assert(1 <= res2.vals().len()) by {
                    if res.is_zero_spec() {
                        assert(res2.vals() == prod.vals());
                        if !ypoly.is_zero_spec() && !li.is_zero_spec() {
                            assert(li.vals().len() >= 1);
                        }
                    } else if prod.is_zero_spec() {
                        assert(res2.vals() == res.vals());
                    }
                }
                // the new polynomial passes through each point as required
                assert forall|t: int| 0 <= t < n implies #[trigger] peval(
                    res2.vals(),
                    x_values@[t].v(),
                ) % mi == (if t < ti + 1 {
                    y_values@[t].v()
                } else {
                    0
                }) by {
                    let w = x_values@[t].v();
                    lemma_peval_singleton(yiv, w);
                    assert(peval(prod.vals(), w) % mi == (yiv * peval(li.vals(), w)) % mi);
                    if t == ti {
                        lemma_eval_prod_point(peval(prod.vals(), w), yiv, peval(li.vals(), w), 1, mi);
                        lemma_eval_sum_point(
                            peval(res2.vals(), w),
                            peval(res.vals(), w),
                            peval(prod.vals(), w),
                            0,
                            yiv,
                            mi,
                        );
                    } else {
                        assert(x_values@[t].value != xi.value);
                        assert(peval(li.vals(), w) % mi == 0);
                        lemma_eval_prod_point(peval(prod.vals(), w), yiv, peval(li.vals(), w), 0, mi);
                        if t < ti {
                            lemma_eval_sum_point(
                                peval(res2.vals(), w),
                                peval(res.vals(), w),
                                peval(prod.vals(), w),
                                y_values@[t].v(),
                                0,
                                mi,
                            );
                        } else {
                            lemma_eval_sum_point(
                                peval(res2.vals(), w),
                                peval(res.vals(), w),
                                peval(prod.vals(), w),
                                0,
                                0,
                                mi,
                            );
                        }
                    }
                }
            }
            res = res2;
            i = i + 1;
        }
        Ok(res)
    }

    /// Convenience interpolation with implicit x-values `0, 1, 2, ...`.
    /// When the value count does not exceed the modulus these nodes are
    /// distinct, and the result takes the value `y_values[i]` at the point
    /// `i`, provided every pairwise node difference is invertible (always
    /// true of a prime modulus).
    pub fn interpolate(field: SampleFF, y_values: &Vec<SampleFFE>) -> (r: Result<
        UniPoly,
        FieldError,
    >)
        requires
            field.wf(),
            wf_elems(y_values@),
            y_values@.len() + 2 <= usize::MAX,
            y_values@.len() <= i64::MAX,
        ensures
            !same_field_elems(y_values@, field) <==> r == Err::<UniPoly, FieldError>(
                FieldError::DifferentField,
            ),
            (same_field_elems(y_values@, field) && y_values@.len() <= field.modulus && (forall|
                i: int,
                j: int,
            |
                0 <= i < y_values@.len() && 0 <= j < y_values@.len() && i != j ==> #[trigger] gcd(
                    ((i - j) % field.m()) as nat,
                    field.modulus as nat,
                ) == 1)) ==> match r {
                Ok(p) => {
                    &&& p.wf()
                    &&& p.field == field
                    &&& p.vals().len() <= (if y_values@.len() == 0 {
                        1int
                    } else {
                        y_values@.len() as int
                    })
                    &&& forall|i: int|
                        0 <= i < y_values@.len() ==> #[trigger] peval(p.vals(), i) % field.m()
                            == y_values@[i].v()
                },
                Err(_) => false,
            },
    {
        let n = y_values.len();
        let mut x_values: Vec<SampleFFE> = Vec::new();
        let mut i: usize = 0;
        while i < n
            invariant
                field.wf(),
                n == y_values@.len(),
                n <= i64::MAX,
                i <= n,
                x_values@.len() == i,
                forall|t: int|
                    0 <= t < i ==> #[trigger] x_values@[t] == crate::field::spec_element(field, t),
            decreases n - i,
        {
            let e = match field.element(i as i64) {
                Ok(e) => e,
                Err(_) => unreached(),
            };
            x_values.push(e);
            i = i + 1;
        }
        proof {
            assert(same_field_elems(x_values@, field));
            assert(wf_elems(x_values@)) by {
                assert forall|t: int| 0 <= t < n implies (#[trigger] x_values@[t]).wf() by {
                    vstd::arithmetic::div_mod::lemma_mod_bound(t, field.m());
                }
            }
            if n <= field.modulus {
                assert(distinct_vals(x_values@)) by {
                    assert forall|t: int, u: int|
                        0 <= t < n && 0 <= u < n && t != u implies (#[trigger] x_values@[t]).value
                        != (#[trigger] x_values@[u]).value by {
                        lemma_small_mod(t as nat, field.modulus as nat);
                        lemma_small_mod(u as nat, field.modulus as nat);
                    }
                }
                assert forall|t: int| 0 <= t < n implies #[trigger] x_values@[t].v() == t by {
                    lemma_small_mod(t as nat, field.modulus as nat);
                }
            }
        }
        let r = UniPoly::interpolate_xy(field, &x_values, y_values);
        proof {
            if same_field_elems(y_values@, field) && y_values@.len() <= field.modulus && (forall|
                a: int,
                b: int,
            |
                0 <= a < y_values@.len() && 0 <= b < y_values@.len() && a != b ==> #[trigger] gcd(
                    ((a - b) % field.m()) as nat,
                    field.modulus as nat,
                ) == 1) {
                assert(pairs_invertible(x_values@, field)) by {
                    assert forall|a: int, b: int|
                        0 <= a < n && 0 <= b < n && a != b implies gcd(
                        (((#[trigger] x_values@[a]).v() - (#[trigger] x_values@[b]).v())
                            % field.m()) as nat,
                        field.modulus as nat,
                    ) == 1 by {
                        assert(x_values@[a].v() == a && x_values@[b].v() == b);
                        assert(gcd(((a - b) % field.m()) as nat, field.modulus as nat) == 1);
                    }
                }
                assert(match r {
                    Ok(p) => forall|i: int|
                        0 <= i < y_values@.len() ==> #[trigger] peval(p.vals(), i) % field.m()
                            == y_values@[i].v(),
                    Err(_) => false,
                }) by {
                    match r {
                        Ok(p) => {
                            assert forall|i: int| 0 <= i < n implies #[trigger] peval(
                                p.vals(),
                                i,
                            ) % field.m() == y_values@[i].v() by {
                                assert(x_values@[i].v() == i);
                                assert(peval(p.vals(), x_values@[i].v()) % field.m()
                                    == y_values@[i].v());
                            }
                        },
                        Err(_) => {},
                    }
                }
            }
        }
        r
    }
}

/// The Lagrange factor `(x - x_j) * inv` takes the value one at `x_value`
/// (where `inv` inverts `x_value - x_j`) and zero at `x_j`.
proof fn lemma_factor_points(
    num: UniPoly,
    invp: UniPoly,
    factor: UniPoly,
    x_value: SampleFFE,
    xj: SampleFFE,
    d: SampleFFE,
    inv: SampleFFE,
    field: SampleFF,
)
    requires
        field.wf(),
        x_value.wf(),
        xj.wf(),
        x_value.field == field,
        xj.field == field,
        num.vals() == seq![crate::field::spec_neg(xj).v(), 1int],
        invp.vals() == seq![inv.v()],
        d == crate::field::spec_sub(x_value, xj),
        0 <= inv.v() < field.m(),
        (d.v() * inv.v()) % field.m() == 1,
        forall|xv: int|
            #[trigger] peval(factor.vals(), xv) % field.m() == (peval(num.vals(), xv) * peval(
                invp.vals(),
                xv,
            )) % field.m(),
    ensures
        peval(factor.vals(), x_value.v()) % field.m() == 1,
        peval(factor.vals(), xj.v()) % field.m() == 0,
{
    let m = field.m();
    let negv = crate::field::spec_neg(xj).v();
    assert(negv == (-xj.v()) % m);
    // the numerator x - x_j at a point w evaluates to negv + w
    lemma_peval_deg1(negv, 1, x_value.v());
    lemma_peval_deg1(negv, 1, xj.v());
    lemma_peval_singleton(inv.v(), x_value.v());
    lemma_peval_singleton(inv.v(), xj.v());
    assert(1 * x_value.v() == x_value.v()) by (nonlinear_arith);
    assert(1 * xj.v() == xj.v()) by (nonlinear_arith);
    // at x_value: negv + xv is congruent to xv - xjv, whose product with inv is one
    assert((negv + x_value.v()) % m == d.v() % m) by {
        lemma_add_mod_noop(-xj.v(), x_value.v(), m);
        lemma_small_mod(x_value.value as nat, field.modulus as nat);
        lemma_small_mod(d.value as nat, field.modulus as nat);
    }
    assert(peval(factor.vals(), x_value.v()) % m == 1) by {
        lemma_mul_mod_noop_left(negv + x_value.v(), inv.v(), m);
        lemma_mul_mod_noop_left(d.v(), inv.v(), m);
        assert((d.v() % m) * inv.v() == (negv + x_value.v()) % m * inv.v());
    }
    // at x_j: negv + xjv is congruent to zero, and zero times inv is zero
    assert((negv + xj.v()) % m == 0) by {
        lemma_add_mod_noop(-xj.v(), xj.v(), m);
        lemma_small_mod(xj.value as nat, field.modulus as nat);
        vstd::arithmetic::div_mod::lemma_mod_self_0(m);
        assert((-xj.v() + xj.v()) % m == 0int % m);
        lemma_small_mod(0nat, field.modulus as nat);
    }
    assert(peval(factor.vals(), xj.v()) % m == 0) by {
        lemma_mul_mod_noop_left(negv + xj.v(), inv.v(), m);
        assert(0int * inv.v() == 0) by (nonlinear_arith);
        lemma_small_mod(0nat, field.modulus as nat);
    }
}

} // verus!
