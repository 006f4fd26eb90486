//! Univariate polynomials over a finite field: an ordered coefficient
//! sequence, lowest degree first, drawn from one field. A polynomial with an
//! empty or single-zero coefficient sequence is the zero polynomial; by
//! convention its reported degree is 0.

use crate::field::{SampleFF, SampleFFE};
use crate::modarith::{add_mod, mul_mod};
use crate::polyspec::{conv_coeff, conv_seq, conv_sum, conv_term, padded, peval};
use crate::FieldError;
use vstd::arithmetic::div_mod::{lemma_add_mod_noop, lemma_small_mod};
use vstd::arithmetic::power::pow;
use vstd::prelude::*;

verus! {

/// A univariate polynomial: coefficients from lowest degree to highest, for
/// example `2x^2 + x + 1` is represented as `[1, 1, 2]`, together with the
/// field the coefficients are drawn from.
#[derive(Debug, Clone, PartialEq, Eq)]
pub struct UniPoly {
    pub coefficients: Vec<SampleFFE>,
    pub field: SampleFF,
}

impl UniPoly {
    /// Every coefficient is well formed and belongs to the polynomial's field.
    pub open spec fn wf(&self) -> bool {
        &&& self.field.wf()
        &&& forall|i: int|
            0 <= i < self.coefficients.len() ==> (#[trigger] self.coefficients[i]).wf()
                && self.coefficients[i].field == self.field
    }

    /// The coefficient values as a sequence of mathematical integers.
    pub open spec fn vals(&self) -> Seq<int> {
        self.coefficients@.map_values(|e: SampleFFE| e.value as int)
    }

    /// The modulus of the coefficient field.
    pub open spec fn m(&self) -> int {
        self.field.m()
    }

    /// The zero polynomial: no coefficients, or one zero coefficient.
    pub open spec fn is_zero_spec(&self) -> bool {
        self.vals().len() == 0 || (self.vals().len() == 1 && self.vals()[0] == 0)
    }

    /// The reported degree: 0 for the zero polynomial, else one less than
    /// the coefficient count.
    pub open spec fn degree_spec(&self) -> int {
        if self.is_zero_spec() {
            0
        } else {
            self.vals().len() - 1
        }
    }

    /// Wraps a coefficient sequence drawn from `field` as a polynomial.
    pub fn new(coefficients: Vec<SampleFFE>, field: SampleFF) -> (r: UniPoly)
        requires
            field.wf(),
            forall|i: int|
                0 <= i < coefficients.len() ==> (#[trigger] coefficients[i]).wf()
                    && coefficients[i].field == field,
        ensures
            r.wf(),
            r.field == field,
            r.coefficients == coefficients,
    {
        UniPoly { coefficients, field }
    }

    /// The identity polynomial `x`, represented as `[0, 1]`.
    pub fn x(field: SampleFF) -> (r: UniPoly)
        requires
            field.wf(),
        ensures
            r.wf(),
            r.field == field,
            r.vals() =~= seq![0int, 1int],
    {
        let coefficients = vec![field.zero(), field.one()];
        UniPoly { coefficients, field }
    }

    /// The constant polynomial one, represented as `[1]`.
    pub fn one(field: SampleFF) -> (r: UniPoly)
        requires
            field.wf(),
        ensures
            r.wf(),
            r.field == field,
            r.vals() =~= seq![1int],
    {
        let coefficients = vec![field.one()];
        UniPoly { coefficients, field }
    }

    /// The zero polynomial, represented as `[0]`.
    pub fn zero(field: SampleFF) -> (r: UniPoly)
        requires
            field.wf(),
        ensures
            r.wf(),
            r.field == field,
            r.vals() =~= seq![0int],
            r.is_zero_spec(),
    {
        let coefficients = vec![field.zero()];
        UniPoly { coefficients, field }
    }

    /// Tests for the zero polynomial: empty coefficients, or a single
    /// coefficient equal to the field's zero.
    pub fn is_zero(&self) -> (r: bool)
        ensures
            r == self.is_zero_spec(),
    {
        self.coefficients.len() == 0 || (self.coefficients.len() == 1
            && self.coefficients[0].value == 0)
    }

    /// The degree: 0 for the zero polynomial, else the coefficient count
    /// less one.
    pub fn degree(&self) -> (r: usize)
        ensures
            r as int == self.degree_spec(),
    {
        if self.is_zero() {
            0
        } else {
            self.coefficients.len() - 1
        }
    }

    /// Evaluates the polynomial at `x`: the sum of `c_i * x^i` over all
    /// coefficients, reduced in the field at every step.
    pub fn evaluate(&self, x: SampleFFE) -> (r: Result<SampleFFE, FieldError>)
        requires
            self.wf(),
            x.wf(),
        ensures
            self.field != x.field <==> r == Err::<SampleFFE, FieldError>(
                FieldError::DifferentField,
            ),
            self.field == x.field ==> match r {
                Ok(e) => e.wf() && e.field == self.field && e.v() == peval(self.vals(), x.v())
                    % self.m(),
                Err(_) => false,
            },
    {
        if self.field != x.field {
            return Err(FieldError::DifferentField);
        }
        let m = self.field.modulus;
        let len = self.coefficients.len();
        let mut acc: u64 = 0;
        let mut xpow: u64 = 1;
        let mut i: usize = 0;
        proof {
            lemma_small_mod(0nat, m as nat);
            lemma_small_mod(1nat, m as nat);
            vstd::arithmetic::power::lemma_pow0(x.v());
            assert(self.vals().take(0) =~= Seq::<int>::empty());
        }
        while i < len
            invariant
                self.wf(),
                x.wf(),
                x.field == self.field,
                m == self.field.modulus,
                len == self.coefficients.len(),
                i <= len,
                acc < m,
                xpow < m,
                acc as int == peval(self.vals().take(i as int), x.v()) % (m as int),
                xpow as int == pow(x.v(), i as nat) % (m as int),
            decreases len - i,
        {
            let c = self.coefficients[i].value;
            let term = mul_mod(c, xpow, m);
            proof {
                let a = self.vals();
                crate::polyspec::lemma_peval_take_step(a, x.v(), i as int);
                assert(a[i as int] == c as int);
                assert(term as int == (c as int * pow(x.v(), i as nat)) % (m as int)) by {
                    vstd::arithmetic::div_mod::lemma_mul_mod_noop_right(
                        c as int,
                        pow(x.v(), i as nat),
                        m as int,
                    );
                }
                lemma_add_mod_noop(
                    peval(a.take(i as int), x.v()),
                    c as int * pow(x.v(), i as nat),
                    m as int,
                );
            }
            acc = add_mod(acc, term, m);
            proof {
                crate::field::lemma_pow_incremental(x.v(), i as nat, m as int);
            }
            xpow = mul_mod(xpow, x.value, m);
            i = i + 1;
        }
        proof {
            assert(self.vals().take(len as int) =~= self.vals());
        }
        Ok(SampleFFE { field: self.field, value: acc })
    }
}

/// Pads the shorter coefficient list with field zeros to equal length, then
/// adds element-wise in the field.
pub fn add_list(a: &Vec<SampleFFE>, b: &Vec<SampleFFE>, field: SampleFF) -> (r: Vec<SampleFFE>)
    requires
        field.wf(),
        forall|i: int| 0 <= i < a.len() ==> (#[trigger] a[i]).wf() && a[i].field == field,
        forall|i: int| 0 <= i < b.len() ==> (#[trigger] b[i]).wf() && b[i].field == field,
    ensures
        r.len() == if a.len() >= b.len() {
            a.len()
        } else {
            b.len()
        },
        forall|k: int|
            0 <= k < r.len() ==> (#[trigger] r[k]).field == field && r[k].wf() && r[k].value as int
                == (padded(a@.map_values(|e: SampleFFE| e.value as int), k) + padded(
                b@.map_values(|e: SampleFFE| e.value as int),
                k,
            )) % field.m(),
{
    let m = field.modulus;
    let len = if a.len() >= b.len() {
        a.len()
    } else {
        b.len()
    };
    let mut r: Vec<SampleFFE> = Vec::new();
    let mut k: usize = 0;
    while k < len
        invariant
            field.wf(),
            m == field.modulus,
            forall|i: int| 0 <= i < a.len() ==> (#[trigger] a[i]).wf() && a[i].field == field,
            forall|i: int| 0 <= i < b.len() ==> (#[trigger] b[i]).wf() && b[i].field == field,
            len == if a.len() >= b.len() {
                a.len()
            } else {
                b.len()
            },
            k <= len,
            r.len() == k,
            forall|j: int|
                0 <= j < k ==> (#[trigger] r[j]).field == field && r[j].wf() && r[j].value as int
                    == (padded(a@.map_values(|e: SampleFFE| e.value as int), j) + padded(
                    b@.map_values(|e: SampleFFE| e.value as int),
                    j,
                )) % field.m(),
        decreases len - k,
    {
        let av: u64 = if k < a.len() {
            a[k].value
        } else {
            0
        };
        let bv: u64 = if k < b.len() {
            b[k].value
        } else {
            0
        };
        let v = add_mod(av, bv, m);
        r.push(SampleFFE { field, value: v });
        k = k + 1;
    }
    r
}

impl UniPoly {
    /// Polynomial addition: when neither operand is the zero polynomial the
    /// coefficient lists add element-wise after zero padding; a zero operand
    /// short-circuits to the other operand's coefficients unchanged. In
    /// every case the value of the sum is the sum of the values, at every
    /// point of the field.
    pub fn add(&self, rhs: &UniPoly) -> (r: Result<UniPoly, FieldError>)
        requires
            self.wf(),
            rhs.wf(),
        ensures
            self.field != rhs.field <==> r == Err::<UniPoly, FieldError>(
                FieldError::DifferentField,
            ),
            self.field == rhs.field ==> match r {
                Ok(p) => {
                    &&& p.wf()
                    &&& p.field == self.field
                    &&& if self.is_zero_spec() {
                        p.vals() == rhs.vals()
                    } else if rhs.is_zero_spec() {
                        p.vals() == self.vals()
                    } else {
                        p.vals().len() == (if self.vals().len() >= rhs.vals().len() {
                            self.vals().len()
                        } else {
                            rhs.vals().len()
                        }) && forall|k: int|
                            0 <= k < p.vals().len() ==> #[trigger] p.vals()[k] == (padded(
                                self.vals(),
                                k,
                            ) + padded(rhs.vals(), k)) % self.m()
                    }
                    &&& forall|xv: int|
                        #[trigger] peval(p.vals(), xv) % self.m() == (peval(self.vals(), xv)
                            + peval(rhs.vals(), xv)) % self.m()
                },
                Err(_) => false,
            },
    {
        if self.field != rhs.field {
            return Err(FieldError::DifferentField);
        }
        let m = self.field.modulus;
        if self.is_zero() {
            let p = UniPoly { coefficients: clone_coefficients(&rhs.coefficients), field: self.field };
            proof {
                lemma_add_with_zero(self.vals(), rhs.vals(), m as int);
            }
            Ok(p)
        } else if rhs.is_zero() {
            let p = UniPoly { coefficients: clone_coefficients(&self.coefficients), field: self.field };
            proof {
                lemma_add_with_zero(rhs.vals(), self.vals(), m as int);
                assert(forall|xv: int|
                    #[trigger] peval(self.vals(), xv) % (m as int) == (peval(self.vals(), xv)
                        + peval(rhs.vals(), xv)) % (m as int));
            }
            Ok(p)
        } else {
            let coefficients = add_list(&self.coefficients, &rhs.coefficients, self.field);
            let p = UniPoly { coefficients, field: self.field };
            proof {
                lemma_add_pointwise_eval(self.vals(), rhs.vals(), p.vals(), m as int);
            }
            Ok(p)
        }
    }
}

/// The part of the convolution at index `k` contributed by row `i` of the
/// double loop after its first `j` columns: `a[i] * b[k - i]` once column
/// `k - i` has been passed, else zero.
spec fn row_part(a: Seq<int>, b: Seq<int>, i: int, k: int, j: int) -> int {
    if 0 <= k - i < j {
        a[i] * b[k - i]
    } else {
        0
    }
}

impl UniPoly {
    /// Polynomial multiplication: a zero operand short-circuits to the zero
    /// polynomial; otherwise the full convolution, with
    /// `result[i + j] += self[i] * rhs[j]` accumulated over all pairs. For
    /// nonzero operands the degrees add, and in every case the value of the
    /// product is the product of the values, at every point of the field.
    pub fn mul(&self, rhs: &UniPoly) -> (r: Result<UniPoly, FieldError>)
        requires
            self.wf(),
            rhs.wf(),
            self.coefficients@.len() + rhs.coefficients@.len() <= usize::MAX,
        ensures
            self.field != rhs.field <==> r == Err::<UniPoly, FieldError>(
                FieldError::DifferentField,
            ),
            self.field == rhs.field ==> match r {
                Ok(p) => {
                    &&& p.wf()
                    &&& p.field == self.field
                    &&& (self.is_zero_spec() || rhs.is_zero_spec()) ==> p.vals() == seq![0int]
                    &&& (!self.is_zero_spec() && !rhs.is_zero_spec()) ==> {
                        &&& p.vals().len() == self.vals().len() + rhs.vals().len() - 1
                        &&& (forall|k: int|
                            0 <= k < p.vals().len() ==> #[trigger] p.vals()[k] == conv_coeff(
                                self.vals(),
                                rhs.vals(),
                                k,
                            ) % self.m())
                        &&& p.degree_spec() == self.degree_spec() + rhs.degree_spec()
                    }
                    &&& forall|xv: int|
                        #[trigger] peval(p.vals(), xv) % self.m() == (peval(self.vals(), xv)
                            * peval(rhs.vals(), xv)) % self.m()
                },
                Err(_) => false,
            },
    {
        if self.field != rhs.field {
            return Err(FieldError::DifferentField);
        }
        let m = self.field.modulus;
        let ghost va = self.vals();
        let ghost vb = rhs.vals();
        if self.is_zero() || rhs.is_zero() {
            let p = UniPoly::zero(self.field);
            proof {
                assert forall|xv: int|
                    #[trigger] peval(p.vals(), xv) % self.m() == (peval(va, xv) * peval(vb, xv))
                        % self.m() by {
                    crate::polyspec::lemma_peval_all_zero(p.vals(), xv);
                    if self.is_zero_spec() {
                        crate::polyspec::lemma_peval_all_zero(va, xv);
                        assert(0 * peval(vb, xv) == 0) by (nonlinear_arith);
                    } else {
                        crate::polyspec::lemma_peval_all_zero(vb, xv);
                        assert(peval(va, xv) * 0 == 0) by (nonlinear_arith);
                    }
                }
            }
            return Ok(p);
        }
        let la = self.coefficients.len();
        let lb = rhs.coefficients.len();
        let n = la + lb - 1;
        let mut prod: Vec<u64> = Vec::new();
        let mut t: usize = 0;
        while t < n
            invariant
                t <= n,
                prod.len() == t,
                forall|z: int| 0 <= z < t ==> prod[z] == 0,
            decreases n - t,
        {
            prod.push(0);
            t = t + 1;
        }
        proof {
            assert forall|k: int| 0 <= k < n implies (#[trigger] prod[k]) as int == conv_sum(
                va,
                vb,
                k,
                0nat,
            ) % (m as int) by {
                lemma_small_mod(0nat, m as nat);
            }
        }
        let mut i: usize = 0;
        while i < la
            invariant
                self.wf(),
                rhs.wf(),
                rhs.field == self.field,
                m == self.field.modulus,
                va == self.vals(),
                vb == rhs.vals(),
                la == self.coefficients.len(),
                lb == rhs.coefficients.len(),
                1 <= la,
                1 <= lb,
                n == la + lb - 1,
                i <= la,
                prod.len() == n,
                forall|k: int|
                    0 <= k < n ==> (#[trigger] prod[k]) as int == conv_sum(va, vb, k, i as nat) % (
                    m as int) && prod[k] < m,
            decreases la - i,
        {
            let ai = self.coefficients[i].value;
            let mut j: usize = 0;
            while j < lb
                invariant
                    self.wf(),
                    rhs.wf(),
                    rhs.field == self.field,
                    m == self.field.modulus,
                    va == self.vals(),
                    vb == rhs.vals(),
                    la == self.coefficients.len(),
                    lb == rhs.coefficients.len(),
                    1 <= la,
                    1 <= lb,
                    n == la + lb - 1,
                    i < la,
                    j <= lb,
                    ai as int == va[i as int],
                    prod.len() == n,
                    forall|k: int|
                        0 <= k < n ==> (#[trigger] prod[k]) as int == (conv_sum(va, vb, k, i as nat)
                            + row_part(va, vb, i as int, k, j as int)) % (m as int) && prod[k] < m,
                decreases lb - j,
            {
                let idx = i + j;
                let term = mul_mod(ai, rhs.coefficients[j].value, m);
                let newv = add_mod(prod[idx], term, m);
                let ghost prod_old = prod@;
                prod[idx] = newv;
                proof {
                    let s = conv_sum(va, vb, idx as int, i as nat);
                    assert(row_part(va, vb, i as int, idx as int, j as int) == 0);
                    assert(prod_old[idx as int] as int == s % (m as int));
                    assert(term as int == (va[i as int] * vb[j as int]) % (m as int));
                    lemma_add_mod_noop(s, va[i as int] * vb[j as int], m as int);
                    assert(newv as int == (s + va[i as int] * vb[j as int]) % (m as int)) by {
                        lemma_small_mod((s % (m as int)) as nat, m as nat);
                    }
                    assert forall|k: int| 0 <= k < n implies (#[trigger] prod[k]) as int == (
                    conv_sum(va, vb, k, i as nat) + row_part(va, vb, i as int, k, (j + 1) as int))
                        % (m as int) && prod[k] < m by {
                        if k == idx {
                            assert(row_part(va, vb, i as int, k, (j + 1) as int) == va[i as int]
                                * vb[j as int]);
                        } else {
                            assert(prod[k] == prod_old[k]);
                            assert(row_part(va, vb, i as int, k, (j + 1) as int) == row_part(
                                va,
                                vb,
                                i as int,
                                k,
                                j as int,
                            ));
                        }
                    }
                }
                j = j + 1;
            }
            proof {
                assert forall|k: int| 0 <= k < n implies (#[trigger] prod[k]) as int == conv_sum(
                    va,
                    vb,
                    k,
                    (i + 1) as nat,
                ) % (m as int) by {
                    assert(conv_sum(va, vb, k, (i + 1) as nat) == conv_sum(va, vb, k, i as nat)
                        + conv_term(va, vb, k, i as int));
                    assert(row_part(va, vb, i as int, k, lb as int) == conv_term(
                        va,
                        vb,
                        k,
                        i as int,
                    ));
                }
            }
            i = i + 1;
        }
        let mut coefficients: Vec<SampleFFE> = Vec::new();
        let mut t2: usize = 0;
        while t2 < n
            invariant
                self.field.wf(),
                m == self.field.modulus,
                prod.len() == n,
                forall|k: int| 0 <= k < n ==> (#[trigger] prod[k]) < m,
                t2 <= n,
                coefficients.len() == t2,
                forall|k: int|
                    0 <= k < t2 ==> (#[trigger] coefficients[k]).field == self.field
                        && coefficients[k].value == prod[k] && coefficients[k].wf(),
            decreases n - t2,
        {
            coefficients.push(SampleFFE { field: self.field, value: prod[t2] });
            t2 = t2 + 1;
        }
        let p = UniPoly { coefficients, field: self.field };
        proof {
            assert(p.vals().len() == n);
            assert(va.len() == la && vb.len() == lb);
            assert(forall|k: int|
                0 <= k < n ==> #[trigger] p.vals()[k] == conv_coeff(va, vb, k) % (m as int));
            let cs = conv_seq(va, vb);
            assert(cs.len() == n);
            assert forall|xv: int|
                #[trigger] peval(p.vals(), xv) % self.m() == (peval(va, xv) * peval(vb, xv))
                    % self.m() by {
                assert forall|k: int| 0 <= k < n implies #[trigger] p.vals()[k] % (m as int)
                    == cs[k] % (m as int) by {
                    assert(cs[k] == conv_coeff(va, vb, k));
                    lemma_small_mod((conv_coeff(va, vb, k) % (m as int)) as nat, m as nat);
                }
                crate::polyspec::lemma_peval_mod(p.vals(), cs, m as int, xv);
                crate::polyspec::lemma_peval_conv(va, vb, xv);
            }
            if n == 1 {
                assert(la == 1 && lb == 1);
            }
        }
        Ok(p)
    }
}

/// Copies a coefficient vector element by element.
fn clone_coefficients(v: &Vec<SampleFFE>) -> (r: Vec<SampleFFE>)
    ensures
        r@ =~= v@,
{
    let mut r: Vec<SampleFFE> = Vec::new();
    let mut i: usize = 0;
    while i < v.len()
        invariant
            i <= v.len(),
            r@ =~= v@.take(i as int),
        decreases v.len() - i,
    {
        r.push(v[i]);
        proof {
            assert(r@ =~= v@.take(i + 1));
        }
        i = i + 1;
    }
    proof {
        assert(v@.take(v.len() as int) =~= v@);
    }
    r
}

/// Adding the zero polynomial changes no value: at every point, the other
/// operand's value already is the sum of the two values, modulo `m`.
proof fn lemma_add_with_zero(z: Seq<int>, s: Seq<int>, m: int)
    requires
        m >= 1,
        z.len() == 0 || (z.len() == 1 && z[0] == 0),
    ensures
        forall|xv: int|
            #[trigger] peval(s, xv) % m == (peval(z, xv) + peval(s, xv)) % m,
{
    assert forall|xv: int|
        #[trigger] peval(s, xv) % m == (peval(z, xv) + peval(s, xv)) % m by {
        crate::polyspec::lemma_peval_all_zero(z, xv);
    }
}

/// The element-wise modular sum of two coefficient lists evaluates, at every
/// point, to the sum of the two values modulo `m`.
proof fn lemma_add_pointwise_eval(a: Seq<int>, b: Seq<int>, c: Seq<int>, m: int)
    requires
        m >= 1,
        c.len() == if a.len() >= b.len() {
            a.len()
        } else {
            b.len()
        },
        forall|k: int| 0 <= k < c.len() ==> #[trigger] c[k] == (padded(a, k) + padded(b, k)) % m,
        forall|k: int| 0 <= k < c.len() ==> 0 <= #[trigger] c[k] < m,
    ensures
        forall|xv: int| #[trigger] peval(c, xv) % m == (peval(a, xv) + peval(b, xv)) % m,
{
    let e = Seq::new(c.len(), |k: int| padded(a, k) + padded(b, k));
    assert forall|xv: int|
        #[trigger] peval(c, xv) % m == (peval(a, xv) + peval(b, xv)) % m by {
        assert(forall|k: int| 0 <= k < c.len() ==> #[trigger] c[k] % m == e[k] % m) by {
            assert(forall|k: int|
                0 <= k < c.len() ==> (#[trigger] c[k]) % m == c[k]) by {
                assert forall|k: int| 0 <= k < c.len() implies (#[trigger] c[k]) % m == c[k] by {
                    lemma_small_mod(c[k] as nat, m as nat);
                }
            }
            assert(forall|k: int| 0 <= k < c.len() ==> #[trigger] e[k] % m == c[k]);
        }
        crate::polyspec::lemma_peval_mod(c, e, m, xv);
        crate::polyspec::lemma_peval_pointwise_add(a, b, e, xv);
    }
}

} // verus!
