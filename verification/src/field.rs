//! Prime-field contexts and field elements.
//!
//! A [`SampleFF`] is an immutable field description: a modulus together with
//! an optional generator. A [`SampleFFE`] is a value normalized into
//! `[0, modulus)` and tied to the field it was drawn from; arithmetic between
//! elements of distinct fields is rejected with
//! [`FieldError::DifferentField`], never silently coerced.

use crate::euclid::{gcd, multiplicative_inverse};
use crate::modarith::{add_mod, mul_mod, norm_signed, sub_mod};
use crate::FieldError;
use vstd::arithmetic::div_mod::{lemma_mod_bound, lemma_small_mod};
use vstd::arithmetic::power::pow;
use vstd::prelude::*;

verus! {

/// A finite-field context: the modulus and an optional generator value.
#[derive(Debug, Clone, Copy, PartialEq, Eq, Structural)]
pub struct SampleFF {
    pub modulus: u64,
    pub generator: Option<u64>,
}

/// A field element: a value in `[0, modulus)` tied to its owning field.
#[derive(Debug, Clone, Copy, PartialEq, Eq, Structural)]
pub struct SampleFFE {
    pub field: SampleFF,
    pub value: u64,
}

impl SampleFF {
    /// A well-formed field has a modulus of at least 2 and, when present, a
    /// generator already reduced into the field.
    pub open spec fn wf(&self) -> bool {
        &&& self.modulus >= 2
        &&& match self.generator {
            Some(g) => g < self.modulus,
            None => true,
        }
    }

    /// The modulus as a mathematical integer.
    pub open spec fn m(&self) -> int {
        self.modulus as int
    }
}

impl SampleFFE {
    /// A well-formed element lives in a well-formed field and is reduced.
    pub open spec fn wf(&self) -> bool {
        &&& self.field.wf()
        &&& self.value < self.field.modulus
    }

    /// The element's value as a mathematical integer.
    pub open spec fn v(&self) -> int {
        self.value as int
    }

    /// The modulus of the owning field.
    pub open spec fn m(&self) -> int {
        self.field.m()
    }
}

/// The element of `f` holding the signed value `v` reduced with true
/// mathematical modulo into `[0, f.modulus)`.
pub open spec fn spec_element(f: SampleFF, v: int) -> SampleFFE {
    SampleFFE { field: f, value: (v % f.m()) as u64 }
}

/// The model of field addition: values add and reduce modulo the modulus.
pub open spec fn spec_add(a: SampleFFE, b: SampleFFE) -> SampleFFE {
    spec_element(a.field, a.v() + b.v())
}

/// The model of field subtraction; a negative raw difference wraps around.
pub open spec fn spec_sub(a: SampleFFE, b: SampleFFE) -> SampleFFE {
    spec_element(a.field, a.v() - b.v())
}

/// The model of field multiplication.
pub open spec fn spec_mul(a: SampleFFE, b: SampleFFE) -> SampleFFE {
    spec_element(a.field, a.v() * b.v())
}

/// The model of field negation.
pub open spec fn spec_neg(a: SampleFFE) -> SampleFFE {
    spec_element(a.field, -a.v())
}

impl SampleFF {
    /// Builds a field from an optional generator and a modulus; a modulus
    /// below 2 is rejected with `InvalidModulus`. The generator, when given,
    /// is reduced into the field by the shared normalization routine.
    pub fn init(generator: Option<i64>, modulus: u64) -> (r: Result<SampleFF, FieldError>)
        ensures
            modulus < 2 <==> r == Err::<SampleFF, FieldError>(FieldError::InvalidModulus),
            modulus >= 2 ==> match r {
                Ok(f) => {
                    &&& f.wf()
                    &&& f.modulus == modulus
                    &&& match generator {
                        Some(g) => f.generator == Some(((g as int) % (modulus as int)) as u64),
                        None => f.generator.is_none(),
                    }
                },
                Err(_) => false,
            },
    {
        if modulus < 2 {
            return Err(FieldError::InvalidModulus);
        }
        let gen = match generator {
            Some(g) => Some(norm_signed(g, modulus)),
            None => None,
        };
        Ok(SampleFF { modulus, generator: gen })
    }

    /// The element of this field holding `value` reduced into
    /// `[0, modulus)` with true mathematical modulo; fails with
    /// `InvalidModulus` when the field itself is degenerate.
    pub fn element(&self, value: i64) -> (r: Result<SampleFFE, FieldError>)
        ensures
            self.modulus < 2 <==> r == Err::<SampleFFE, FieldError>(FieldError::InvalidModulus),
            self.modulus >= 2 ==> r == Ok::<SampleFFE, FieldError>(spec_element(*self, value as int)),
            self.wf() ==> match r {
                Ok(e) => e.wf() && e.field == *self,
                Err(_) => false,
            },
    {
        if self.modulus < 2 {
            return Err(FieldError::InvalidModulus);
        }
        let v = norm_signed(value, self.modulus);
        Ok(SampleFFE { field: *self, value: v })
    }

    /// The additive identity of this field.
    pub fn zero(&self) -> (r: SampleFFE)
        requires
            self.wf(),
        ensures
            r == spec_element(*self, 0),
            r.wf(),
            r.field == *self,
            r.value == 0,
    {
        proof {
            lemma_small_mod(0nat, self.modulus as nat);
        }
        SampleFFE { field: *self, value: 0 }
    }

    /// The multiplicative identity of this field.
    pub fn one(&self) -> (r: SampleFFE)
        requires
            self.wf(),
        ensures
            r == spec_element(*self, 1),
            r.wf(),
            r.field == *self,
            r.value == 1,
    {
        proof {
            lemma_small_mod(1nat, self.modulus as nat);
        }
        SampleFFE { field: *self, value: 1 }
    }

    /// The generator as an element of this field, when one was given.
    pub fn generator_element(&self) -> (r: Option<SampleFFE>)
        requires
            self.wf(),
        ensures
            match self.generator {
                Some(g) => r == Some(SampleFFE { field: *self, value: g }),
                None => r.is_none(),
            },
            r matches Some(e) ==> e.wf() && e.field == *self,
    {
        match self.generator {
            Some(g) => Some(SampleFFE { field: *self, value: g }),
            None => None,
        }
    }
}

impl SampleFFE {
    /// Field addition; elements of distinct fields are rejected.
    pub fn add(self, rhs: SampleFFE) -> (r: Result<SampleFFE, FieldError>)
        requires
            self.wf(),
            rhs.wf(),
        ensures
            self.field == rhs.field ==> r == Ok::<SampleFFE, FieldError>(spec_add(self, rhs)),
            self.field != rhs.field <==> r == Err::<SampleFFE, FieldError>(
                FieldError::DifferentField,
            ),
            r matches Ok(e) ==> e.wf() && e.field == self.field,
    {
        if self.field != rhs.field {
            return Err(FieldError::DifferentField);
        }
        let v = add_mod(self.value, rhs.value, self.field.modulus);
        Ok(SampleFFE { field: self.field, value: v })
    }

    /// Field subtraction; a raw difference below zero wraps by the modulus.
    pub fn sub(self, rhs: SampleFFE) -> (r: Result<SampleFFE, FieldError>)
        requires
            self.wf(),
            rhs.wf(),
        ensures
            self.field == rhs.field ==> r == Ok::<SampleFFE, FieldError>(spec_sub(self, rhs)),
            self.field != rhs.field <==> r == Err::<SampleFFE, FieldError>(
                FieldError::DifferentField,
            ),
            r matches Ok(e) ==> e.wf() && e.field == self.field,
    {
        if self.field != rhs.field {
            return Err(FieldError::DifferentField);
        }
        let v = sub_mod(self.value, rhs.value, self.field.modulus);
        Ok(SampleFFE { field: self.field, value: v })
    }

    /// Field multiplication, with a double-width intermediate product.
    pub fn mul(self, rhs: SampleFFE) -> (r: Result<SampleFFE, FieldError>)
        requires
            self.wf(),
            rhs.wf(),
        ensures
            self.field == rhs.field ==> r == Ok::<SampleFFE, FieldError>(spec_mul(self, rhs)),
            self.field != rhs.field <==> r == Err::<SampleFFE, FieldError>(
                FieldError::DifferentField,
            ),
            r matches Ok(e) ==> e.wf() && e.field == self.field,
    {
        if self.field != rhs.field {
            return Err(FieldError::DifferentField);
        }
        let v = mul_mod(self.value, rhs.value, self.field.modulus);
        Ok(SampleFFE { field: self.field, value: v })
    }

    /// Field negation: the additive inverse of this element.
    pub fn neg(self) -> (r: SampleFFE)
        requires
            self.wf(),
        ensures
            r == spec_neg(self),
            r.wf(),
            r.field == self.field,
    {
        let m = self.field.modulus;
        proof {
            if self.value == 0 {
                lemma_small_mod(0nat, m as nat);
            } else {
                crate::modarith::lemma_neg_mod(self.v(), m as int);
                lemma_small_mod(self.value as nat, m as nat);
            }
        }
        if self.value == 0 {
            SampleFFE { field: self.field, value: 0 }
        } else {
            SampleFFE { field: self.field, value: m - self.value }
        }
    }

    /// Binary exponentiation: squares an accumulator along the bits of the
    /// exponent, so the result is reached in O(log n) multiplications.
    pub fn pow(self, n: u64) -> (r: SampleFFE)
        requires
            self.wf(),
        ensures
            r.field == self.field,
            r.wf(),
            r.v() == pow(self.v(), n as nat) % self.m(),
    {
        let m = self.field.modulus;
        let mut result: u64 = 1;
        let mut base: u64 = self.value;
        let mut e: u64 = n;
        proof {
            lemma_small_mod(1nat, m as nat);
        }
        while e > 0
            invariant
                m >= 2,
                base < m,
                result < m,
                (result * pow(base as int, e as nat)) % (m as int) == pow(self.v(), n as nat) % (
                m as int),
            decreases e,
        {
            proof {
                lemma_pow_step(result as int, base as int, e as nat, m as int);
            }
            if e % 2 == 1 {
                result = mul_mod(result, base, m);
            }
            base = mul_mod(base, base, m);
            e = e / 2;
        }
        proof {
            assert(pow(base as int, 0nat) == 1) by {
                vstd::arithmetic::power::lemma_pow0(base as int);
            }
            lemma_small_mod(result as nat, m as nat);
        }
        SampleFFE { field: self.field, value: result }
    }
}

impl SampleFFE {
    /// Multiplicative inverse via the extended Euclidean algorithm; exists,
    /// and is returned, exactly when the value is coprime with the modulus
    /// (which is expected to fail whenever the modulus is not prime or the
    /// value shares a factor with it).
    pub fn inverse(&self) -> (r: Result<SampleFFE, FieldError>)
        requires
            self.wf(),
        ensures
            r is Ok <==> gcd(self.value as nat, self.field.modulus as nat) == 1,
            r matches Ok(e) ==> e.wf() && e.field == self.field && (self.v() * e.v()) % self.m()
                == 1,
            r matches Err(er) ==> er == FieldError::NoInverse,
    {
        match multiplicative_inverse(self.value, self.field.modulus) {
            Ok(x) => Ok(SampleFFE { field: self.field, value: x }),
            Err(e) => Err(e),
        }
    }

    /// Field division: multiplication by the inverse of the divisor;
    /// propagates `NoInverse` when that inverse does not exist.
    pub fn div(self, rhs: SampleFFE) -> (r: Result<SampleFFE, FieldError>)
        requires
            self.wf(),
            rhs.wf(),
        ensures
            self.field != rhs.field ==> r == Err::<SampleFFE, FieldError>(
                FieldError::DifferentField,
            ),
            self.field == rhs.field && gcd(rhs.value as nat, self.field.modulus as nat) != 1 ==> r
                == Err::<SampleFFE, FieldError>(FieldError::NoInverse),
            self.field == rhs.field && gcd(rhs.value as nat, self.field.modulus as nat) == 1
                ==> match r {
                Ok(e) => e.wf() && e.field == self.field && (e.v() * rhs.v()) % self.m()
                    == self.v(),
                Err(_) => false,
            },
    {
        if self.field != rhs.field {
            return Err(FieldError::DifferentField);
        }
        let inv = match rhs.inverse() {
            Ok(i) => i,
            Err(e) => {
                return Err(e);
            },
        };
        match self.mul(inv) {
            Ok(e) => {
                proof {
                    lemma_div_cancels(self.v(), rhs.v(), inv.v(), self.m());
                }
                Ok(e)
            },
            Err(_) => unreached(),
        }
    }

    /// Tests whether this element has multiplicative order exactly `n`:
    /// its `n`-th power is one and no earlier positive power is. The loop
    /// multiplies the previous accumulator by the element once per step
    /// instead of recomputing each power from scratch.
    pub fn is_order(&self, n: u64) -> (r: bool)
        requires
            self.wf(),
        ensures
            r <==> (pow(self.v(), n as nat) % self.m() == 1 && forall|i: int|
                1 <= i < n ==> #[trigger] pow(self.v(), i as nat) % self.m() != 1),
    {
        let m = self.field.modulus;
        let p = self.pow(n);
        if n <= 1 {
            return p.value == 1;
        }
        if p.value != 1 {
            return false;
        }
        let mut k: u64 = 1;
        let mut cur: u64 = self.value;
        proof {
            vstd::arithmetic::power::lemma_pow1(self.v());
            lemma_small_mod(self.value as nat, m as nat);
        }
        while k < n
            invariant
                m >= 2,
                self.value < m,
                self.field.modulus == m,
                1 <= k <= n,
                cur == pow(self.v(), k as nat) % (m as int),
                forall|j: int| 1 <= j < k ==> #[trigger] pow(self.v(), j as nat) % (m as int) != 1,
            decreases n - k,
        {
            if cur == 1 {
                proof {
                    let ki: int = k as int;
                    assert(1 <= ki && ki < n);
                    assert(pow(self.v(), ki as nat) % self.m() == 1);
                    assert(exists|i: int|
                        1 <= i < n && #[trigger] pow(self.v(), i as nat) % self.m() == 1);
                }
                return false;
            }
            proof {
                lemma_pow_incremental(self.v(), k as nat, m as int);
            }
            cur = mul_mod(cur, self.value, m);
            k = k + 1;
        }
        true
    }

    /// Field addition in place.
    pub fn add_assign(&mut self, rhs: SampleFFE) -> (r: Result<(), FieldError>)
        requires
            old(self).wf(),
            rhs.wf(),
        ensures
            old(self).field == rhs.field ==> (r == Ok::<(), FieldError>(()) && *final(self)
                == spec_add(*old(self), rhs) && final(self).wf()),
            old(self).field != rhs.field ==> (r == Err::<(), FieldError>(
                FieldError::DifferentField,
            ) && *final(self) == *old(self)),
    {
        let s = *self;
        match s.add(rhs) {
            Ok(e) => {
                *self = e;
                Ok(())
            },
            Err(e) => Err(e),
        }
    }

    /// Field subtraction in place.
    pub fn sub_assign(&mut self, rhs: SampleFFE) -> (r: Result<(), FieldError>)
        requires
            old(self).wf(),
            rhs.wf(),
        ensures
            old(self).field == rhs.field ==> (r == Ok::<(), FieldError>(()) && *final(self)
                == spec_sub(*old(self), rhs) && final(self).wf()),
            old(self).field != rhs.field ==> (r == Err::<(), FieldError>(
                FieldError::DifferentField,
            ) && *final(self) == *old(self)),
    {
        let s = *self;
        match s.sub(rhs) {
            Ok(e) => {
                *self = e;
                Ok(())
            },
            Err(e) => Err(e),
        }
    }

    /// Field multiplication in place.
    pub fn mul_assign(&mut self, rhs: SampleFFE) -> (r: Result<(), FieldError>)
        requires
            old(self).wf(),
            rhs.wf(),
        ensures
            old(self).field == rhs.field ==> (r == Ok::<(), FieldError>(()) && *final(self)
                == spec_mul(*old(self), rhs) && final(self).wf()),
            old(self).field != rhs.field ==> (r == Err::<(), FieldError>(
                FieldError::DifferentField,
            ) && *final(self) == *old(self)),
    {
        let s = *self;
        match s.mul(rhs) {
            Ok(e) => {
                *self = e;
                Ok(())
            },
            Err(e) => Err(e),
        }
    }

    /// Field division in place; propagates `NoInverse`.
    pub fn div_assign(&mut self, rhs: SampleFFE) -> (r: Result<(), FieldError>)
        requires
            old(self).wf(),
            rhs.wf(),
        ensures
            old(self).field != rhs.field ==> (r == Err::<(), FieldError>(
                FieldError::DifferentField,
            ) && *final(self) == *old(self)),
            old(self).field == rhs.field && gcd(rhs.value as nat, old(self).field.modulus as nat)
                != 1 ==> (r == Err::<(), FieldError>(FieldError::NoInverse) && *final(self) == *old(
                self,
            )),
            old(self).field == rhs.field && gcd(rhs.value as nat, old(self).field.modulus as nat)
                == 1 ==> (r == Ok::<(), FieldError>(()) && final(self).wf() && final(self).field
                == old(self).field && (final(self).v() * rhs.v()) % old(self).m() == old(self).v()),
    {
        let s = *self;
        match s.div(rhs) {
            Ok(e) => {
                *self = e;
                Ok(())
            },
            Err(e) => Err(e),
        }
    }
}

/// In a field, multiplying a product `(s * i) mod m` by `r` gives back `s`
/// whenever `i` is the multiplicative inverse of `r`.
proof fn lemma_div_cancels(sv: int, rv: int, iv: int, m: int)
    requires
        m >= 2,
        0 <= sv < m,
        (rv * iv) % m == 1,
    ensures
        (((sv * iv) % m) * rv) % m == sv,
{
    assert((((sv * iv) % m) * rv) % m == ((sv * iv) * rv) % m) by {
        vstd::arithmetic::div_mod::lemma_mul_mod_noop_left(sv * iv, rv, m);
    }
    assert((sv * iv) * rv == sv * (rv * iv)) by (nonlinear_arith);
    assert((sv * (rv * iv)) % m == (sv * ((rv * iv) % m)) % m) by {
        vstd::arithmetic::div_mod::lemma_mul_mod_noop_right(sv, rv * iv, m);
    }
    lemma_small_mod(sv as nat, m as nat);
}

/// Raising to the next power is one more multiplication by the base,
/// carried out on the reduced accumulator.
pub(crate) proof fn lemma_pow_incremental(v: int, k: nat, m: int)
    requires
        m >= 2,
        0 <= v < m,
    ensures
        ((pow(v, k) % m) * v) % m == pow(v, (k + 1) as nat) % m,
{
    assert(pow(v, k + 1) == pow(v, k) * v) by {
        vstd::arithmetic::power::lemma_pow1(v);
        vstd::arithmetic::power::lemma_pow_adds(v, k, 1nat);
    }
    vstd::arithmetic::div_mod::lemma_mul_mod_noop_left(pow(v, k), v, m);
}

/// Law: adding the field's zero leaves any element unchanged, and
/// multiplying by the field's one does too.
pub proof fn lemma_identity_elements(f: SampleFF, v: int)
    requires
        f.wf(),
    ensures
        spec_add(spec_element(f, v), spec_element(f, 0)) == spec_element(f, v),
        spec_mul(spec_element(f, v), spec_element(f, 1)) == spec_element(f, v),
{
    let m = f.m();
    lemma_mod_bound(v, m);
    lemma_small_mod(0nat, m as nat);
    lemma_small_mod(1nat, m as nat);
    let e = spec_element(f, v);
    lemma_small_mod(e.value as nat, m as nat);
    assert(e.v() * 1 == e.v());
}

/// Law: in a field with a prime modulus, every nonzero element is coprime
/// with the modulus, so [`SampleFFE::inverse`] succeeds on it.
pub proof fn lemma_nonzero_has_inverse(a: SampleFFE)
    requires
        a.wf(),
        crate::euclid::coprime_below(a.m()),
        a.value != 0,
    ensures
        gcd(a.value as nat, a.field.modulus as nat) == 1,
{
    let v: int = a.v();
    assert(1 <= v < a.m());
    assert(gcd(v as nat, a.m() as nat) == 1);
    assert(v as nat == a.value as nat);
    assert(a.m() as nat == a.field.modulus as nat);
}

/// Law: an element times its multiplicative inverse is the field's one.
/// The hypothesis is exactly what [`SampleFFE::inverse`] ensures of its
/// result, so it holds of every nonzero element whose inverse exists.
pub proof fn lemma_mul_inverse_identity(a: SampleFFE, inv: SampleFFE)
    requires
        a.wf(),
        inv.wf(),
        inv.field == a.field,
        (a.v() * inv.v()) % a.m() == 1,
    ensures
        spec_mul(a, inv) == spec_element(a.field, 1),
{
    lemma_small_mod(1nat, a.field.modulus as nat);
}

/// One step of binary exponentiation: splitting the exponent into its low
/// bit and the rest preserves the running product modulo `m`.
proof fn lemma_pow_step(result: int, base: int, e: nat, m: int)
    requires
        m >= 1,
        e >= 1,
        0 <= result < m,
        0 <= base < m,
    ensures
        e % 2 == 1 ==> ((result * base) % m * pow((base * base) % m, (e / 2) as nat)) % m == (result
            * pow(base, e)) % m,
        e % 2 == 0 ==> (result * pow((base * base) % m, (e / 2) as nat)) % m == (result * pow(
            base,
            e,
        )) % m,
{
    let h = (e / 2) as nat;
    assert(pow(base * base, h) == pow(base, 2 * h)) by {
        vstd::arithmetic::power::lemma_square_is_pow2(base);
        vstd::arithmetic::power::lemma_pow_multiplies(base, 2nat, h);
    }
    // Reducing the squared base modulo m does not change the product mod m.
    assert((result * pow((base * base) % m, h)) % m == (result * pow(base * base, h)) % m) by {
        vstd::arithmetic::power::lemma_pow_mod_noop(base * base, h, m);
        vstd::arithmetic::div_mod::lemma_mul_mod_noop_right(result, pow(base * base, h), m);
        vstd::arithmetic::div_mod::lemma_mul_mod_noop_right(result, pow((base * base) % m, h), m);
    }
    if e % 2 == 1 {
        assert(pow(base, e) == base * pow(base, 2 * h)) by {
            assert(e == 2 * h + 1);
            vstd::arithmetic::power::lemma_pow1(base);
            vstd::arithmetic::power::lemma_pow_adds(base, 1nat, 2 * h);
        }
        assert(((result * base) % m * pow((base * base) % m, h)) % m == ((result * base) * pow(
            base,
            2 * h,
        )) % m) by {
            let x = result * base;
            let y = pow((base * base) % m, h);
            let z = pow(base * base, h);
            vstd::arithmetic::power::lemma_pow_mod_noop(base * base, h, m);
            assert(y % m == z % m);
            vstd::arithmetic::div_mod::lemma_mul_mod_noop_general(x, y, m);
            assert((x % m * y) % m == (x * y) % m);
            vstd::arithmetic::div_mod::lemma_mul_mod_noop_right(x, y, m);
            vstd::arithmetic::div_mod::lemma_mul_mod_noop_right(x, z, m);
            assert((x * y) % m == (x * z) % m);
        }
        assert((result * base) * pow(base, 2 * h) == result * (base * pow(base, 2 * h))) by {
            vstd::arithmetic::mul::lemma_mul_is_associative(result, base, pow(base, 2 * h));
        }
    } else {
        assert(pow(base, e) == pow(base, 2 * h)) by {
            assert(e == 2 * h);
        }
    }
}

} // verus!
