//! The extended Euclidean algorithm: the sole mechanism for computing
//! modular multiplicative inverses in this crate.

use crate::modarith::{mul_mod, sub_mod};
use crate::FieldError;
use vstd::arithmetic::div_mod::{
    lemma_fundamental_div_mod, lemma_mod_bound, lemma_mod_self_0, lemma_mul_mod_noop_left,
    lemma_mul_mod_noop_right, lemma_small_mod, lemma_sub_mod_noop,
};
use vstd::prelude::*;

verus! {

/// The greatest common divisor, by the Euclidean recursion.
pub open spec fn gcd(a: nat, b: nat) -> nat
    decreases b,
{
    if b == 0 {
        a
    } else {
        gcd(b, a % b)
    }
}

/// Every value in `[1, m)` is coprime with `m`: for `m >= 2` this says
/// exactly that `m` is prime, and it makes the integers modulo `m` a field.
pub open spec fn coprime_below(m: int) -> bool {
    forall|a: int| 1 <= a < m ==> #[trigger] gcd(a as nat, m as nat) == 1
}

/// The pair `(x, y)` witnesses Bezout's identity for `a` and `b`.
pub open spec fn is_bezout(x: int, y: int, a: nat, b: nat) -> bool {
    x * a + y * b == gcd(a, b)
}

/// Bezout's identity along the Euclidean recursion: the greatest common
/// divisor is an integer combination of its arguments.
pub proof fn lemma_bezout(a: nat, b: nat)
    ensures
        exists|x: int, y: int| is_bezout(x, y, a, b),
    decreases b,
{
    if b == 0 {
        assert(1int * (a as int) + 0int * (b as int) == gcd(a, b)) by (nonlinear_arith)
            requires
                b == 0 && gcd(a, b) == a,
        ;
        assert(is_bezout(1, 0, a, b));
    } else {
        let rr: nat = a % b;
        lemma_bezout(b, rr);
        let (x1, y1) = choose|x1: int, y1: int| is_bezout(x1, y1, b, rr);
        assert(x1 * (b as int) + y1 * (rr as int) == gcd(b, rr));
        lemma_fundamental_div_mod(a as int, b as int);
        let q = a as int / b as int;
        assert((a % b) as int == a as int - b as int * q);
        assert(y1 * (a as int) + (x1 - y1 * q) * (b as int) == x1 * (b as int) + y1 * (a as int
            - b as int * q)) by (nonlinear_arith);
        assert(y1 * (a as int) + (x1 - y1 * q) * (b as int) == gcd(a, b));
        assert(is_bezout(y1, x1 - y1 * q, a, b));
    }
}

/// A value coprime with the modulus has a multiplicative inverse modulo it.
pub proof fn lemma_inverse_exists(a: int, m: int)
    requires
        m >= 2,
        0 <= a,
        gcd(a as nat, m as nat) == 1,
    ensures
        exists|x: int| 0 <= x < m && #[trigger] ((a * x) % m) == 1,
{
    let an: nat = a as nat;
    let mn: nat = m as nat;
    lemma_bezout(an, mn);
    let (x, y) = choose|x: int, y: int| is_bezout(x, y, an, mn);
    assert(x * a + y * m == 1);
    let x0 = x % m;
    lemma_mod_bound(x, m);
    assert((a * x) % m == 1) by {
        vstd::arithmetic::div_mod::lemma_mod_multiples_vanish(y, a * x, m);
        assert(m * y + a * x == 1) by (nonlinear_arith)
            requires
                x * a + y * m == 1,
        ;
        lemma_small_mod(1nat, m as nat);
    }
    assert((a * x0) % m == 1) by {
        lemma_mul_mod_noop_right(a, x, m);
    }
}

/// Modulo a prime, a product vanishes only if a factor does.
pub proof fn lemma_zero_product(u: int, v: int, m: int)
    requires
        m >= 2,
        coprime_below(m),
        u % m != 0,
        (u * v) % m == 0,
    ensures
        v % m == 0,
{
    let a = u % m;
    lemma_mod_bound(u, m);
    assert(gcd(a as nat, m as nat) == 1);
    lemma_inverse_exists(a, m);
    let x = choose|x: int| 0 <= x < m && #[trigger] ((a * x) % m) == 1;
    assert((a * v) % m == 0) by {
        lemma_mul_mod_noop_left(u, v, m);
        lemma_mul_mod_noop_left(a, v, m);
        lemma_small_mod(a as nat, m as nat);
    }
    assert((x * (a * v)) % m == 0) by {
        lemma_mul_mod_noop_right(x, a * v, m);
        assert(x * 0 == 0) by (nonlinear_arith);
        lemma_small_mod(0nat, m as nat);
    }
    assert(x * (a * v) == (a * x) * v) by (nonlinear_arith);
    assert(((a * x) * v) % m == v % m) by {
        lemma_mul_mod_noop_left(a * x, v, m);
        assert(1int * v == v) by (nonlinear_arith);
    }
}

/// One step of the extended Euclidean iteration: if `t0` and `t1` are the
/// Bezout coefficients of `m` and `n` modulo `b`, then `t0 - t1 * q` (taken
/// modulo `b`) is the coefficient of the next remainder `r = m - q * n`.
proof fn lemma_euclid_step(a0: int, b: int, m: int, n: int, q: int, r: int, t0: int, t1: int, t: int)
    requires
        b >= 2,
        (t0 * a0) % b == m % b,
        (t1 * a0) % b == n % b,
        m == n * q + r,
        0 <= r < b,
        0 <= t < b,
        t % b == (t0 - t1 * q) % b,
    ensures
        (t * a0) % b == r,
{
    assert((t * a0) % b == ((t0 - t1 * q) * a0) % b) by {
        lemma_mul_mod_noop_left(t, a0, b);
        lemma_mul_mod_noop_left(t0 - t1 * q, a0, b);
        lemma_small_mod(t as nat, b as nat);
    }
    assert((t0 - t1 * q) * a0 == t0 * a0 - q * (t1 * a0)) by (nonlinear_arith);
    assert((q * (t1 * a0)) % b == (q * n) % b) by {
        lemma_mul_mod_noop_right(q, t1 * a0, b);
        lemma_mul_mod_noop_right(q, n, b);
    }
    assert((t0 * a0 - q * (t1 * a0)) % b == (m - q * n) % b) by {
        lemma_sub_mod_noop(t0 * a0, q * (t1 * a0), b);
        lemma_sub_mod_noop(m, q * n, b);
    }
    assert(m - q * n == r) by {
        assert(n * q == q * n) by (nonlinear_arith);
    }
    lemma_small_mod(r as nat, b as nat);
}

/// Computes the multiplicative inverse of `a` modulo `b` with the extended
/// Euclidean algorithm, maintaining remainder pairs and Bezout coefficient
/// pairs (the coefficients are kept reduced into `[0, b)` throughout).
///
/// The inverse exists, and `Ok` is returned, exactly when
/// `gcd(a, b) == 1`; otherwise the call fails with `NoInverse`.
pub fn multiplicative_inverse(a: u64, b: u64) -> (r: Result<u64, FieldError>)
    requires
        b >= 2,
    ensures
        r matches Ok(x) ==> x < b && (a as int * x as int) % (b as int) == 1,
        r is Ok <==> gcd(a as nat, b as nat) == 1,
        r matches Err(e) ==> e == FieldError::NoInverse,
{
    let a0 = a % b;
    proof {
        lemma_mod_bound(a as int, b as int);
        assert(gcd(a as nat, b as nat) == gcd(b as nat, a0 as nat));
    }
    if a0 == 0 {
        proof {
            assert(gcd(b as nat, 0nat) == b as nat);
        }
        return Err(FieldError::NoInverse);
    }
    let mut m = b;
    let mut n = a0;
    let mut t0: u64 = 0;
    let mut t1: u64 = 1;
    proof {
        lemma_mod_self_0(b as int);
        lemma_small_mod(0nat, b as nat);
        lemma_small_mod(a0 as nat, b as nat);
    }
    loop
        invariant
            b >= 2,
            1 <= n < m <= b,
            t0 < b,
            t1 < b,
            (t0 as int * a0 as int) % (b as int) == (m as int) % (b as int),
            (t1 as int * a0 as int) % (b as int) == n as int,
            gcd(m as nat, n as nat) == gcd(b as nat, a0 as nat),
        ensures
            1 <= n,
            t1 < b,
            m % n == 0,
            (t1 as int * a0 as int) % (b as int) == n as int,
            gcd(m as nat, n as nat) == gcd(b as nat, a0 as nat),
        decreases n,
    {
        let q = m / n;
        let r = m % n;
        if r == 0 {
            break ;
        }
        let tq = mul_mod(t1, q, b);
        let t = sub_mod(t0, tq, b);
        proof {
            lemma_fundamental_div_mod(m as int, n as int);
            lemma_small_mod(n as nat, b as nat);
            assert((t as int) % (b as int) == (t0 as int - t1 as int * q as int) % (b as int)) by {
                lemma_sub_mod_noop(t0 as int, t1 as int * q as int, b as int);
                lemma_sub_mod_noop(t0 as int, tq as int, b as int);
                lemma_small_mod(t as nat, b as nat);
                lemma_small_mod(t0 as nat, b as nat);
            }
            lemma_euclid_step(
                a0 as int,
                b as int,
                m as int,
                n as int,
                q as int,
                r as int,
                t0 as int,
                t1 as int,
                t as int,
            );
            assert(gcd(n as nat, r as nat) == gcd(m as nat, n as nat));
            lemma_small_mod(n as nat, b as nat);
        }
        m = n;
        n = r;
        t0 = t1;
        t1 = t;
    }
    proof {
        assert(gcd(m as nat, n as nat) == gcd(n as nat, 0nat));
        assert(gcd(n as nat, 0nat) == n as nat);
    }
    if n == 1 {
        proof {
            assert((a as int * t1 as int) % (b as int) == 1) by {
                lemma_mul_mod_noop_left(a as int, t1 as int, b as int);
                lemma_mul_mod_noop_left(a0 as int, t1 as int, b as int);
                assert(a as int * t1 as int == t1 as int * a as int) by (nonlinear_arith);
                assert(a0 as int * t1 as int == t1 as int * a0 as int) by (nonlinear_arith);
                assert((a as int) % (b as int) == a0 as int);
            }
        }
        Ok(t1)
    } else {
        Err(FieldError::NoInverse)
    }
}

} // verus!
