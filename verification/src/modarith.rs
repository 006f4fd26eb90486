//! Shared modular-arithmetic helpers: the single normalization routine that
//! maps a signed value into `[0, modulus)` with true mathematical modulo, and
//! overflow-free modular addition, subtraction and multiplication on `u64`
//! values using double-width intermediates.

use vstd::arithmetic::div_mod::{
    lemma_fundamental_div_mod, lemma_fundamental_div_mod_converse_mod, lemma_mod_bound,
    lemma_small_mod,
};
use vstd::prelude::*;

verus! {

/// True mathematical modulo of a possibly negative value: for `m > 0` the
/// ghost `%` is already Euclidean, so the spec-side normal form of `v` is
/// simply `v % m`.
///
/// For a negative `v`, `v % m == m - (|v| % m)` reduced once more so that
/// exact multiples of `m` map to `0`; this lemma justifies the executable
/// branch below.
pub proof fn lemma_neg_mod(a: int, m: int)
    requires
        m >= 1,
        a >= 0,
    ensures
        a % m == 0 ==> (-a) % m == 0,
        a % m != 0 ==> (-a) % m == m - (a % m),
{
    lemma_fundamental_div_mod(a, m);
    lemma_mod_bound(a, m);
    let q = a / m;
    let r = a % m;
    if r == 0 {
        assert((-q) * m + 0 == -(m * q + 0)) by (nonlinear_arith);
        lemma_fundamental_div_mod_converse_mod(-a, m, -q, 0);
    } else {
        assert((-q - 1) * m + (m - r) == -(m * q + r)) by (nonlinear_arith);
        lemma_fundamental_div_mod_converse_mod(-a, m, -q - 1, m - r);
    }
}

/// Normalizes a signed value into `[0, m)` using true mathematical modulo,
/// the shared routine behind every element constructor and subtraction path.
pub fn norm_signed(v: i64, m: u64) -> (r: u64)
    requires
        m >= 1,
    ensures
        r as int == (v as int) % (m as int),
        r < m,
{
    proof {
        lemma_mod_bound(v as int, m as int);
    }
    if v >= 0 {
        let val = v as u64;
        val % m
    } else {
        let a: u64 = (-(v as i128)) as u64;
        let rem = a % m;
        proof {
            lemma_neg_mod(a as int, m as int);
        }
        if rem == 0 {
            0
        } else {
            m - rem
        }
    }
}

/// Modular addition with a double-width intermediate, so that no sum
/// overflows even for a modulus near the machine word size.
pub fn add_mod(a: u64, b: u64, m: u64) -> (r: u64)
    requires
        m >= 1,
        a < m,
        b < m,
    ensures
        r as int == (a + b) % (m as int),
        r < m,
{
    proof {
        lemma_mod_bound((a + b) as int, m as int);
    }
    let s: u128 = a as u128 + b as u128;
    (s % (m as u128)) as u64
}

/// Modular subtraction; when the raw difference would be negative the
/// modulus is added back before reducing.
pub fn sub_mod(a: u64, b: u64, m: u64) -> (r: u64)
    requires
        m >= 1,
        a < m,
        b < m,
    ensures
        r as int == (a - b) % (m as int),
        r < m,
{
    if a >= b {
        proof {
            lemma_small_mod((a - b) as nat, m as nat);
        }
        a - b
    } else {
        proof {
            lemma_fundamental_div_mod_converse_mod(a - b, m as int, -1, a - b + m);
        }
        a + (m - b)
    }
}

/// Modular multiplication with a double-width intermediate product; the
/// factors need not be reduced.
pub fn mul_mod(a: u64, b: u64, m: u64) -> (r: u64)
    requires
        m >= 1,
    ensures
        r as int == (a * b) % (m as int),
        r < m,
{
    proof {
        lemma_mod_bound((a * b) as int, m as int);
        assert(a as int * b as int <= u64::MAX as int * u64::MAX as int) by (nonlinear_arith)
            requires
                0 <= a <= u64::MAX,
                0 <= b <= u64::MAX,
        ;
    }
    let p: u128 = a as u128 * b as u128;
    (p % (m as u128)) as u64
}

} // verus!
