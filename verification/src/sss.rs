//! Shamir threshold secret sharing: `split` builds a random polynomial of
//! degree exactly `threshold - 1` whose constant term is the secret and
//! evaluates it at distinct nonzero sample points; `recover` interpolates a
//! polynomial through given shares and compares its value at zero with the
//! secret. Randomness is an explicit, injectable dependency, so callers and
//! tests can supply deterministic sequences.

use crate::euclid::coprime_below;
use crate::field::{SampleFF, SampleFFE};
use crate::interp::{distinct_vals, pairs_invertible, same_field_elems, wf_elems};
use crate::poly::UniPoly;
use crate::polyspec::{lemma_peval_at_zero, peval};
use crate::FieldError;
use vstd::arithmetic::div_mod::lemma_small_mod;
use vstd::prelude::*;
use vstd::set_lib::{lemma_int_range, lemma_len_subset, set_int_range};

verus! {

#[verifier::external_type_specification]
#[verifier::external_body]
pub struct ExStdRng(rand::rngs::StdRng);

/// Relies on rand's `Rng::gen_range` over `0..bound`: returns a value drawn
/// uniformly from `[0, bound)`; it panics only on an empty range, which the
/// precondition excludes.
#[verifier::external_body]
fn rng_below(rng: &mut rand::rngs::StdRng, bound: u64) -> (r: u64)
    requires
        bound >= 1,
    ensures
        r < bound,
{
    rand::Rng::gen_range(rng, 0..bound)
}

/// Tests whether the vector holds the given value.
fn contains_val(v: &Vec<u64>, x: u64) -> (r: bool)
    ensures
        r == v@.contains(x),
{
    let mut i: usize = 0;
    while i < v.len()
        invariant
            i <= v.len(),
            forall|j: int| 0 <= j < i ==> v@[j] != x,
        decreases v.len() - i,
    {
        if v[i] == x {
            proof {
                assert(v@[i as int] == x);
            }
            return true;
        }
        i = i + 1;
    }
    false
}

/// Pigeonhole: a duplicate-free sequence holding every value in `[1, x]`
/// has at least `x` elements.
proof fn lemma_distinct_holds_range(s: Seq<u64>, x: int)
    requires
        0 <= x <= u64::MAX,
        s.no_duplicates(),
        forall|u: int| 1 <= u <= x ==> s.contains(#[trigger] (u as u64)),
    ensures
        x <= s.len(),
{
    let si = s.map_values(|v: u64| v as int);
    assert(si.no_duplicates()) by {
        assert forall|i: int, j: int|
            0 <= i < si.len() && 0 <= j < si.len() && i != j implies si[i] != si[j] by {
            assert(s[i] != s[j]);
        }
    }
    let range = set_int_range(1, x + 1);
    lemma_int_range(1, x + 1);
    assert(range.subset_of(si.to_set())) by {
        assert forall|u: int| range.contains(u) implies si.to_set().contains(u) by {
            assert(s.contains(u as u64));
            let w = choose|w: int| 0 <= w < s.len() && s[w] == u as u64;
            assert(si[w] == u);
            assert(si.contains(u));
        }
    }
    si.unique_seq_to_set();
    lemma_len_subset(range, si.to_set());
}

/// Deterministic fallback for sample-point selection: the smallest value in
/// `[1, m)` not yet chosen, which exists because fewer than `m - 1` values
/// have been chosen.
fn scan_free(chosen: &Vec<u64>, m: u64) -> (r: u64)
    requires
        chosen@.no_duplicates(),
        chosen@.len() + 2 <= m,
        forall|i: int| 0 <= i < chosen@.len() ==> 1 <= #[trigger] chosen@[i] < m,
    ensures
        1 <= r < m,
        !chosen@.contains(r),
{
    let mut x: u64 = 1;
    loop
        invariant
            chosen@.no_duplicates(),
            chosen@.len() + 2 <= m,
            forall|i: int| 0 <= i < chosen@.len() ==> 1 <= #[trigger] chosen@[i] < m,
            1 <= x <= chosen@.len() + 1,
            forall|u: int| 1 <= u < x ==> chosen@.contains(#[trigger] (u as u64)),
        decreases chosen@.len() + 1 - x,
    {
        if !contains_val(chosen, x) {
            return x;
        }
        proof {
            assert(chosen@.contains(x));
            assert forall|u: int| 1 <= u <= x implies chosen@.contains(#[trigger] (u as u64)) by {
                if u < x {
                } else {
                    assert(u as u64 == x);
                }
            }
            lemma_distinct_holds_range(chosen@, x as int);
        }
        x = x + 1;
    }
}

/// The sharing polynomial behind a set of shares: coefficients reduced into
/// the field, constant term equal to the secret, degree exactly `t - 1`
/// (its leading coefficient is nonzero whenever `t >= 2`), and every share
/// a sample `(x, P(x))` of it.
pub open spec fn sharing_poly(
    c: Seq<int>,
    secret: SampleFFE,
    t: int,
    shares: Seq<(SampleFFE, SampleFFE)>,
    field: SampleFF,
) -> bool {
    &&& c.len() == t
    &&& c[0] == secret.v()
    &&& (forall|k: int| 0 <= k < t ==> 0 <= #[trigger] c[k] < field.m())
    &&& (t >= 2 ==> c[t - 1] != 0)
    &&& forall|i: int|
        0 <= i < shares.len() ==> (#[trigger] shares[i]).1.v() == peval(c, shares[i].0.v())
            % field.m()
}

/// The sharing polynomial behind shares generated for a given degree: the
/// same as [`sharing_poly`] with threshold one more than the degree.
pub open spec fn generated_poly(
    c: Seq<int>,
    secret: SampleFFE,
    degree: int,
    shares: Seq<(SampleFFE, SampleFFE)>,
    field: SampleFF,
) -> bool {
    sharing_poly(c, secret, degree + 1, shares, field)
}

/// Every share is a pair of well-formed elements of the field.
pub open spec fn shares_wf(shares: Seq<(SampleFFE, SampleFFE)>, field: SampleFF) -> bool {
    forall|i: int|
        0 <= i < shares.len() ==> (#[trigger] shares[i]).0.wf() && shares[i].0.field == field
            && shares[i].1.wf() && shares[i].1.field == field
}

/// Share x-coordinates are pairwise distinct.
pub open spec fn shares_distinct_x(shares: Seq<(SampleFFE, SampleFFE)>) -> bool {
    forall|i: int, j: int|
        0 <= i < shares.len() && 0 <= j < shares.len() && i != j ==> (#[trigger] shares[i]).0.value
            != (#[trigger] shares[j]).0.value
}

/// A contiguous subset of shares keeps every hypothesis of the round-trip
/// law: the shares stay well formed, their x-coordinates stay pairwise
/// distinct, and they remain samples of the same sharing polynomial.
pub proof fn lemma_shares_subrange(
    c: Seq<int>,
    secret: SampleFFE,
    t: int,
    shares: Seq<(SampleFFE, SampleFFE)>,
    field: SampleFF,
    a: int,
    b: int,
)
    requires
        0 <= a <= b <= shares.len(),
        shares_wf(shares, field),
        shares_distinct_x(shares),
        sharing_poly(c, secret, t, shares, field),
    ensures
        shares_wf(shares.subrange(a, b), field),
        shares_distinct_x(shares.subrange(a, b)),
        sharing_poly(c, secret, t, shares.subrange(a, b), field),
{
    let sub = shares.subrange(a, b);
    assert(forall|i: int| 0 <= i < sub.len() ==> #[trigger] sub[i] == shares[a + i]);
    assert forall|i: int, j: int|
        0 <= i < sub.len() && 0 <= j < sub.len() && i != j implies (#[trigger] sub[i]).0.value != (
    #[trigger] sub[j]).0.value by {
        assert(shares[a + i].0.value != shares[a + j].0.value);
    }
    assert forall|i: int| 0 <= i < sub.len() implies (#[trigger] sub[i]).1.v() == peval(
        c,
        sub[i].0.v(),
    ) % field.m() by {
        assert(shares[a + i].1.v() == peval(c, shares[a + i].0.v()) % field.m());
    }
}

/// Law (Shamir round trip): in a field with a prime modulus — stated as
/// every value in `[1, modulus)` being coprime with the modulus — any at
/// least `t` many shares sampled from a sharing polynomial with `t`
/// coefficients reconstruct the secret. The hypotheses on `c` are what
/// [`SSS::split`] ensures of its sharing polynomial, restricted to any
/// subset of its shares; those on `q` are what [`SSS::reconstruct`] ensures
/// of its interpolated polynomial on that subset; and the conclusion says
/// the reconstructed value — `q` at zero — is the secret.
pub proof fn lemma_shamir_round_trip(
    c: Seq<int>,
    q: Seq<int>,
    secret: SampleFFE,
    shares: Seq<(SampleFFE, SampleFFE)>,
    field: SampleFF,
)
    requires
        field.wf(),
        coprime_below(field.m()),
        secret.wf(),
        secret.field == field,
        shares_wf(shares, field),
        shares_distinct_x(shares),
        1 <= c.len() <= shares.len(),
        c[0] == secret.v(),
        forall|i: int|
            0 <= i < shares.len() ==> (#[trigger] shares[i]).1.v() == peval(c, shares[i].0.v())
                % field.m(),
        q.len() <= shares.len(),
        forall|i: int|
            0 <= i < shares.len() ==> #[trigger] peval(q, shares[i].0.v()) % field.m()
                == shares[i].1.v(),
    ensures
        peval(q, 0) % field.m() == secret.v(),
{
    let m = field.m();
    let n = shares.len();
    let pts = Seq::new(n, |i: int| shares[i].0.v());
    assert forall|i: int| 0 <= i < n implies #[trigger] peval(c, pts[i]) % m == peval(
        q,
        pts[i],
    ) % m by {
        assert(pts[i] == shares[i].0.v());
        assert(peval(c, shares[i].0.v()) % m == shares[i].1.v());
        assert(peval(q, shares[i].0.v()) % m == shares[i].1.v());
    }
    assert forall|i: int, j: int|
        0 <= i < n && 0 <= j < n && i != j implies #[trigger] pts[i] != #[trigger] pts[j] by {
        assert(shares[i].0.value != shares[j].0.value);
    }
    crate::roots::lemma_interpolation_unique(c, q, pts, m, 0);
    lemma_peval_at_zero(c);
    lemma_small_mod(secret.value as nat, field.modulus as nat);
}

/// Threshold secret sharing. The scheme is stateless: `split` and `recover`
/// are independent operations.
pub struct SSS {}

impl SSS {
    /// Splits `secret` into `num_shares` shares: builds a polynomial of
    /// degree exactly `threshold - 1` with constant term `secret` and the
    /// remaining coefficients drawn from `rng` uniformly over the field
    /// (the leading one over the nonzero values, so the degree never
    /// degenerates), then evaluates it at `num_shares` distinct nonzero
    /// x-coordinates drawn from `rng`, rejecting duplicates.
    pub fn split(
        field: SampleFF,
        secret: SampleFFE,
        threshold: usize,
        num_shares: usize,
        rng: &mut rand::rngs::StdRng,
    ) -> (r: (SampleFFE, Vec<(SampleFFE, SampleFFE)>))
        requires
            field.wf(),
            secret.wf(),
            secret.field == field,
            threshold >= 1,
            num_shares + 1 <= field.modulus,
        ensures
            r.0 == secret,
            r.1@.len() == num_shares,
            shares_wf(r.1@, field),
            shares_distinct_x(r.1@),
            forall|i: int| 0 <= i < r.1@.len() ==> (#[trigger] r.1@[i]).0.value != 0,
            exists|c: Seq<int>| sharing_poly(c, secret, threshold as int, r.1@, field),
    {
        let m = field.modulus;
        let mut coefficients: Vec<SampleFFE> = Vec::new();
        coefficients.push(secret);
        if threshold >= 2 {
            let mut k: usize = 1;
            while k < threshold - 1
                invariant
                    field.wf(),
                    m == field.modulus,
                    2 <= threshold,
                    1 <= k <= threshold - 1,
                    coefficients@.len() == k,
                    coefficients@[0] == secret,
                    forall|t: int|
                        0 <= t < k ==> (#[trigger] coefficients@[t]).wf()
                            && coefficients@[t].field == field,
                decreases threshold - 1 - k,
            {
                let v = rng_below(rng, m);
                coefficients.push(SampleFFE { field, value: v });
                k = k + 1;
            }
            let lead = rng_below(rng, m - 1);
            coefficients.push(SampleFFE { field, value: lead + 1 });
        }
        let p = UniPoly { coefficients, field };
        proof {
            assert(p.wf());
            assert(p.vals().len() == threshold);
            assert(p.vals()[0] == secret.v());
            assert(threshold >= 2 ==> p.vals()[threshold - 1] != 0);
            assert(forall|k: int| 0 <= k < threshold ==> 0 <= #[trigger] p.vals()[k] < field.m());
        }
        let mut shares: Vec<(SampleFFE, SampleFFE)> = Vec::new();
        let mut xs_vals: Vec<u64> = Vec::new();
        while shares.len() < num_shares
            invariant
                field.wf(),
                secret.wf(),
                secret.field == field,
                m == field.modulus,
                num_shares + 1 <= m,
                p.wf(),
                p.field == field,
                sharing_poly(p.vals(), secret, threshold as int, shares@, field),
                shares@.len() == xs_vals@.len(),
                shares@.len() <= num_shares,
                xs_vals@.no_duplicates(),
                forall|i: int|
                    0 <= i < xs_vals@.len() ==> #[trigger] xs_vals@[i] == shares@[i].0.value,
                forall|i: int| 0 <= i < xs_vals@.len() ==> 1 <= #[trigger] xs_vals@[i] < m,
                shares_wf(shares@, field),
            decreases num_shares - shares@.len(),
        {
            let mut cand: u64 = 0;
            let mut found = false;
            let mut attempts: u32 = 64;
            loop
                invariant
                    m >= 2,
                    found ==> 1 <= cand < m && !xs_vals@.contains(cand),
                decreases attempts,
            {
                if attempts == 0 {
                    break ;
                }
                attempts = attempts - 1;
                let c = rng_below(rng, m);
                if c != 0 && !contains_val(&xs_vals, c) {
                    cand = c;
                    found = true;
                    break ;
                }
            }
            if !found {
                // the random source kept colliding; fall back to the
                // smallest free nonzero value
                cand = scan_free(&xs_vals, m);
            }
            let x = SampleFFE { field, value: cand };
            let y = match p.evaluate(x) {
                Ok(e) => e,
                Err(_) => unreached(),
            };
            xs_vals.push(cand);
            shares.push((x, y));
            proof {
                assert(xs_vals@.no_duplicates()) by {
                    assert forall|i: int, j: int|
                        0 <= i < xs_vals@.len() && 0 <= j < xs_vals@.len() && i != j implies
                        xs_vals@[i] != xs_vals@[j] by {
                        if i < xs_vals@.len() - 1 && j < xs_vals@.len() - 1 {
                        }
                    }
                }
            }
        }
        proof {
            assert(sharing_poly(p.vals(), secret, threshold as int, shares@, field));
            assert forall|i: int| 0 <= i < shares@.len() implies (#[trigger] shares@[i]).0.value
                != 0 by {
                assert(xs_vals@[i] == shares@[i].0.value);
                assert(1 <= xs_vals@[i]);
            }
            assert(shares_distinct_x(shares@)) by {
                assert forall|i: int, j: int|
                    0 <= i < shares@.len() && 0 <= j < shares@.len() && i != j implies (
                #[trigger] shares@[i]).0.value != (#[trigger] shares@[j]).0.value by {
                    assert(xs_vals@[i] != xs_vals@[j]);
                }
            }
        }
        (secret, shares)
    }

    /// Draws a random secret from the field and splits it into
    /// `num_of_points` shares of a polynomial of degree exactly `degree`,
    /// so that `degree + 1` shares determine the secret.
    pub fn generate(
        field: SampleFF,
        degree: usize,
        num_of_points: usize,
        rng: &mut rand::rngs::StdRng,
    ) -> (r: (SampleFFE, Vec<(SampleFFE, SampleFFE)>))
        requires
            field.wf(),
            degree + 1 <= usize::MAX,
            num_of_points + 1 <= field.modulus,
        ensures
            r.0.wf(),
            r.0.field == field,
            r.1@.len() == num_of_points,
            shares_wf(r.1@, field),
            shares_distinct_x(r.1@),
            forall|i: int| 0 <= i < r.1@.len() ==> (#[trigger] r.1@[i]).0.value != 0,
            exists|c: Seq<int>| generated_poly(c, r.0, degree as int, r.1@, field),
    {
        let sv = rng_below(rng, field.modulus);
        let secret = SampleFFE { field, value: sv };
        let r = Self::split(field, secret, degree + 1, num_of_points, rng);
        proof {
            let t: int = degree + 1;
            let c = choose|c: Seq<int>| sharing_poly(c, secret, t, r.1@, field);
            assert(generated_poly(c, r.0, degree as int, r.1@, field));
        }
        r
    }

    /// Interpolates a polynomial through the given shares and returns its
    /// value at zero: the candidate secret. No check that enough shares
    /// were supplied is, or can be, made here; with fewer than threshold
    /// many shares the result is in general a different value, without any
    /// error signal.
    pub fn reconstruct(field: SampleFF, points: &Vec<(SampleFFE, SampleFFE)>) -> (r: Result<
        SampleFFE,
        FieldError,
    >)
        requires
            field.wf(),
            shares_wf(points@, field),
            points@.len() + 2 <= usize::MAX,
        ensures
            match r {
                Ok(v) => {
                    &&& shares_distinct_x(points@)
                    &&& v.wf()
                    &&& v.field == field
                    &&& exists|c: Seq<int>|
                        {
                            &&& c.len() <= (if points@.len() == 0 {
                                1int
                            } else {
                                points@.len() as int
                            })
                            &&& (forall|i: int|
                                0 <= i < points@.len() ==> #[trigger] peval(
                                    c,
                                    points@[i].0.v(),
                                ) % field.m() == points@[i].1.v())
                            &&& v.v() == peval(c, 0) % field.m()
                        }
                },
                Err(e) => {
                    &&& (e == FieldError::DuplicatePoint <==> !shares_distinct_x(points@))
                    &&& (e == FieldError::NoInverse ==> shares_distinct_x(points@))
                    &&& e != FieldError::DifferentField
                    &&& e != FieldError::InvalidModulus
                },
            },
            r is Ok <==> (shares_distinct_x(points@) && pairs_invertible(
                points@.map_values(|s: (SampleFFE, SampleFFE)| s.0),
                field,
            )),
    {
        let n = points.len();
        let mut x_values: Vec<SampleFFE> = Vec::new();
        let mut y_values: Vec<SampleFFE> = Vec::new();
        let mut i: usize = 0;
        while i < n
            invariant
                n == points@.len(),
                shares_wf(points@, field),
                i <= n,
                x_values@.len() == i,
                y_values@.len() == i,
                forall|t: int| 0 <= t < i ==> #[trigger] x_values@[t] == points@[t].0,
                forall|t: int| 0 <= t < i ==> #[trigger] y_values@[t] == points@[t].1,
            decreases n - i,
        {
            x_values.push(points[i].0);
            y_values.push(points[i].1);
            i = i + 1;
        }
        proof {
            assert(x_values@ =~= points@.map_values(|s: (SampleFFE, SampleFFE)| s.0));
            assert(wf_elems(x_values@) && same_field_elems(x_values@, field));
            assert(wf_elems(y_values@) && same_field_elems(y_values@, field));
            assert(distinct_vals(x_values@) == shares_distinct_x(points@)) by {
                if distinct_vals(x_values@) {
                    assert forall|a: int, b: int|
                        0 <= a < n && 0 <= b < n && a != b implies (#[trigger] points@[a]).0.value
                        != (#[trigger] points@[b]).0.value by {
                        assert(x_values@[a].value != x_values@[b].value);
                    }
                }
                if shares_distinct_x(points@) {
                    assert forall|a: int, b: int|
                        0 <= a < n && 0 <= b < n && a != b implies (
                    #[trigger] x_values@[a]).value != (#[trigger] x_values@[b]).value by {
                        assert(points@[a].0.value != points@[b].0.value);
                    }
                }
            }
        }
        let poly = match UniPoly::interpolate_xy(field, &x_values, &y_values) {
            Ok(p) => p,
            Err(e) => {
                return Err(e);
            },
        };
        let zero = field.zero();
        let v = match poly.evaluate(zero) {
            Ok(e) => e,
            Err(_) => unreached(),
        };
        proof {
            let c = poly.vals();
            assert(v.v() == peval(c, 0) % field.m());
            assert forall|t: int| 0 <= t < points@.len() implies #[trigger] peval(
                c,
                points@[t].0.v(),
            ) % field.m() == points@[t].1.v() by {
                assert(x_values@[t] == points@[t].0);
                assert(y_values@[t] == points@[t].1);
                assert(peval(c, x_values@[t].v()) % field.m() == y_values@[t].v());
            }
            assert(c.len() <= (if points@.len() == 0 {
                1int
            } else {
                points@.len() as int
            }));
        }
        Ok(v)
    }

    /// Reconstructs a candidate secret from the shares and compares it with
    /// the given secret. With at least threshold many consistent shares the
    /// comparison holds; with fewer, or with inconsistent shares, it in
    /// general does not.
    pub fn recover(secret: SampleFFE, points: &Vec<(SampleFFE, SampleFFE)>) -> (r: bool)
        requires
            secret.wf(),
            shares_wf(points@, secret.field),
            points@.len() + 2 <= usize::MAX,
        ensures
            !(shares_distinct_x(points@) && pairs_invertible(
                points@.map_values(|s: (SampleFFE, SampleFFE)| s.0),
                secret.field,
            )) ==> r == false,
            (shares_distinct_x(points@) && pairs_invertible(
                points@.map_values(|s: (SampleFFE, SampleFFE)| s.0),
                secret.field,
            )) ==> exists|c: Seq<int>|
                {
                    &&& c.len() <= (if points@.len() == 0 {
                        1int
                    } else {
                        points@.len() as int
                    })
                    &&& (forall|i: int|
                        0 <= i < points@.len() ==> #[trigger] peval(c, points@[i].0.v())
                            % secret.m() == points@[i].1.v())
                    &&& r == (peval(c, 0) % secret.m() == secret.v())
                },
    {
        match Self::reconstruct(secret.field, points) {
            Ok(v) => v.value == secret.value,
            Err(_) => false,
        }
    }
}

} // verus!
