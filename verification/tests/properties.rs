use shamir::{FieldError, SampleFF, SampleFFE, UniPoly, SSS};

fn field() -> SampleFF {
    SampleFF::init(Some(5), 3221225473).unwrap()
}

fn elems(f: SampleFF, values: &[i64]) -> Vec<SampleFFE> {
    let mut v = Vec::new();
    for &x in values {
        v.push(f.element(x).unwrap());
    }
    v
}

#[test]
fn additive_and_multiplicative_identities() {
    let f = field();
    for v in [0i64, 1, -6, 892, 3221225472, 3221225482, -3221225473] {
        let e = f.element(v).unwrap();
        assert_eq!(e.add(f.zero()).unwrap(), e);
        assert_eq!(e.mul(f.one()).unwrap(), e);
    }
}

#[test]
fn inverse_multiplies_to_one() {
    let f = field();
    for v in [1i64, 2, 892, 111091, -6, 3221225472] {
        let a = f.element(v).unwrap();
        let inv = a.inverse().unwrap();
        assert_eq!(a.mul(inv).unwrap(), f.one());
    }
}

#[test]
fn cross_field_operations_fail() {
    let f = field();
    let g = SampleFF::init(None, 71).unwrap();
    let a = f.element(10).unwrap();
    let b = g.element(10).unwrap();
    assert_eq!(a.add(b), Err(FieldError::DifferentField));
    assert_eq!(a.sub(b), Err(FieldError::DifferentField));
    assert_eq!(a.mul(b), Err(FieldError::DifferentField));
    assert_eq!(a.div(b), Err(FieldError::DifferentField));
    let mut c = a;
    assert_eq!(c.add_assign(b), Err(FieldError::DifferentField));
    assert_eq!(c, a);
    // two fields with the same modulus but different generators are
    // different field instances too
    let h = SampleFF::init(Some(7), 3221225473).unwrap();
    let d = h.element(10).unwrap();
    assert_eq!(a.add(d), Err(FieldError::DifferentField));
    // polynomials reject foreign points as well
    let p = UniPoly::x(f);
    assert_eq!(p.evaluate(b), Err(FieldError::DifferentField));
    assert_eq!(
        UniPoly::interpolate_xy(f, &vec![b], &vec![b]),
        Err(FieldError::DifferentField)
    );
}

#[test]
fn signed_normalization() {
    let f = field();
    assert_eq!(f.element(-6).unwrap().value, 3221225467);
    assert_eq!(f.element(3221225482).unwrap().value, 9);
}

#[test]
fn addition_wraps_around() {
    let f = field();
    let a = f.element(3221225472).unwrap();
    let b = f.element(10).unwrap();
    assert_eq!(a.add(b).unwrap(), f.element(9).unwrap());
}

#[test]
fn x_times_x_plus_one() {
    let f = field();
    let x = UniPoly::x(f);
    let x_plus_1 = UniPoly::one(f).add(&x).unwrap();
    let product = x.mul(&x_plus_1).unwrap();
    assert_eq!(product, UniPoly::new(elems(f, &[0, 1, 1]), f));
}

#[test]
fn degrees_add_under_multiplication() {
    let f = field();
    let p = UniPoly::new(elems(f, &[2, -3, 0, 1]), f);
    let q = UniPoly::new(elems(f, &[5, 2]), f);
    let pq = p.mul(&q).unwrap();
    assert_eq!(pq.degree(), p.degree() + q.degree());
    let r = UniPoly::new(elems(f, &[7]), f);
    let pr = p.mul(&r).unwrap();
    assert_eq!(pr.degree(), p.degree());
}

#[test]
fn interpolation_round_trip() {
    let f = field();
    let xs = elems(f, &[5, 7, 9, 11, -2]);
    let ys = elems(f, &[24, 120, 336, 720, 1]);
    let p = UniPoly::interpolate_xy(f, &xs, &ys).unwrap();
    assert!(p.degree() < 5);
    for (x, y) in xs.iter().zip(ys.iter()) {
        assert_eq!(p.evaluate(*x).unwrap(), *y);
    }
}

#[test]
fn duplicate_points_are_rejected() {
    let f = field();
    let xs = elems(f, &[5, 7, 5]);
    let ys = elems(f, &[1, 2, 3]);
    assert_eq!(
        UniPoly::interpolate_xy(f, &xs, &ys),
        Err(FieldError::DuplicatePoint)
    );
}

#[test]
fn negation_is_additive_inverse() {
    let f = field();
    let a = f.element(5).unwrap();
    assert_eq!(a.neg(), f.element(-5).unwrap());
    assert_eq!(a.add(a.neg()).unwrap(), f.zero());
    assert_eq!(f.zero().neg(), f.zero());
}

#[test]
fn extreme_signed_values_normalize() {
    let f = field();
    let m: i128 = 3221225473;
    let expected_min = (i64::MIN as i128).rem_euclid(m) as u64;
    assert_eq!(f.element(i64::MIN).unwrap().value, expected_min);
    let expected_max = (i64::MAX as i128).rem_euclid(m) as u64;
    assert_eq!(f.element(i64::MAX).unwrap().value, expected_max);
    assert_eq!(f.element(-3221225473).unwrap(), f.zero());
}

#[test]
fn zero_exponent_gives_one() {
    let f = field();
    assert_eq!(f.element(700).unwrap().pow(0), f.one());
    assert_eq!(f.zero().pow(0), f.one());
    assert_eq!(f.zero().pow(5), f.zero());
}

#[test]
fn generator_is_normalized_on_init() {
    let f = SampleFF::init(Some(-1), 17).unwrap();
    assert_eq!(f.generator, Some(16));
    let g = SampleFF::init(Some(20), 17).unwrap();
    assert_eq!(g.generator, Some(3));
}

#[test]
fn evaluation_matches_hand_computation() {
    let f = field();
    // x^3 - 3x + 2 at x = 2 is 4
    let p = UniPoly::new(elems(f, &[2, -3, 0, 1]), f);
    let x = f.element(2).unwrap();
    assert_eq!(p.evaluate(x).unwrap(), f.element(4).unwrap());
    // and at x = -1 it is 4 as well
    let y = f.element(-1).unwrap();
    assert_eq!(p.evaluate(y).unwrap(), f.element(4).unwrap());
}

#[test]
fn cubic_through_its_samples_recovers_constant() {
    let f = field();
    // (x - 1)(x - 2)(x - 3) = x^3 - 6x^2 + 11x - 6
    let p = UniPoly::new(elems(f, &[-6, 11, -6, 1]), f);
    let xs = elems(f, &[5, 7, 9, 11]);
    let expected = elems(f, &[24, 120, 336, 720]);
    let mut shares = Vec::new();
    for (x, y) in xs.iter().zip(expected.iter()) {
        assert_eq!(p.evaluate(*x).unwrap(), *y);
        shares.push((*x, *y));
    }
    // interpolating any 4 of these recovers P(0) = -6
    let v = SSS::reconstruct(f, &shares).unwrap();
    assert_eq!(v, f.element(-6).unwrap());
    assert_eq!(v.value, 3221225467);
    let secret = f.element(-6).unwrap();
    assert!(SSS::recover(secret, &shares));
}
