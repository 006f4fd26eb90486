use shamir::{SampleFF, SampleFFE, UniPoly};

fn field() -> SampleFF {
    SampleFF::init(Some(5), 3221225473).unwrap()
}

fn elems(f: SampleFF, values: &[i64]) -> Vec<SampleFFE> {
    let mut v = Vec::new();
    for &x in values {
        v.push(f.element(x).unwrap());
    }
    v
}

#[test]
fn lib_mul() {
    let f = field();
    let x = UniPoly::x(f);
    let co_effs = vec![f.one(), f.one()];
    let x_plus_1 = UniPoly::new(co_effs, f);
    let actual = x.mul(&x_plus_1).unwrap();
    let expected = UniPoly::new(elems(f, &[0, 1, 1]), f);
    assert_eq!(actual, expected);

    // (x^3 - 3x + 2) * (2x + 5)
    let poly_1 = UniPoly::new(elems(f, &[2, -3, 0, 1]), f);
    let poly_2 = UniPoly::new(elems(f, &[5, 2]), f);
    let actual = poly_1.mul(&poly_2).unwrap();
    let expected = UniPoly::new(elems(f, &[10, -11, -6, 5, 2]), f);
    assert_eq!(actual, expected);
}

#[test]
fn lib_add() {
    let f = field();
    // (x^2 + x + 5) + (2x^2 + 4x + 2)
    let poly_1 = UniPoly::new(elems(f, &[5, 1, 1]), f);
    let poly_2 = UniPoly::new(elems(f, &[2, 4, 2]), f);
    let actual = poly_1.add(&poly_2).unwrap();
    let expected = UniPoly::new(elems(f, &[7, 5, 3]), f);
    assert_eq!(actual, expected);

    // (2x + 5) + (x^3 - 3x + 2)
    let poly_3 = UniPoly::new(elems(f, &[5, 2]), f);
    let poly_4 = UniPoly::new(elems(f, &[2, -3, 0, 1]), f);
    let actual = poly_3.add(&poly_4).unwrap();
    let expected = UniPoly::new(elems(f, &[7, -1, 0, 1]), f);
    assert_eq!(actual, expected);
}

#[test]
fn interpolate() {
    let f = field();
    // Interpolating the values: [3, 1, 2, 4]
    let co_effs = elems(f, &[3, 1, 2, 4]);
    let polynomial = UniPoly::interpolate(f, &co_effs).unwrap();
    println!("{:?}", polynomial);
    // the interpolated polynomial passes through the given values
    for (i, y) in co_effs.iter().enumerate() {
        let x = f.element(i as i64).unwrap();
        assert_eq!(polynomial.evaluate(x).unwrap(), *y);
    }
}

#[test]
fn degree_and_zero() {
    let f = field();
    assert!(UniPoly::zero(f).is_zero());
    assert!(UniPoly::new(Vec::new(), f).is_zero());
    assert!(!UniPoly::one(f).is_zero());
    assert_eq!(UniPoly::zero(f).degree(), 0);
    assert_eq!(UniPoly::x(f).degree(), 1);
    assert_eq!(UniPoly::new(elems(f, &[2, -3, 0, 1]), f).degree(), 3);
}
