use shamir::{multiplicative_inverse, FieldError, SampleFF};

fn field() -> SampleFF {
    SampleFF::init(Some(5), 3221225473).unwrap()
}

#[test]
fn mi() {
    let mi_1 = multiplicative_inverse(3, 5);
    assert_eq!(mi_1, Ok(2));
    let mi_2 = multiplicative_inverse(11, 26);
    assert_eq!(mi_2, Ok(19));
    let mi_2 = multiplicative_inverse(10, 5);
    assert!(mi_2.is_err());
}

#[test]
fn assignment() {
    let f = field();
    let ffe_1 = f.element(-56).unwrap();
    let ffe_2 = f.element(9704).unwrap();
    let ffe_3 = f.element(3221225477).unwrap();
    assert_eq!(ffe_1, f.element(3221225417).unwrap());
    assert_eq!(ffe_1.value, 3221225417);
    assert_eq!(ffe_2.value, 9704);
    assert_eq!(ffe_3.value, 4);
}

#[test]
fn add() {
    let f = field();
    let ffe_1 = f.element(56).unwrap();
    let ffe_2 = f.element(8902).unwrap();
    let new_ff = ffe_1.add(ffe_2).unwrap();
    assert_eq!(new_ff, f.element(8958).unwrap());
}

#[test]
fn add_assign() {
    let f = field();
    let mut ffe_1 = f.element(56).unwrap();
    let ffe_2 = f.element(8902).unwrap();
    ffe_1.add_assign(ffe_2).unwrap();
    assert_eq!(ffe_1, f.element(8958).unwrap());
}

#[test]
fn mul() {
    let f = field();
    let ffe_1 = f.element(1912323).unwrap();
    let ffe_2 = f.element(111091).unwrap();
    let new_ff = ffe_1.mul(ffe_2).unwrap();
    assert_eq!(new_ff, f.element(3062218648).unwrap());
}

#[test]
fn mul_assign() {
    let f = field();
    let mut ffe_1 = f.element(1912323).unwrap();
    let ffe_2 = f.element(111091).unwrap();
    ffe_1.mul_assign(ffe_2).unwrap();
    assert_eq!(ffe_1, f.element(3062218648).unwrap());
}

#[test]
fn sub() {
    let f = field();
    let ffe_1 = f.element(892).unwrap();
    let ffe_2 = f.element(7).unwrap();
    let new_ff = ffe_1.sub(ffe_2).unwrap();
    assert_eq!(new_ff, f.element(885).unwrap());

    let ffe_3 = f.element(2).unwrap();
    let ffe_4 = f.element(11).unwrap();
    let new_ff = ffe_3.sub(ffe_4).unwrap();
    assert_eq!(new_ff, f.element(3221225464).unwrap());
}

#[test]
fn sub_assign() {
    let f = field();
    let mut ffe_1 = f.element(2).unwrap();
    let ffe_2 = f.element(11).unwrap();
    ffe_1.sub_assign(ffe_2).unwrap();
    assert_eq!(ffe_1, f.element(3221225464).unwrap());
}

#[test]
fn div() {
    let f = field();
    let ffe_1 = f.element(892).unwrap();
    let ffe_2 = f.element(7).unwrap();
    let new_ff = ffe_1.div(ffe_2).unwrap();
    assert_eq!(new_ff, f.element(460175195).unwrap());

    let ffe_3 = f.element(2).unwrap();
    let ffe_4 = f.element(11).unwrap();
    let new_ff = ffe_3.div(ffe_4).unwrap();
    assert_eq!(new_ff, f.element(1464193397).unwrap());
}

#[test]
fn div_assign() {
    let f = field();
    let mut ffe_1 = f.element(892).unwrap();
    let ffe_2 = f.element(7).unwrap();
    ffe_1.div_assign(ffe_2).unwrap();
    assert_eq!(ffe_1, f.element(460175195).unwrap());

    let mut ffe_3 = f.element(2).unwrap();
    let ffe_4 = f.element(11).unwrap();
    ffe_3.div_assign(ffe_4).unwrap();
    assert_eq!(ffe_3, f.element(1464193397).unwrap());
}

#[test]
fn pow() {
    let f = field();
    let ffe_1 = f.element(76).unwrap();
    let new_ff = ffe_1.pow(2);
    assert_eq!(new_ff, f.element(5776).unwrap());

    let ffe_2 = f.element(700).unwrap();
    let new_ff = ffe_2.pow(90);
    assert_eq!(new_ff, f.element(1516783203).unwrap());
}

#[test]
fn is_order() {
    let f = SampleFF::init(None, 71).unwrap();
    let ffe_1 = f.element(13).unwrap();
    let order: u64 = 70;
    assert!(ffe_1.is_order(order));
}

#[test]
fn is_order_rejects_earlier_powers() {
    let f = SampleFF::init(None, 71).unwrap();
    let one = f.one();
    assert!(one.is_order(1));
    assert!(!one.is_order(2));
    // 13 has order 70 in the field of 71 elements, so no divisor works
    let ffe = f.element(13).unwrap();
    assert!(!ffe.is_order(35));
    assert!(!ffe.is_order(14));
}

#[test]
fn invalid_modulus() {
    assert_eq!(SampleFF::init(None, 1), Err(FieldError::InvalidModulus));
    assert_eq!(SampleFF::init(Some(3), 0), Err(FieldError::InvalidModulus));
    let degenerate = SampleFF { modulus: 1, generator: None };
    assert_eq!(degenerate.element(4), Err(FieldError::InvalidModulus));
}

#[test]
fn no_inverse_in_composite_modulus() {
    let f = SampleFF::init(None, 10).unwrap();
    let e = f.element(4).unwrap();
    assert_eq!(e.inverse(), Err(FieldError::NoInverse));
    let d = f.element(7).unwrap();
    assert_eq!(d.div(e), Err(FieldError::NoInverse));
    // 3 is coprime with 10, so its inverse exists
    let c = f.element(3).unwrap();
    assert_eq!(c.inverse().unwrap(), f.element(7).unwrap());
}

#[test]
fn generator_element_value() {
    let f = SampleFF::init(Some(5), 3221225473).unwrap();
    let g = f.generator_element().unwrap();
    assert_eq!(g.value, 5);
    let h = SampleFF::init(None, 17).unwrap();
    assert!(h.generator_element().is_none());
}
