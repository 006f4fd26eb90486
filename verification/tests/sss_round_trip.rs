use rand::Rng;
use rand::SeedableRng;
use shamir::{SampleFF, SSS};

fn field() -> SampleFF {
    SampleFF::init(Some(5), 3221225473).unwrap()
}

#[test]
fn sss() {
    let f = field();
    let mut rng = rand::rngs::StdRng::seed_from_u64(7);
    let degree = 5;
    let num_of_points = 20;
    let (secret, points) = SSS::generate(f, degree, num_of_points, &mut rng);
    // True cases: any subset of at least degree + 1 = 6 shares recovers
    assert!(SSS::recover(secret, &points));
    assert!(SSS::recover(secret, &points[..15].to_vec()));
    assert!(SSS::recover(secret, &points[..10].to_vec()));
    assert!(SSS::recover(secret, &points[..6].to_vec()));
    assert!(SSS::recover(secret, &points[5..].to_vec()));
    assert!(SSS::recover(secret, &points[11..].to_vec()));
    assert!(SSS::recover(secret, &points[14..].to_vec()));
    // False cases: too few shares interpolate to a different value
    assert!(!SSS::recover(secret, &points[15..].to_vec()));
    assert!(!SSS::recover(secret, &points[16..].to_vec()));
    assert!(!SSS::recover(secret, &points[..5].to_vec()));
    assert!(!SSS::recover(secret, &points[..4].to_vec()));

    // unrelated random points do not recover the secret
    let mut points = Vec::new();
    for _ in 0..20 {
        let x = f.element(rng.gen_range(0..f.modulus) as i64).unwrap();
        let y = f.element(rng.gen_range(0..f.modulus) as i64).unwrap();
        points.push((x, y));
    }
    assert!(!SSS::recover(secret, &points));
    assert!(!SSS::recover(secret, &points[..15].to_vec()));
    assert!(!SSS::recover(secret, &points[..10].to_vec()));
    assert!(!SSS::recover(secret, &points[..6].to_vec()));
}

#[test]
fn split_keeps_secret_and_share_shape() {
    // a small prime field forces the duplicate rejection to do real work
    let f = SampleFF::init(None, 101).unwrap();
    let mut rng = rand::rngs::StdRng::seed_from_u64(11);
    let secret = f.element(42).unwrap();
    let (s, shares) = SSS::split(f, secret, 3, 50, &mut rng);
    assert_eq!(s, secret);
    assert_eq!(shares.len(), 50);
    for (i, (x, y)) in shares.iter().enumerate() {
        assert!(x.value != 0);
        assert!(x.value < 101);
        assert!(y.value < 101);
        for (x2, _) in shares[..i].iter() {
            assert!(x.value != x2.value);
        }
    }
    // any three shares recover the secret, two in general do not
    assert!(SSS::recover(secret, &shares[..3].to_vec()));
    assert!(SSS::recover(secret, &shares[40..43].to_vec()));
    assert!(SSS::recover(secret, &shares));
}

#[test]
fn reconstruct_returns_constant_term() {
    let f = field();
    let mut rng = rand::rngs::StdRng::seed_from_u64(3);
    let secret = f.element(987654321).unwrap();
    let (_, shares) = SSS::split(f, secret, 6, 20, &mut rng);
    let v = SSS::reconstruct(f, &shares[..6].to_vec()).unwrap();
    assert_eq!(v, secret);
    let w = SSS::reconstruct(f, &shares).unwrap();
    assert_eq!(w, secret);
}
