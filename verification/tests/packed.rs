use arithmetics::errors::ShamirError;
use arithmetics::field::Element;
use arithmetics::packed::{lagrange_interpolation_at_point, share_lagrange, LagrangeConstants};
use arithmetics::secret_sharing::shamir::Parameters;
use arithmetics::secret_sharing::Polynomial;

fn elements(xs: &[i32]) -> Vec<Element> {
    xs.iter().map(|x| Element::from_i32(*x)).collect()
}

#[test]
fn shamir_packed_ok() {
    let secrets = [b"tests".to_vec(), b"with".to_vec(), b"more".to_vec(), b"data".to_vec()].to_vec();
    let secrets_bi = secrets
        .clone()
        .into_iter()
        .map(Element::from_bytes)
        .collect::<Vec<Element>>();
    let secrets_len = secrets.len();
    let k = 4;
    let n = 13;
    let mut parameters = Parameters::new(k, n).unwrap();
    let ys = share_lagrange(secrets_bi, &mut parameters).unwrap();
    let xs = (1..=k + secrets_len).map(Element::from_usize).collect::<Vec<Element>>();
    // Secret points
    let secret_points = (0..secrets_len)
        .map(Element::from_usize)
        .map(|p| Element::zero().sub(&p))
        .collect::<Vec<Element>>();
    let res = secret_points
        .iter()
        .map(|p| {
            let xs_copy: Vec<Element> = xs.iter().map(|x| x.duplicate()).collect();
            let ys_copy: Vec<Element> = ys.iter().map(|y| y.duplicate()).collect();
            lagrange_interpolation_at_point(p.duplicate(), xs_copy, ys_copy).unwrap()
        })
        .map(|s| s.to_bytes())
        .collect::<Vec<Vec<u8>>>();
    assert_eq!(secrets, res);
}

#[test]
fn interpolation_is_exact_on_polynomials() {
    // P(x) = 3 + 2x + x^2 through the points 1, 2, 4 gives P(5) = 38 and P(0) = 3.
    let polynomial = Polynomial(elements(&[3, 2, 1]));
    let xs = elements(&[1, 2, 4]);
    let ys: Vec<Element> = xs.iter().map(|x| polynomial.evaluate_with_horner_method(x, 0)).collect();
    let copy = |v: &Vec<Element>| v.iter().map(|e| e.duplicate()).collect::<Vec<Element>>();
    let at_five = lagrange_interpolation_at_point(Element::from_i32(5), copy(&xs), copy(&ys)).unwrap();
    assert_eq!(at_five, Element::from_i32(38));
    let at_zero = lagrange_interpolation_at_point(Element::zero(), copy(&xs), copy(&ys)).unwrap();
    assert_eq!(at_zero, Element::from_i32(3));
    // At one of the points, the interpolation gives the value there.
    let at_two = lagrange_interpolation_at_point(Element::from_i32(2), xs, ys).unwrap();
    assert_eq!(at_two, Element::from_i32(11));
}

#[test]
fn lagrange_constants_sum_to_one() {
    let constants = LagrangeConstants::compute(Element::from_i32(9), elements(&[-3, 1, 4, 10])).unwrap();
    let sum = constants.interpolate(elements(&[1, 1, 1, 1])).unwrap();
    assert_eq!(sum, Element::one());
}

#[test]
fn interpolate_wrong_length() {
    let constants = LagrangeConstants::compute(Element::zero(), elements(&[1, 2])).unwrap();
    match constants.interpolate(elements(&[5])) {
        Err(e) => assert_eq!(e, ShamirError::TooFewCoefs),
        Ok(_) => panic!("one value for two constants is refused"),
    }
    match lagrange_interpolation_at_point(Element::zero(), elements(&[1, 2]), elements(&[5, 6, 7])) {
        Err(e) => assert_eq!(e, ShamirError::TooFewCoefs),
        Ok(_) => panic!("three values for two points are refused"),
    }
}

#[test]
fn packed_shares_recover_every_secret() {
    let secrets = elements(&[11, -5, 42]);
    let mut parameters = Parameters::new(2, 5).unwrap();
    let ys = share_lagrange(secrets.iter().map(|e| e.duplicate()).collect(), &mut parameters).unwrap();
    assert_eq!(ys.len(), 5);
    let xs: Vec<Element> = (1..=5).map(Element::from_usize).collect();
    for (s, secret) in secrets.iter().enumerate() {
        let point = Element::from_usize(s).neg();
        let xs_copy: Vec<Element> = xs.iter().map(|x| x.duplicate()).collect();
        let ys_copy: Vec<Element> = ys.iter().map(|y| y.duplicate()).collect();
        let recovered = lagrange_interpolation_at_point(point, xs_copy, ys_copy).unwrap();
        assert_eq!(&recovered, secret);
    }
}

#[test]
fn interpolation_is_additive() {
    let constants = LagrangeConstants::compute(Element::from_i32(6), elements(&[1, 3, 4])).unwrap();
    let a = elements(&[5, -2, 9]);
    let b = elements(&[1, 8, -4]);
    let sum: Vec<Element> = a.iter().zip(b.iter()).map(|(x, y)| x.add(y)).collect();
    let ia = constants.interpolate(a).unwrap();
    let ib = constants.interpolate(b).unwrap();
    assert_eq!(constants.interpolate(sum).unwrap(), ia.add(&ib));
}

#[test]
fn factors_are_constants_at_zero() {
    let xs = vec![2, -7, 5, 11];
    let factors = arithmetics::secret_sharing::shamir::get_lagrange_factors(&xs).unwrap();
    let points = xs.iter().map(|x| Element::from_i32(*x)).collect();
    let constants = LagrangeConstants::compute(Element::zero(), points).unwrap();
    let ones = vec![Element::one(), Element::one(), Element::one(), Element::one()];
    // The constants sum to one, and so do the factors, term by term equal.
    assert_eq!(constants.interpolate(ones).unwrap(), Element::one());
    for (i, f) in factors.iter().enumerate() {
        let mut unit = vec![Element::zero(), Element::zero(), Element::zero(), Element::zero()];
        unit[i] = Element::one();
        assert_eq!(&constants.interpolate(unit).unwrap(), f);
    }
}
