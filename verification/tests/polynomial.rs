use arithmetics::field::Element;
use arithmetics::secret_sharing::Polynomial;
use rand::{Rng, SeedableRng};
use rand_chacha::ChaCha20Rng;

fn elements(xs: &[i32]) -> Vec<Element> {
    xs.iter().map(|x| Element::from_i32(*x)).collect()
}

// Values are drawn as i16 and widened to i32, so that products stay in range.
fn generate_random_distinct_values(n: usize) -> (Vec<i32>, Vec<Element>) {
    let mut rng = rand::rng();
    let mut values: Vec<i32> = Vec::new();
    for _ in 0..n {
        let mut value = rng.random::<i16>();
        while values.contains(&(value as i32)) {
            value = rng.random::<i16>();
        }
        values.push(value as i32);
    }
    let big_values = elements(&values);
    (values, big_values)
}

#[test]
fn test_evaluate_with_horner_method() {
    let polynomial = Polynomial(elements(&[40, 9, 5, 15]));
    let x = Element::from_i32(-100);
    let result = polynomial.evaluate_with_horner_method(&x, 0);
    assert_eq!(result, Element::from_i32(-14950860));
}

#[test]
fn test_derive_order_zero() {
    let (_, big_values) = generate_random_distinct_values(5);
    let polynomial = Polynomial(big_values);
    let derived = polynomial.derive(0);
    assert_eq!(derived.0, polynomial.0);
}

#[test]
fn test_derive_order_one() {
    let (values, big_values) = generate_random_distinct_values(5);
    let polynomial = Polynomial(big_values);
    let derived = polynomial.derive(1);
    assert_eq!(
        derived.0,
        elements(&[values[1], values[2] * 2, values[3] * 3, values[4] * 4])
    );
}

#[test]
fn test_derive_order_two() {
    let (values, big_values) = generate_random_distinct_values(5);
    let polynomial = Polynomial(big_values);
    let derived = polynomial.derive(2);
    assert_eq!(derived.0, elements(&[values[2] * 2, values[3] * 6, values[4] * 12]));
}

#[test]
fn test_evaluate_with_horner_method_derivative() {
    let polynomial = Polynomial(elements(&[3, 2, 1]));
    let x = Element::from_i32(2);
    let result = polynomial.evaluate_with_horner_method(&x, 1);
    assert_eq!(result, Element::from_i32(6));
}

#[test]
fn test_evaluate_with_horner_method_homomorphic() {
    let (_, big_values_a) = generate_random_distinct_values(5);
    let (_, big_values_b) = generate_random_distinct_values(5);
    let mut rng = rand::rng();
    let x = Element::from_i32(rng.random::<i32>());
    let derivative_order = rng.random_range(0..=3);
    let polynomial_c = Polynomial(
        big_values_a
            .iter()
            .zip(big_values_b.iter())
            .map(|(a, b)| a.add(b))
            .collect(),
    );
    let polynomial_a = Polynomial(big_values_a);
    let polynomial_b = Polynomial(big_values_b);
    let result_a = polynomial_a.evaluate_with_horner_method(&x, derivative_order);
    let result_b = polynomial_b.evaluate_with_horner_method(&x, derivative_order);
    let result_c = polynomial_c.evaluate_with_horner_method(&x, derivative_order);
    assert_eq!(result_a.add(&result_b), result_c);
}

#[test]
fn derive_beyond_degree_is_empty() {
    let polynomial = Polynomial(elements(&[1, 2, 3]));
    assert!(polynomial.derive(3).0.is_empty());
    assert!(polynomial.derive(7).0.is_empty());
}

#[test]
fn derive_order_three_exact() {
    // 7 + x + 2x^2 + 3x^3 + 4x^4: third derivative 18 + 96x.
    let polynomial = Polynomial(elements(&[7, 1, 2, 3, 4]));
    assert_eq!(polynomial.derive(3).0, elements(&[18, 96]));
    let value = polynomial.evaluate_with_horner_method(&Element::from_i32(2), 3);
    assert_eq!(value, Element::from_i32(210));
}

#[test]
fn new_shamir_keeps_secret_first() {
    let mut rng = ChaCha20Rng::from_os_rng();
    let secret = Element::from_i32(1234).to_share();
    let polynomial = Polynomial::new_shamir(&secret, 3, &mut rng);
    assert_eq!(polynomial.0.len(), 4);
    assert_eq!(polynomial.0[0], Element::from_i32(1234));
    let shares = polynomial.shamir_shares(5);
    assert_eq!(shares.len(), 5);
    let at_two = polynomial.evaluate_with_horner_method(&Element::from_i32(2), 0);
    assert_eq!(Element::from_share(&shares[1]), at_two);
}

#[test]
fn derivatives_compose() {
    let polynomial = Polynomial(elements(&[7, 1, 2, 3, 4, -5]));
    assert_eq!(polynomial.derive(1).derive(2).0, polynomial.derive(3).0);
    assert_eq!(polynomial.derive(2).derive(2).0, polynomial.derive(4).0);
}
