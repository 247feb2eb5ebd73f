use arithmetics::errors::ShamirError;
use arithmetics::field::Element;
use arithmetics::secret_sharing::shamir::{
    get_lagrange_factors, lagrange, shamir, Parameters, Shamirizer,
};
use arithmetics::secret_sharing::Polynomial;
use arithmetics::{Share, SHARE_BYTE_SIZE};
use rand::seq::SliceRandom;
use rand::{Rng, SeedableRng};
use rand_chacha::ChaCha20Rng;

fn elements(xs: &[i32]) -> Vec<Element> {
    xs.iter().map(|x| Element::from_i32(*x)).collect()
}

// Values are drawn as i16 and widened to i32, so that products stay in range.
fn generate_random_distinct_values(n: usize) -> (Vec<i32>, Vec<Element>) {
    let mut rng = rand::rng();
    let mut values: Vec<i32> = Vec::new();
    for _ in 0..n {
        let mut value = rng.random::<i16>();
        while values.contains(&(value as i32)) {
            value = rng.random::<i16>();
        }
        values.push(value as i32);
    }
    let big_values = elements(&values);
    (values, big_values)
}

fn small_share(v: u8) -> Share {
    let mut s = [0u8; SHARE_BYTE_SIZE];
    s[SHARE_BYTE_SIZE - 1] = v;
    s
}

#[test]
fn test_new_shamir() {
    let mut rng = rand::rng();
    let mut chacha_rand = ChaCha20Rng::from_os_rng();
    let secret: Share = Element::gen_random(&mut chacha_rand).to_share();
    let degree = rng.random_range(1..10);
    let mut rng = ChaCha20Rng::from_os_rng();
    let polynomial = Polynomial::new_shamir(&secret, degree, &mut rng);
    assert_eq!(polynomial.0.len(), degree + 1);
    assert_eq!(polynomial.0[0], Element::from_share(&secret));
}

#[test]
fn shamir_correct_number_of_shares() {
    let mut rng = rand::rng();
    let mut chacha_rand = ChaCha20Rng::from_os_rng();
    let secret: Share = Element::gen_random(&mut chacha_rand).to_share();
    let k = rng.random_range(2..100);
    let n = rng.random_range(k..200);
    let mut parameters = Parameters::new(k, n).unwrap();
    let shares = shamir(&secret, &mut parameters);
    assert_eq!(shares.len(), n, "n shares should be produced");
}

#[test]
fn get_num_and_denoms_input_sim() {
    let mut rng = rand::rng();
    let a = rng.random::<i32>();
    match get_lagrange_factors(&[a, a]) {
        Err(ShamirError::IdenticalAbsc) => (),
        _ => panic!("Sould return InputSim error"),
    }
}

#[test]
fn get_lagrange_factors_correct_num() {
    let factors = get_lagrange_factors(&vec![1, 2, 3, 4]).unwrap();
    assert_eq!(factors, elements(&[4, -6, 4, -1]));
}

#[test]
fn get_lagrange_factors_permutation() {
    let n = rand::rng().random_range(2..10);
    let (mut values, _) = generate_random_distinct_values(n);
    let factors1 = get_lagrange_factors(&values).unwrap();
    values.shuffle(&mut rand::rng());
    let factors2 = get_lagrange_factors(&values).unwrap();
    assert!(factors1.iter().all(|x| factors2.contains(x)));
}

#[test]
fn lagrange_correct_input() {
    let xs = vec![1, 2, 3];
    let ys = vec![small_share(15), small_share(10), small_share(37)];
    let factors = get_lagrange_factors(&xs).unwrap();
    let res = lagrange(&factors, &ys).unwrap();
    assert_eq!(res, small_share(52))
}

#[test]
fn lagrange_correct_input_negative() {
    let xs = vec![1, 2, 3];
    let ys = vec![small_share(15), small_share(100), small_share(37)];
    let secret: Share = Element::from_i32(-218).to_share();
    let factors = get_lagrange_factors(&xs).unwrap();
    let res = lagrange(&factors, &ys).unwrap();
    assert_eq!(res, secret);
}

#[test]
fn lagrange_input_permutation() {
    let mut chacha_rand = ChaCha20Rng::from_os_rng();
    let a1: Share = Element::gen_random(&mut chacha_rand).to_share();
    let a2: Share = Element::gen_random(&mut chacha_rand).to_share();
    let mut xs = vec![1, 2];
    let mut ys = vec![a1, a2];
    let factors = get_lagrange_factors(&xs).unwrap();
    let res = lagrange(&factors, &ys).unwrap();
    xs.reverse();
    ys.reverse();
    let factors = get_lagrange_factors(&xs).unwrap();
    let res_reverse = lagrange(&factors, &ys).unwrap();
    assert_eq!(res, res_reverse, "Result should be insensible to input permutation");
}

#[test]
fn shamir_lagrange() {
    let mut rng = rand::rng();
    let mut chacha_rand = ChaCha20Rng::from_os_rng();
    let e = Element::gen_random(&mut chacha_rand);
    let secret: Share = e.to_share();
    let k = rng.random_range(2..100);
    let n = rng.random_range(k..200);
    let mut parameters = Parameters::new(k, n).unwrap();
    let mut ys = shamir(&secret, &mut parameters);
    let xs = (1..=k).map(|i| i as i32).collect::<Vec<i32>>();
    ys.truncate(k);
    let factors = get_lagrange_factors(&xs).unwrap();
    let res = lagrange(&factors, &ys).unwrap();
    assert_eq!(secret, res);
}

#[test]
fn parameters_errors() {
    match Parameters::new(5, 3) {
        Err(e) => assert_eq!(
            e,
            ShamirError::ThresholdGreaterThanNbOfShares { threshold: 5, number_of_shares: 3 }
        ),
        Ok(_) => panic!("a threshold above the number of shares is refused"),
    }
    match Parameters::new(1, 3) {
        Err(e) => assert_eq!(e, ShamirError::ThresholdTooSmall),
        Ok(_) => panic!("a threshold of 1 is refused"),
    }
    let mut parameters = Parameters::new(3, 5).unwrap();
    assert_eq!(parameters.threshold(), 3);
    assert_eq!(parameters.nb_of_shares(), 5);
    let _ = Element::gen_random(parameters.chacha_rand());
    assert_eq!(parameters.threshold(), 3);
}

#[test]
fn any_threshold_subset_recovers() {
    let mut chacha_rand = ChaCha20Rng::from_os_rng();
    let e = Element::gen_random(&mut chacha_rand);
    let secret = e.to_share();
    let mut parameters = Parameters::new(3, 6).unwrap();
    let shares = shamir(&secret, &mut parameters);
    // Shares at the abscissas 2, 5 and 6, in that order.
    let xs = vec![2, 5, 6];
    let ys = vec![shares[1], shares[4], shares[5]];
    let factors = get_lagrange_factors(&xs).unwrap();
    assert_eq!(lagrange(&factors, &ys).unwrap(), secret);
    // The same pairs in another order.
    let xs2 = vec![6, 2, 5];
    let ys2 = vec![shares[5], shares[1], shares[4]];
    let factors2 = get_lagrange_factors(&xs2).unwrap();
    assert_eq!(factors2[0], factors[2]);
    assert_eq!(factors2[1], factors[0]);
    assert_eq!(factors2[2], factors[1]);
    assert_eq!(lagrange(&factors2, &ys2).unwrap(), secret);
}

#[test]
fn lagrange_takes_shortest_input() {
    let factors = elements(&[2, 3]);
    let ys = vec![small_share(5), small_share(7), small_share(11)];
    assert_eq!(lagrange(&factors, &ys).unwrap(), small_share(31));
    assert_eq!(lagrange(&[], &ys).unwrap(), [0u8; SHARE_BYTE_SIZE]);
}

#[test]
fn factors_at_negative_abscissas() {
    // For -1 and 1 the factors at zero are 1/2 each.
    let factors = get_lagrange_factors(&[-1, 1]).unwrap();
    let half = Element::one().div(&Element::from_i32(2)).unwrap();
    assert_eq!(factors, vec![half.duplicate(), half]);
}

#[test]
fn shamirizer_shares_from_channel() {
    let (sender, receiver) = std::sync::mpsc::channel();
    sender.send(Element::from_i32(2)).unwrap();
    sender.send(Element::from_i32(3)).unwrap();
    let shamirizer = Shamirizer::new(receiver, 2, 4);
    let secret = Element::from_i32(5).to_share();
    let shares = shamirizer.shamirize(&secret).unwrap();
    // 5 + 2x + 3x^2 at 1, 2, 3, 4.
    let expected: Vec<Share> = [10, 21, 38, 61].iter().map(|v| Element::from_i32(*v).to_share()).collect();
    assert_eq!(shares, expected);
    drop(sender);
    assert!(shamirizer.shamirize(&secret).is_none());
}
