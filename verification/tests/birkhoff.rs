use arithmetics::birkhoff::primitives::{BirkhoffShare, SquareLinearSystem};
use arithmetics::birkhoff::protocol::{birkhoff_split, BProtocol};
use arithmetics::errors::BirkhoffError;
use arithmetics::field::Element;
use arithmetics::SHARE_BYTE_SIZE;
use rand::SeedableRng;
use rand_chacha::ChaCha20Rng;

fn elements(xs: &[i32]) -> Vec<Element> {
    xs.iter().map(|x| Element::from_i32(*x)).collect()
}

#[test]
fn compute_derivative_terms_ok() {
    // The terms for the polynomial x^4 + x^3 + x^2 + x + 1.
    let one = Element::from_i32(1);
    let order_0 = SquareLinearSystem::compute_derivative_terms(&one, 4, 0);
    assert_eq!(order_0, elements(&[1, 1, 1, 1, 1]));
    let order_1 = SquareLinearSystem::compute_derivative_terms(&one, 4, 1);
    assert_eq!(order_1, elements(&[0, 1, 2, 3, 4]));
    let order_2 = SquareLinearSystem::compute_derivative_terms(&one, 4, 2);
    assert_eq!(order_2, elements(&[0, 0, 2, 6, 12]));
    let order_3 = SquareLinearSystem::compute_derivative_terms(&one, 4, 3);
    assert_eq!(order_3, elements(&[0, 0, 0, 6, 24]));
    let order_4 = SquareLinearSystem::compute_derivative_terms(&one, 4, 4);
    assert_eq!(order_4, elements(&[0, 0, 0, 0, 24]));
    let order_5 = SquareLinearSystem::compute_derivative_terms(&one, 4, 5);
    assert_eq!(order_5, elements(&[0, 0, 0, 0, 0]));
}

#[test]
fn construct_birkhoff_matrix_ok() {
    let degree = 3;
    // P(x) = x^3 + x^2 + x + 1, P'(x) = 3x^2 + 2x + 1, P''(x) = 6x + 2.
    let mut shares = vec![
        BirkhoffShare::new(Element::from_i32(1), 0, Element::from_i32(4)),
        BirkhoffShare::new(Element::from_i32(1), 1, Element::from_i32(6)),
        BirkhoffShare::new(Element::from_i32(2), 1, Element::from_i32(11)),
        BirkhoffShare::new(Element::from_i32(3), 2, Element::from_i32(20)),
    ];
    let system = SquareLinearSystem::new_birkhoff(degree, &mut shares).unwrap();
    let expected_matrix = vec![
        elements(&[1, 1, 1, 1]),
        elements(&[0, 1, 2, 3]),
        elements(&[0, 1, 4, 12]),
        elements(&[0, 0, 2, 18]),
    ];
    assert_eq!(&expected_matrix, system.matrix());
    assert_eq!(&elements(&[4, 6, 11, 20]), system.values());
}

#[test]
fn construct_birkhoff_matrix_other_ok() {
    let degree = 3;
    // P(x) = 2x^3 + 3x^2 + 4x + 5, P'(x) = 6x^2 + 6x + 4, P''(x) = 12x + 6.
    let mut shares = vec![
        BirkhoffShare::new(Element::from_i32(1), 0, Element::from_i32(14)),
        BirkhoffShare::new(Element::from_i32(5), 1, Element::from_i32(184)),
        BirkhoffShare::new(Element::from_i32(4), 1, Element::from_i32(124)),
        BirkhoffShare::new(Element::from_i32(3), 2, Element::from_i32(42)),
    ];
    let system = SquareLinearSystem::new_birkhoff(degree, &mut shares).unwrap();
    let expected_matrix = vec![
        elements(&[1, 1, 1, 1]),
        elements(&[0, 1, 10, 75]),
        elements(&[0, 1, 8, 48]),
        elements(&[0, 0, 2, 18]),
    ];
    assert_eq!(&expected_matrix, system.matrix());
    assert_eq!(&elements(&[14, 184, 124, 42]), system.values());
}

#[test]
fn gaussian_elimination_ok() {
    let degree = 4;
    // P(x) = 2x^4 + 3x^3 + 5x^2 + 7x + 11, P'(x) = 8x^3 + 9x^2 + 10x + 7.
    let mut shares = vec![
        BirkhoffShare::new(Element::from_i32(1), 0, Element::from_i32(28)),
        BirkhoffShare::new(Element::from_i32(1), 1, Element::from_i32(34)),
        BirkhoffShare::new(Element::from_i32(2), 1, Element::from_i32(127)),
        BirkhoffShare::new(Element::from_i32(3), 1, Element::from_i32(334)),
        BirkhoffShare::new(Element::from_i32(4), 1, Element::from_i32(703)),
    ];
    let system = SquareLinearSystem::new_birkhoff(degree, &mut shares).unwrap();
    let solution = system.solution();
    assert_eq!(solution, Some(elements(&[11, 7, 5, 3, 2])));
}

#[test]
fn gaussian_elimination_other_ok() {
    let degree = 5;
    // P(x) = 3x^5 + 2x^4 + 4x^3 + 5x^2 + 7x + 11.
    let mut shares = vec![
        BirkhoffShare::new(Element::from_i32(1), 0, Element::from_i32(32)),
        BirkhoffShare::new(Element::from_i32(2), 0, Element::from_i32(205)),
        BirkhoffShare::new(Element::from_i32(1), 2, Element::from_i32(118)),
        BirkhoffShare::new(Element::from_i32(2), 2, Element::from_i32(634)),
        BirkhoffShare::new(Element::from_i32(3), 2, Element::from_i32(1918)),
        BirkhoffShare::new(Element::from_i32(4), 2, Element::from_i32(4330)),
    ];
    let system = SquareLinearSystem::new_birkhoff(degree, &mut shares).unwrap();
    let solution = system.solution();
    assert_eq!(solution, Some(elements(&[11, 7, 5, 4, 2, 3])));
}

#[test]
fn generate_shares_order_1() {
    let birkhoff_protocol = BProtocol::new(4, vec![1, 4]).unwrap();
    let secret = [5u8; SHARE_BYTE_SIZE];
    let mut rng = ChaCha20Rng::from_os_rng();
    let mut birkhoff_shares = birkhoff_split(&secret, &birkhoff_protocol, &mut rng);
    let system =
        SquareLinearSystem::new_birkhoff(birkhoff_protocol.degree(), &mut birkhoff_shares).unwrap();
    let solution = system.solution().unwrap();
    assert_eq!(Element::from_share(&secret), solution[0]);
}

#[test]
fn generate_shares_order_2() {
    // Two shares of order 0: P(1), P(2), and three of order 2: P''(1), P''(2), P''(3).
    let birkhoff_protocol = BProtocol::new(4, vec![2, 0, 3]).unwrap();
    let secret = [5u8; SHARE_BYTE_SIZE];
    let mut rng = ChaCha20Rng::from_os_rng();
    let mut birkhoff_shares = birkhoff_split(&secret, &birkhoff_protocol, &mut rng);
    let system =
        SquareLinearSystem::new_birkhoff(birkhoff_protocol.degree(), &mut birkhoff_shares).unwrap();
    let solution = system.solution().unwrap();
    assert_eq!(Element::from_share(&secret), solution[0]);
}

#[test]
fn generate_shares_order_3() {
    // Three shares of order 0 and two of order 3.
    let birkhoff_protocol = BProtocol::new(4, vec![3, 0, 0, 2]).unwrap();
    let secret = [5u8; SHARE_BYTE_SIZE];
    let mut rng = ChaCha20Rng::from_os_rng();
    let mut birkhoff_shares = birkhoff_split(&secret, &birkhoff_protocol, &mut rng);
    let system =
        SquareLinearSystem::new_birkhoff(birkhoff_protocol.degree(), &mut birkhoff_shares).unwrap();
    let solution = system.solution().unwrap();
    assert_eq!(Element::from_share(&secret), solution[0]);
}

#[test]
fn protocol_verif() {
    let protocol1 = BProtocol::new(7, vec![2, 0, 1, 0, 0, 1000]);
    assert!(protocol1.is_err());
    let protocol2 = BProtocol::new(7, vec![0, 115, 0, 1]);
    assert!(protocol2.is_err());
    let protocol3 = BProtocol::new(7, vec![2, 0, 0, 1000]);
    assert!(protocol3.is_err());
    let protocol4 = BProtocol::new(7, vec![2, 0, 1, 1000]);
    assert!(protocol4.is_ok());
    let protocol5 = BProtocol::new(7, vec![6, 0, 0, 1, 0, 1, 0, 0, 0, 0, 0, 0, 0, 0]);
    assert!(protocol5.is_ok());
}

#[test]
fn protocol_rejection_is_non_solvable() {
    match BProtocol::new(2, vec![0, 3]) {
        Err(e) => assert_eq!(e, BirkhoffError::ProtocolNonSolvable),
        Ok(_) => panic!("a protocol without order-zero shares cannot be solved"),
    }
    let protocol = BProtocol::new(2, vec![1, 2]).unwrap();
    assert_eq!(protocol.degree(), 2);
    assert_eq!(protocol.subnetworks(), &vec![1, 2]);
}

#[test]
fn birkhoff_too_few_equations() {
    let mut shares = vec![
        BirkhoffShare::new(Element::from_i32(1), 0, Element::from_i32(4)),
        BirkhoffShare::new(Element::from_i32(2), 1, Element::from_i32(6)),
    ];
    match SquareLinearSystem::new_birkhoff(2, &mut shares) {
        Err(e) => assert_eq!(e, BirkhoffError::NbEqnsTooLow),
        Ok(_) => panic!("two equations cannot fix three coefficients"),
    }
}

#[test]
fn linear_system_shape_errors() {
    let not_square = SquareLinearSystem::new(vec![elements(&[1, 2])], elements(&[1]));
    match not_square {
        Err(BirkhoffError::LinearSystem { e }) => {
            assert_eq!(e, "Matrix (size is 1,2)should be square.")
        }
        _ => panic!("a 1 by 2 matrix is not square"),
    }
    let mismatch = SquareLinearSystem::new(vec![elements(&[1])], elements(&[1, 2]));
    match mismatch {
        Err(BirkhoffError::LinearSystem { e }) => {
            assert_eq!(e, "Matrix 1 and values 2 should have the same length")
        }
        _ => panic!("one row cannot take two values"),
    }
    let ok = SquareLinearSystem::new(vec![elements(&[2])], elements(&[6])).unwrap();
    assert_eq!(ok.solution(), Some(elements(&[3])));
}

#[test]
fn birkhoff_split_then_solve_recovers_secret() {
    let protocol = BProtocol::new(3, vec![2, 2]).unwrap();
    let mut rng = ChaCha20Rng::from_os_rng();
    let secret_element = Element::gen_random(&mut rng);
    let secret = secret_element.to_share();
    let mut shares = birkhoff_split(&secret, &protocol, &mut rng);
    assert_eq!(shares.len(), 4);
    assert_eq!(shares[0].degree(), 0);
    assert_eq!(shares[2].degree(), 1);
    assert_eq!(shares[3].position(), Element::from_i32(2));
    let system = SquareLinearSystem::new_birkhoff(protocol.degree(), &mut shares).unwrap();
    let solution = system.solution().unwrap();
    assert_eq!(solution[0], secret_element);
}

#[test]
fn birkhoff_share_accessors() {
    let share = BirkhoffShare::new(Element::from_i32(3), 2, Element::from_i32(258));
    assert_eq!(share.position(), Element::from_i32(3));
    assert_eq!(share.degree(), 2);
    assert_eq!(share.value(), Element::from_i32(258));
    let bytes = share.value_as_bytes();
    assert_eq!(bytes.len(), SHARE_BYTE_SIZE);
    assert_eq!(bytes[SHARE_BYTE_SIZE - 1], 2);
    assert_eq!(bytes[SHARE_BYTE_SIZE - 2], 1);
    assert!(bytes[..SHARE_BYTE_SIZE - 2].iter().all(|b| *b == 0));
}

#[test]
fn singular_system_has_no_solution() {
    // The second row is twice the first: no unique solution.
    let system =
        SquareLinearSystem::new(vec![elements(&[1, 2]), elements(&[2, 4])], elements(&[3, 6])).unwrap();
    assert_eq!(system.solution(), None);
    // A zero column.
    let system =
        SquareLinearSystem::new(vec![elements(&[0, 1]), elements(&[0, 5])], elements(&[1, 2])).unwrap();
    assert_eq!(system.solution(), None);
}

#[test]
fn ragged_matrix_is_refused() {
    let ragged = SquareLinearSystem::new(vec![elements(&[1, 2]), elements(&[3])], elements(&[1, 1]));
    match ragged {
        Err(BirkhoffError::LinearSystem { e }) => {
            assert_eq!(e, "Matrix (size is 2,1)should be square.")
        }
        _ => panic!("a ragged matrix is not square"),
    }
}

#[test]
fn counting_condition_is_monotone() {
    assert!(BProtocol::new(4, vec![1, 4]).is_ok());
    assert!(BProtocol::new(2, vec![1, 4]).is_ok());
    assert!(BProtocol::new(4, vec![1, 4, 0, 7]).is_ok());
}
