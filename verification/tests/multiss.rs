use arithmetics::field::Element;
use arithmetics::multiss::{
    local_reconstruct, local_share, recover_value, standard_reconstruct, standard_share, NetworkConfig,
};
use arithmetics::secret_sharing::shamir::{shamir, Parameters};
use rand::SeedableRng;
use rand_chacha::ChaCha20Rng;

#[test]
fn standard_multiss_round_trip() {
    let mut rng = ChaCha20Rng::from_os_rng();
    let secret = Element::gen_random(&mut rng).to_share();
    let networks = vec![
        NetworkConfig { nodes: 5, degree: 2 },
        NetworkConfig { nodes: 4, degree: 1 },
        NetworkConfig { nodes: 6, degree: 3 },
        NetworkConfig { nodes: 3, degree: 2 },
    ];
    let degree_p = 3;
    let (mother, daughters) = standard_share(&secret, degree_p, &networks, &mut rng);
    assert_eq!(mother.len(), 5);
    assert_eq!(daughters.len(), 3);
    assert_eq!(daughters[1].len(), 6);
    let recovered = standard_reconstruct(degree_p, &networks, &mother, &daughters).unwrap();
    assert_eq!(recovered, secret);
}

#[test]
fn local_multiss_round_trip() {
    let mut rng = ChaCha20Rng::from_os_rng();
    let secret = Element::gen_random(&mut rng).to_share();
    let networks = vec![
        NetworkConfig { nodes: 3, degree: 1 },
        NetworkConfig { nodes: 4, degree: 2 },
        NetworkConfig { nodes: 5, degree: 1 },
    ];
    let degree_p = 2;
    let (kept, daughters) = local_share(&secret, degree_p, &networks, &mut rng);
    assert_eq!(kept.len(), 3);
    assert_eq!(daughters.len(), 3);
    assert_eq!(daughters[1].len(), 4);
    let recovered = local_reconstruct(degree_p, &networks, &kept, &daughters).unwrap();
    assert_eq!(recovered, secret);
}

#[test]
fn recover_value_from_threshold_shares() {
    let secret = Element::from_i32(-99).to_share();
    let mut parameters = Parameters::new(3, 7).unwrap();
    let shares = shamir(&secret, &mut parameters);
    let value = recover_value(3, &shares).unwrap();
    assert_eq!(value, Element::from_i32(-99));
}
