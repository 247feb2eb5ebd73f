use arithmetics::field::{Element, MalachiteElement};
use arithmetics::{contains, Share, ALLOWED, MERSENNE_EXP, SHARE_BYTE_SIZE};
use rand::{Rng, SeedableRng};
use rand_chacha::ChaCha20Rng;

#[test]
fn malachite_element_test_arithmetics() {
    let mut rng = rand::rng();
    let mut chacha_rand = ChaCha20Rng::from_os_rng();
    let secret: Share = MalachiteElement::gen_random(&mut chacha_rand).to_share();
    let secret_t = MalachiteElement::from_share(&secret);
    let out: Share = secret_t.to_share();
    assert_eq!(secret, out, "Failure with From<Vec<u8>>");

    let a = rng.random::<i16>() as i32;
    let b = rng.random::<i16>() as i32;
    let a_t = MalachiteElement::from_i32(a);
    let b_t = MalachiteElement::from_i32(b);
    assert_eq!(a_t.add(&b_t), MalachiteElement::from_i32(a + b), "Failure with addition");
    assert_eq!(a_t.sub(&b_t), MalachiteElement::from_i32(a - b), "Failure with substraction");
    assert_eq!(a_t.mul(&b_t), MalachiteElement::from_i32(a * b), "Failure with multiplication");
    assert_eq!(b_t.mul(&a_t.div(&b_t).unwrap()), a_t, "Failure with division");
}

#[test]
fn mersenne_exponent_is_allowed() {
    assert!(contains(&ALLOWED, MERSENNE_EXP));
    assert!(!contains(&ALLOWED, 9690));
    assert!(!contains(&[], 3));
}

#[test]
fn wide_products_reduce() {
    // (p - 1)^2 = 1 modulo p: the product exceeds p and goes through the
    // Mersenne fold.
    let minus_one = Element::from_i32(-1);
    assert_eq!(minus_one.mul(&minus_one), Element::one());
    // 2^9689 = 1 modulo p.
    let mut power = Element::one();
    let two = Element::from_usize(2);
    for _ in 0..9689 {
        power = power.mul(&two);
    }
    assert_eq!(power, Element::one());
}

#[test]
fn sums_and_differences_wrap() {
    let minus_one = Element::from_i32(-1);
    assert_eq!(minus_one.add(&Element::from_i32(3)), Element::from_i32(2));
    assert_eq!(Element::from_i32(3).sub(&Element::from_i32(7)), Element::from_i32(-4));
    assert_eq!(Element::from_i32(5).neg(), Element::from_i32(-5));
    assert_eq!(Element::zero().neg(), Element::zero());
    assert_eq!(Element::from_i32(3).add(&Element::from_i32(4)), Element::from_i32(7));
    assert_eq!(Element::from_i32(6).mul(&Element::from_i32(7)), Element::from_i32(42));
}

#[test]
fn comparisons_follow_canonical_values() {
    let small = Element::from_i32(5);
    let large = Element::from_i32(-1);
    assert!(small.lt(&large));
    assert!(!large.lt(&small));
    assert!(!small.lt(&small));
    assert!(small.equals(&Element::from_usize(5)));
    assert!(!small.equals(&large));
    assert!(Element::zero().is_zero());
    assert!(!Element::one().is_zero());
}

#[test]
fn inverses_and_division() {
    assert!(Element::zero().inverse().is_none());
    assert!(Element::from_i32(7).div(&Element::zero()).is_none());
    let three = Element::from_i32(3);
    let inv = three.inverse().unwrap();
    assert_eq!(inv.mul(&three), Element::one());
    let q = Element::from_i32(12).div(&three).unwrap();
    assert_eq!(q, Element::from_i32(4));
    assert_eq!(Element::one().div(&Element::from_i32(-1)).unwrap(), Element::from_i32(-1));
}

#[test]
fn bytes_round_trips() {
    let e = Element::from_usize(0x0102);
    let bytes = e.to_bytes();
    assert_eq!(bytes, vec![1u8, 2]);
    assert_eq!(Element::from_bytes(bytes), e);
    assert!(Element::zero().to_bytes().is_empty());
    let share = e.to_share();
    assert_eq!(share[SHARE_BYTE_SIZE - 1], 2);
    assert_eq!(share[SHARE_BYTE_SIZE - 2], 1);
    assert_eq!(Element::from_share(&share), e);
    assert_eq!(Element::from_slice(&[0, 0, 1, 2]), e);
    assert_eq!(Element::from_bytes(b"tests".to_vec()).to_bytes(), b"tests".to_vec());
}

#[test]
fn modulus_bytes_reduce_to_zero() {
    // The bytes of p itself: 2^9689 - 1 is 9689 one bits.
    let mut bytes = vec![0xffu8; 1212];
    bytes[0] = 0x01;
    assert_eq!(Element::from_bytes(bytes.clone()), Element::zero());
    bytes[1211] = 0xfe;
    assert_eq!(Element::from_bytes(bytes), Element::from_i32(-1));
}

#[test]
fn random_elements_differ() {
    let mut rng = ChaCha20Rng::from_os_rng();
    let a = Element::gen_random(&mut rng);
    let b = Element::gen_random(&mut rng);
    assert_ne!(a, b);
    assert!(!a.is_zero());
}

#[test]
fn duplicate_keeps_value() {
    let e = Element::from_i32(-77);
    assert_eq!(e.duplicate(), e);
}
