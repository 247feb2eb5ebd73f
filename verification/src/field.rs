//! Elements of the prime field of size p = 2^9689 - 1.

use crate::bytes::{bytes_value, limbs_from_be_bytes, normalize, share_from_limbs, strip_leading_zeros};
use crate::rng::fill_random_share;
use crate::Share;
use rand_chacha::ChaCha20Rng;
use crate::natural::{
    is_inverse_mod, is_normalized, lemma_limbs_push, lemma_limbs_zero, lemma_limbs_lower, limbs_value, natural_add,
    natural_lt, natural_mod, natural_mod_inverse, natural_eq, natural_mod_sub, natural_mul, natural_shl, natural_shr, natural_and, natural_sub,
};
use vstd::arithmetic::div_mod::*;
use vstd::arithmetic::power2::*;
use vstd::prelude::*;

verus! {

/// The field modulus, the Mersenne prime 2^9689 - 1.
pub open spec fn modulus() -> nat {
    (pow2(9689) - 1) as nat
}

/// Field addition.
pub open spec fn fadd(a: nat, b: nat) -> nat {
    (a + b) % modulus()
}

/// Field subtraction.
pub open spec fn fsub(a: nat, b: nat) -> nat {
    ((a - b) % (modulus() as int)) as nat
}

/// Field multiplication.
pub open spec fn fmul(a: nat, b: nat) -> nat {
    (a * b) % modulus()
}

/// Field negation.
pub open spec fn fneg(a: nat) -> nat {
    fsub(0, a)
}

/// The field element of an integer.
pub open spec fn fint(x: int) -> nat {
    (x % (modulus() as int)) as nat
}

/// `a` has a multiplicative inverse modulo the field modulus.
pub open spec fn invertible(a: nat) -> bool {
    exists|y: nat| is_inverse_mod(a, y, modulus())
}

/// Some nonzero residue has no inverse: the modulus is not prime.
pub open spec fn some_nonzero_not_invertible() -> bool {
    exists|v: nat| 0 < v < modulus() && !invertible(v)
}

/// The modulus is 2^9689 - 1 and exceeds 2^64.
pub proof fn lemma_modulus()
    ensures
        modulus() + 1 == pow2(9689),
        modulus() > pow2(64),
        pow2(64) == 0x1_0000_0000_0000_0000,
{
    lemma2_to64();
    lemma_pow2_strictly_increases(65, 9689);
    lemma_pow2_adds(64, 1);
}

/// A field element, held as the normalized limbs of its canonical
/// representative in [0, p), the limbs that a malachite natural is made of.
#[derive(Debug, PartialEq, Eq)]
pub struct MalachiteElement {
    limbs: Vec<u64>,
}

/// The field element type of the library.
pub type Element = MalachiteElement;

impl MalachiteElement {
    #[verifier::type_invariant]
    spec fn well_formed(self) -> bool {
        is_normalized(self.limbs@) && limbs_value(self.limbs@) < modulus()
    }
}

impl View for MalachiteElement {
    type V = nat;

    /// The canonical representative of the element, in [0, p).
    closed spec fn view(&self) -> nat {
        limbs_value(self.limbs@) % modulus()
    }
}

/// Every element's value lies in [0, p).
pub broadcast proof fn lemma_element_bound(e: Element)
    ensures
        #[trigger] e@ < modulus(),
{
    lemma_modulus();
    lemma_mod_bound(limbs_value(e.limbs@) as int, modulus() as int);
}

/// The single limb 1 stands for the natural 1.
proof fn lemma_limbs_one(s: Seq<u64>)
    requires
        s =~= seq![1u64],
    ensures
        limbs_value(s) == 1,
        is_normalized(s),
{
    lemma2_to64();
    assert(s.drop_last() =~= Seq::<u64>::empty());
    assert(limbs_value(s.drop_last()) == 0);
    assert(pow2((64 * (s.len() - 1)) as nat) == 1);
}

/// The limbs of the field modulus.
fn modulus_limbs() -> (r: Vec<u64>)
    ensures
        is_normalized(r@),
        limbs_value(r@) == modulus(),
{
    let one: Vec<u64> = vec![1u64];
    proof {
        lemma_modulus();
        lemma_limbs_one(one@);
    }
    let shifted = natural_shl(&one, 9689);
    natural_sub(&shifted, &one)
}

/// Reduces a natural modulo the Mersenne modulus 2^e - 1 by folding the bits
/// above position e back onto the low bits (2^e is 1 modulo the modulus),
/// then subtracting the modulus once if needed.
fn reduce(x: Vec<u64>) -> (r: Vec<u64>)
    requires
        is_normalized(x@),
    ensures
        is_normalized(r@),
        limbs_value(r@) == limbs_value(x@) % modulus(),
{
    let p = modulus_limbs();
    let ghost x0 = limbs_value(x@);
    let ghost big = pow2(9689);
    proof {
        lemma_modulus();
    }
    let mut x = x;
    loop
        invariant
            is_normalized(x@),
            is_normalized(p@),
            limbs_value(p@) == modulus(),
            big == pow2(9689),
            modulus() + 1 == big,
            modulus() > 1,
            limbs_value(x@) % modulus() == x0 % modulus(),
        ensures
            is_normalized(x@),
            limbs_value(x@) < big,
            limbs_value(x@) % modulus() == x0 % modulus(),
        decreases limbs_value(x@),
    {
        let ghost v = limbs_value(x@);
        let hi = natural_shr(&x, 9689);
        proof {
            lemma_fundamental_div_mod(v as int, big as int);
            lemma_mod_pos_bound(v as int, big as int);
        }
        if hi.len() == 0 {
            proof {
                assert(limbs_value(hi@) == 0);
                assert(v / big == 0);
                vstd::arithmetic::mul::lemma_mul_basics(big as int);
            }
            break;
        }
        let lo = natural_and(&x, &p);
        proof {
            assert(limbs_value(p@) + 1 == pow2(9689));
            let h = v / big;
            let l = v % big;
            lemma_limbs_zero(hi@);
            assert(h >= 1);
            assert(big * h >= 2 * h) by (nonlinear_arith)
                requires
                    big >= 2,
                    h >= 1,
            ;
            assert(big * h == modulus() * h + h) by (nonlinear_arith)
                requires
                    big == modulus() + 1,
            ;
            lemma_mod_multiples_vanish(h as int, (l + h) as int, modulus() as int);
        }
        x = natural_add(&lo, &hi);
    }
    if !natural_lt(&x, &p) {
        proof {
            lemma_mod_self_0(modulus() as int);
        }
        x = natural_sub(&x, &p);
        proof {
            lemma_small_mod(0, modulus());
        }
    }
    proof {
        lemma_small_mod(limbs_value(x@), modulus());
    }
    x
}

impl MalachiteElement {
    /// Wraps limbs that already hold a reduced value.
    fn from_reduced(limbs: Vec<u64>) -> (r: Element)
        requires
            is_normalized(limbs@),
            limbs_value(limbs@) < modulus(),
        ensures
            r@ == limbs_value(limbs@),
    {
        proof {
            lemma_small_mod(limbs_value(limbs@), modulus());
        }
        MalachiteElement { limbs }
    }

    /// The value of the element, as limbs below the modulus.
    proof fn lemma_value(&self)
        requires
            self.well_formed(),
        ensures
            self@ == limbs_value(self.limbs@),
    {
        lemma_small_mod(limbs_value(self.limbs@), modulus());
    }

    /// The additive identity.
    pub fn zero() -> (r: Element)
        ensures
            r@ == 0,
    {
        proof {
            lemma_modulus();
        }
        Element::from_reduced(Vec::new())
    }

    /// The multiplicative identity.
    pub fn one() -> (r: Element)
        ensures
            r@ == 1,
    {
        let limbs: Vec<u64> = vec![1u64];
        proof {
            lemma_modulus();
            lemma_limbs_one(limbs@);
        }
        Element::from_reduced(limbs)
    }

    /// Field addition.
    pub fn add(&self, rhs: &Element) -> (r: Element)
        ensures
            r@ == fadd(self@, rhs@),
    {
        proof {
            use_type_invariant(self);
            use_type_invariant(rhs);
            self.lemma_value();
            rhs.lemma_value();
            lemma_modulus();
        }
        let sum = natural_add(&self.limbs, &rhs.limbs);
        let reduced = reduce(sum);
        proof {
            lemma_mod_bound(limbs_value(sum@) as int, modulus() as int);
        }
        Element::from_reduced(reduced)
    }

    /// Field multiplication.
    pub fn mul(&self, rhs: &Element) -> (r: Element)
        ensures
            r@ == fmul(self@, rhs@),
    {
        proof {
            use_type_invariant(self);
            use_type_invariant(rhs);
            self.lemma_value();
            rhs.lemma_value();
            lemma_modulus();
        }
        let product = natural_mul(&self.limbs, &rhs.limbs);
        let reduced = reduce(product);
        proof {
            lemma_mod_bound(limbs_value(product@) as int, modulus() as int);
        }
        Element::from_reduced(reduced)
    }

    /// Field subtraction.
    pub fn sub(&self, rhs: &Element) -> (r: Element)
        ensures
            r@ == fsub(self@, rhs@),
    {
        proof {
            use_type_invariant(self);
            use_type_invariant(rhs);
            self.lemma_value();
            rhs.lemma_value();
            lemma_modulus();
        }
        let p = modulus_limbs();
        let diff = natural_mod_sub(&self.limbs, &rhs.limbs, &p);
        proof {
            lemma_mod_bound(limbs_value(self.limbs@) - limbs_value(rhs.limbs@), modulus() as int);
        }
        Element::from_reduced(diff)
    }

    /// Field negation.
    pub fn neg(&self) -> (r: Element)
        ensures
            r@ == fneg(self@),
    {
        Element::zero().sub(self)
    }
}


/// The limbs of a machine word.
fn word_limbs(v: u64) -> (r: Vec<u64>)
    ensures
        is_normalized(r@),
        limbs_value(r@) == v,
{
    let mut limbs: Vec<u64> = Vec::new();
    if v != 0 {
        limbs.push(v);
        proof {
            lemma2_to64();
            assert(limbs@.drop_last() =~= Seq::<u64>::empty());
            assert(limbs_value(limbs@.drop_last()) == 0);
            assert(pow2((64 * (limbs@.len() - 1)) as nat) == 1);
        }
    }
    limbs
}

impl MalachiteElement {
    /// The element of a non-negative machine integer.
    pub fn from_usize(v: usize) -> (r: Element)
        ensures
            r@ == v,
    {
        proof {
            lemma_modulus();
        }
        let p = modulus_limbs();
        let raw = natural_mod(&word_limbs(v as u64), &p);
        proof {
            lemma_small_mod(v as nat, modulus());
        }
        Element::from_reduced(raw)
    }

    /// The element of a signed machine integer: its residue modulo p.
    pub fn from_i32(v: i32) -> (r: Element)
        ensures
            r@ == fint(v as int),
    {
        proof {
            lemma_modulus();
        }
        let magnitude: u64 = if v < 0 {
            (0i64 - v as i64) as u64
        } else {
            v as u64
        };
        let p = modulus_limbs();
        let raw = natural_mod(&word_limbs(magnitude), &p);
        proof {
            lemma_small_mod(magnitude as nat, modulus());
        }
        let abs = Element::from_reduced(raw);
        if v < 0 {
            Element::zero().sub(&abs)
        } else {
            proof {
                lemma_small_mod(v as nat, modulus());
            }
            abs
        }
    }

    /// The multiplicative inverse, or `None` when the element has none (zero,
    /// or an element sharing a factor with the modulus).
    pub fn inverse(&self) -> (r: Option<Element>)
        ensures
            r is Some == invertible(self@),
            r matches Some(i) ==> is_inverse_mod(self@, i@, modulus()),
    {
        proof {
            use_type_invariant(self);
            self.lemma_value();
            lemma_modulus();
        }
        if self.limbs.len() == 0 {
            proof {
                assert forall|y: nat| !is_inverse_mod(self@, y, modulus()) by {
                    assert(self@ == 0);
                    vstd::arithmetic::mul::lemma_mul_basics(y as int);
                    lemma_small_mod(0, modulus());
                }
            }
            return None;
        }
        let p = modulus_limbs();
        proof {
            lemma_limbs_zero(self.limbs@);
        }
        match natural_mod_inverse(&self.limbs, &p) {
            Some(i) => {
                let inv = Element::from_reduced(i);
                proof {
                    assert(is_inverse_mod(self@, inv@, modulus()));
                }
                Some(inv)
            },
            None => None,
        }
    }

    /// Field division: `Some(q)` with q * rhs = self, or `None` when `rhs` has
    /// no inverse.
    pub fn div(&self, rhs: &Element) -> (r: Option<Element>)
        ensures
            r is Some == invertible(rhs@),
            r matches Some(q) ==> fmul(q@, rhs@) == self@,
    {
        match rhs.inverse() {
            Some(inv) => {
                let q = self.mul(&inv);
                proof {
                    lemma_element_bound(*self);
                    lemma_div_identity(self@, rhs@, inv@);
                }
                Some(q)
            },
            None => None,
        }
    }

    /// Numeric comparison of the canonical representatives.
    pub fn lt(&self, rhs: &Element) -> (r: bool)
        ensures
            r == (self@ < rhs@),
    {
        proof {
            use_type_invariant(self);
            use_type_invariant(rhs);
            self.lemma_value();
            rhs.lemma_value();
        }
        natural_lt(&self.limbs, &rhs.limbs)
    }

    /// Equality of elements.
    pub fn equals(&self, rhs: &Element) -> (r: bool)
        ensures
            r == (self@ == rhs@),
    {
        proof {
            use_type_invariant(self);
            use_type_invariant(rhs);
            self.lemma_value();
            rhs.lemma_value();
        }
        natural_eq(&self.limbs, &rhs.limbs)
    }

    /// Whether the element is zero.
    pub fn is_zero(&self) -> (r: bool)
        ensures
            r == (self@ == 0),
    {
        proof {
            use_type_invariant(self);
            self.lemma_value();
            lemma_limbs_zero(self.limbs@);
        }
        self.limbs.len() == 0
    }

    /// A copy of the element.
    pub fn duplicate(&self) -> (r: Element)
        ensures
            r@ == self@,
    {
        proof {
            use_type_invariant(self);
        }
        MalachiteElement { limbs: self.limbs.clone() }
    }
}

/// (a * i) * b = a when i is an inverse of b.
proof fn lemma_div_identity(a: nat, b: nat, i: nat)
    requires
        a < modulus(),
        is_inverse_mod(b, i, modulus()),
    ensures
        fmul(fmul(a, i), b) == a,
{
    let m = modulus() as int;
    lemma_modulus();
    lemma_mul_mod_noop_left((a * i) as int, b as int, m);
    vstd::arithmetic::mul::lemma_mul_is_associative(a as int, i as int, b as int);
    vstd::arithmetic::mul::lemma_mul_is_commutative(i as int, b as int);
    lemma_mul_mod_noop_right(a as int, (b * i) as int, m);
    lemma_small_mod(a, modulus());
}

impl MalachiteElement {
    /// The element of a big-endian byte string, reduced modulo p.
    pub fn from_slice(bytes: &[u8]) -> (r: Element)
        ensures
            r@ == bytes_value(bytes@) % modulus(),
    {
        let limbs = normalize(limbs_from_be_bytes(bytes));
        let reduced = reduce(limbs);
        proof {
            lemma_modulus();
            lemma_mod_bound(limbs_value(limbs@) as int, modulus() as int);
        }
        Element::from_reduced(reduced)
    }

    /// The element of a big-endian byte vector, reduced modulo p.
    pub fn from_bytes(bytes: Vec<u8>) -> (r: Element)
        ensures
            r@ == bytes_value(bytes@) % modulus(),
    {
        Element::from_slice(bytes.as_slice())
    }

    /// The element of a share, reduced modulo p.
    pub fn from_share(share: &Share) -> (r: Element)
        ensures
            r@ == bytes_value(share@) % modulus(),
    {
        Element::from_slice(share)
    }

    /// The share of the element: its canonical value, big-endian and
    /// left-padded with zeros.
    pub fn to_share(&self) -> (r: Share)
        ensures
            bytes_value(r@) == self@,
    {
        proof {
            use_type_invariant(self);
            self.lemma_value();
            lemma_modulus();
            if self.limbs@.len() > 152 {
                lemma_limbs_lower(self.limbs@);
                let e = (64 * (self.limbs@.len() - 1)) as nat;
                lemma_pow2_strictly_increases(9689, e);
            }
        }
        share_from_limbs(&self.limbs)
    }

    /// The canonical value of the element as big-endian bytes without
    /// leading zeros (empty for zero).
    pub fn to_bytes(&self) -> (r: Vec<u8>)
        ensures
            bytes_value(r@) == self@,
            r@.len() == 0 || r@[0] != 0,
    {
        let share = self.to_share();
        strip_leading_zeros(&share)
    }
}

impl MalachiteElement {
    /// A random element: 1216 bytes from the generator, reduced modulo p.
    pub fn gen_random(rng: &mut ChaCha20Rng) -> (r: Element)
        ensures
            exists|s: Seq<u8>| s.len() == 1216 && r@ == bytes_value(s) % modulus(),
    {
        let mut raw: Share = [0u8; 1216];
        fill_random_share(rng, &mut raw);
        let r = Element::from_share(&raw);
        proof {
            assert(raw@.len() == 1216);
        }
        r
    }
}

/// Two byte strings of one length with one value are equal.
pub proof fn lemma_bytes_injective(a: Seq<u8>, b: Seq<u8>)
    requires
        a.len() == b.len(),
        bytes_value(a) == bytes_value(b),
    ensures
        a == b,
    decreases a.len(),
{
    if a.len() > 0 {
        let x = bytes_value(a.drop_last());
        let y = bytes_value(b.drop_last());
        let u = a.last() as nat;
        let v = b.last() as nat;
        assert(x * 256 + u == y * 256 + v);
        lemma_fundamental_div_mod_converse((x * 256 + u) as int, 256, x as int, u as int);
        lemma_fundamental_div_mod_converse((y * 256 + v) as int, 256, y as int, v as int);
        lemma_bytes_injective(a.drop_last(), b.drop_last());
        assert(a =~= a.drop_last().push(a.last()));
        assert(b =~= b.drop_last().push(b.last()));
    } else {
        assert(a =~= b);
    }
}

/// An element written to a share and read back is the same element.
pub proof fn lemma_element_round_trip(e: Element, s: Share, f: Element)
    requires
        bytes_value(s@) == e@,
        f@ == bytes_value(s@) % modulus(),
    ensures
        f@ == e@,
{
    lemma_element_bound(e);
    lemma_small_mod(e@, modulus());
}

/// A share whose value is below p, read as an element and written back, is
/// the same share.
pub proof fn lemma_share_round_trip(s: Share, e: Element, t: Share)
    requires
        bytes_value(s@) < modulus(),
        e@ == bytes_value(s@) % modulus(),
        bytes_value(t@) == e@,
    ensures
        t == s,
{
    lemma_small_mod(bytes_value(s@), modulus());
    lemma_bytes_injective(t@, s@);
    assert(t@ == s@);
    assert(t =~= s);
}

} // verus!
