//! Natural numbers held as little-endian sequences of 64-bit limbs, and the
//! arithmetic on them that the `malachite` crate performs.

use malachite::base::num::arithmetic::traits::{Mod, ModInverse, ModSub};
use malachite::Natural;
use vstd::arithmetic::power2::*;
use vstd::prelude::*;

verus! {

/// Value of a little-endian sequence of 64-bit limbs.
pub open spec fn limbs_value(s: Seq<u64>) -> nat
    decreases s.len(),
{
    if s.len() == 0 {
        0
    } else {
        limbs_value(s.drop_last()) + (s.last() as nat) * pow2((64 * (s.len() - 1)) as nat)
    }
}

/// A limb sequence is normalized when it has no most-significant zero limb.
pub open spec fn is_normalized(s: Seq<u64>) -> bool {
    s.len() == 0 || s.last() != 0
}

/// `y` is an inverse of `a` modulo `m`.
pub open spec fn is_inverse_mod(a: nat, y: nat, m: nat) -> bool {
    (a * y) % m == 1
}

/// Appending a limb adds it at weight 2^(64 * len).
pub proof fn lemma_limbs_push(s: Seq<u64>, c: u64)
    ensures
        limbs_value(s.push(c)) == limbs_value(s) + (c as nat) * pow2((64 * s.len()) as nat),
{
    assert(s.push(c).drop_last() =~= s);
}

/// A limb sequence of length `n` has a value below 2^(64 n).
pub proof fn lemma_limbs_upper(s: Seq<u64>)
    ensures
        limbs_value(s) < pow2((64 * s.len()) as nat),
    decreases s.len(),
{
    if s.len() == 0 {
        lemma2_to64();
    } else {
        let n = (s.len() - 1) as nat;
        lemma_limbs_upper(s.drop_last());
        let w = pow2(64 * n);
        assert(pow2(64 * s.len() as nat) == pow2(64) * w) by {
            lemma_pow2_adds(64, 64 * n);
        }
        lemma2_to64();
        assert((s.last() as nat) * w <= (pow2(64) - 1) * w) by (nonlinear_arith)
            requires
                s.last() as nat <= pow2(64) - 1,
        ;
        assert((pow2(64) - 1) * w + w == pow2(64) * w) by (nonlinear_arith);
    }
}

/// A normalized, non-empty limb sequence has a value of at least 2^(64 (len - 1)).
pub proof fn lemma_limbs_lower(s: Seq<u64>)
    requires
        is_normalized(s),
        s.len() > 0,
    ensures
        limbs_value(s) >= pow2((64 * (s.len() - 1)) as nat),
{
    let w = pow2((64 * (s.len() - 1)) as nat);
    assert((s.last() as nat) * w >= w) by (nonlinear_arith)
        requires
            s.last() as nat >= 1,
    ;
}

/// The empty limb sequence is the only normalized one whose value is zero.
pub proof fn lemma_limbs_zero(s: Seq<u64>)
    requires
        is_normalized(s),
    ensures
        (limbs_value(s) == 0) == (s.len() == 0),
{
    if s.len() > 0 {
        lemma_limbs_lower(s);
        lemma_pow2_pos((64 * (s.len() - 1)) as nat);
    }
}

/// Sum of two naturals (`malachite`'s `Add` on `Natural`).
#[verifier::external_body]
pub(crate) fn natural_add(a: &Vec<u64>, b: &Vec<u64>) -> (r: Vec<u64>)
    ensures
        is_normalized(r@),
        limbs_value(r@) == limbs_value(a@) + limbs_value(b@),
{
    (Natural::from_limbs_asc(a) + Natural::from_limbs_asc(b)).into_limbs_asc()
}

/// Difference of two naturals (`malachite`'s `Sub` on `Natural`, which panics
/// when the result would be negative).
#[verifier::external_body]
pub(crate) fn natural_sub(a: &Vec<u64>, b: &Vec<u64>) -> (r: Vec<u64>)
    requires
        limbs_value(a@) >= limbs_value(b@),
    ensures
        is_normalized(r@),
        limbs_value(r@) == limbs_value(a@) - limbs_value(b@),
{
    (Natural::from_limbs_asc(a) - Natural::from_limbs_asc(b)).into_limbs_asc()
}

/// Product of two naturals (`malachite`'s `Mul` on `Natural`).
#[verifier::external_body]
pub(crate) fn natural_mul(a: &Vec<u64>, b: &Vec<u64>) -> (r: Vec<u64>)
    ensures
        is_normalized(r@),
        limbs_value(r@) == limbs_value(a@) * limbs_value(b@),
{
    (Natural::from_limbs_asc(a) * Natural::from_limbs_asc(b)).into_limbs_asc()
}

/// Left shift (`malachite`'s `Shl<u64>` on `Natural`): multiplication by 2^bits.
#[verifier::external_body]
pub(crate) fn natural_shl(a: &Vec<u64>, bits: u64) -> (r: Vec<u64>)
    ensures
        is_normalized(r@),
        limbs_value(r@) == limbs_value(a@) * pow2(bits as nat),
{
    (Natural::from_limbs_asc(a) << bits).into_limbs_asc()
}

/// Right shift (`malachite`'s `Shr<u64>` on `Natural`): floor division by 2^bits.
#[verifier::external_body]
pub(crate) fn natural_shr(a: &Vec<u64>, bits: u64) -> (r: Vec<u64>)
    ensures
        is_normalized(r@),
        limbs_value(r@) == limbs_value(a@) / pow2(bits as nat),
{
    (Natural::from_limbs_asc(a) >> bits).into_limbs_asc()
}

/// Bitwise and (`malachite`'s `BitAnd` on `Natural`). With a mask made of `k`
/// one bits, this keeps the `k` low bits, that is the remainder modulo 2^k.
#[verifier::external_body]
pub(crate) fn natural_and(a: &Vec<u64>, mask: &Vec<u64>) -> (r: Vec<u64>)
    ensures
        is_normalized(r@),
        forall|k: nat|
            limbs_value(mask@) + 1 == #[trigger] pow2(k) ==> limbs_value(r@) == limbs_value(a@)
                % pow2(k),
{
    (Natural::from_limbs_asc(a) & Natural::from_limbs_asc(mask)).into_limbs_asc()
}

/// Strict comparison (`malachite`'s `PartialOrd` on `Natural`).
#[verifier::external_body]
pub(crate) fn natural_lt(a: &Vec<u64>, b: &Vec<u64>) -> (r: bool)
    ensures
        r == (limbs_value(a@) < limbs_value(b@)),
{
    Natural::from_limbs_asc(a) < Natural::from_limbs_asc(b)
}

/// Equality (`malachite`'s `PartialEq` on `Natural`).
#[verifier::external_body]
pub(crate) fn natural_eq(a: &Vec<u64>, b: &Vec<u64>) -> (r: bool)
    ensures
        r == (limbs_value(a@) == limbs_value(b@)),
{
    Natural::from_limbs_asc(a) == Natural::from_limbs_asc(b)
}

/// Remainder of a division (`malachite`'s `Mod::mod_op` on `Natural`, which
/// panics on a zero modulus).
#[verifier::external_body]
pub(crate) fn natural_mod(a: &Vec<u64>, m: &Vec<u64>) -> (r: Vec<u64>)
    requires
        limbs_value(m@) > 0,
    ensures
        is_normalized(r@),
        limbs_value(r@) == limbs_value(a@) % limbs_value(m@),
{
    Natural::from_limbs_asc(a).mod_op(Natural::from_limbs_asc(m)).into_limbs_asc()
}

/// Modular subtraction (`malachite`'s `ModSub` on `Natural`, which panics
/// unless both operands are already reduced).
#[verifier::external_body]
pub(crate) fn natural_mod_sub(a: &Vec<u64>, b: &Vec<u64>, m: &Vec<u64>) -> (r: Vec<u64>)
    requires
        limbs_value(a@) < limbs_value(m@),
        limbs_value(b@) < limbs_value(m@),
    ensures
        is_normalized(r@),
        limbs_value(r@) == (limbs_value(a@) - limbs_value(b@)) % (limbs_value(m@) as int),
{
    Natural::from_limbs_asc(a).mod_sub(Natural::from_limbs_asc(b), Natural::from_limbs_asc(m)).into_limbs_asc()
}

/// Modular inverse (`malachite`'s `ModInverse` on `Natural`, which panics on
/// zero or on an operand that is not reduced). It returns `None` exactly when
/// the operand and the modulus are not coprime, that is when no inverse exists.
#[verifier::external_body]
pub(crate) fn natural_mod_inverse(a: &Vec<u64>, m: &Vec<u64>) -> (r: Option<Vec<u64>>)
    requires
        0 < limbs_value(a@) < limbs_value(m@),
    ensures
        r matches Some(i) ==> is_normalized(i@) && limbs_value(i@) < limbs_value(m@)
            && is_inverse_mod(limbs_value(a@), limbs_value(i@), limbs_value(m@)),
        r is None ==> forall|y: nat| !#[trigger] is_inverse_mod(limbs_value(a@), y, limbs_value(m@)),
{
    Natural::from_limbs_asc(a).mod_inverse(Natural::from_limbs_asc(m)).map(|i| i.into_limbs_asc())
}

} // verus!
