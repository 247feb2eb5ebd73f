//! Big-endian byte strings and their conversion to and from limbs.

use crate::natural::{is_normalized, lemma_limbs_push, limbs_value};
use crate::Share;
use vstd::arithmetic::div_mod::*;
use vstd::arithmetic::power2::*;
use vstd::prelude::*;

verus! {

/// Value of a big-endian byte string.
pub open spec fn bytes_value(s: Seq<u8>) -> nat
    decreases s.len(),
{
    if s.len() == 0 {
        0
    } else {
        bytes_value(s.drop_last()) * 256 + s.last() as nat
    }
}

/// 2^(8 (k + 1)) = 2^(8 k) * 256.
pub proof fn lemma_pow2_byte_step(k: nat)
    ensures
        pow2(8 * (k + 1)) == pow2(8 * k) * 256,
{
    lemma2_to64();
    lemma_pow2_adds(8 * k, 8);
    assert(8 * (k + 1) == 8 * k + 8) by (nonlinear_arith);
}

/// The value of a concatenation: the front part is weighted by 2^(8 |back|).
pub proof fn lemma_bytes_concat(a: Seq<u8>, b: Seq<u8>)
    ensures
        bytes_value(a + b) == bytes_value(a) * pow2(8 * b.len()) + bytes_value(b),
    decreases b.len(),
{
    if b.len() == 0 {
        lemma2_to64();
        assert(a + b =~= a);
        assert(pow2(8 * b.len()) == 1);
    } else {
        assert((a + b).last() == b.last());
        let b0 = b.drop_last();
        lemma_bytes_concat(a, b0);
        assert((a + b).drop_last() =~= a + b0);
        lemma_pow2_byte_step(b0.len() as nat);
        let w = pow2(8 * b0.len());
        assert((bytes_value(a) * w + bytes_value(b0)) * 256 + (b.last() as nat) == bytes_value(a) * (
        w * 256) + (bytes_value(b0) * 256 + (b.last() as nat))) by (nonlinear_arith);
    }
}

/// A byte string of length n has a value below 2^(8 n).
pub proof fn lemma_bytes_upper(s: Seq<u8>)
    ensures
        bytes_value(s) < pow2(8 * s.len()),
    decreases s.len(),
{
    if s.len() == 0 {
        lemma2_to64();
    } else {
        lemma_bytes_upper(s.drop_last());
        lemma_pow2_byte_step((s.len() - 1) as nat);
        let w = pow2(8 * (s.len() - 1) as nat);
        assert(bytes_value(s.drop_last()) * 256 + (s.last() as nat) < w * 256) by (nonlinear_arith)
            requires
                bytes_value(s.drop_last()) < w,
                s.last() < 256,
        ;
    }
}

/// A string of zero bytes has value zero.
pub proof fn lemma_bytes_zeros(s: Seq<u8>)
    requires
        forall|i: int| 0 <= i < s.len() ==> s[i] == 0,
    ensures
        bytes_value(s) == 0,
    decreases s.len(),
{
    if s.len() > 0 {
        lemma_bytes_zeros(s.drop_last());
    }
}

/// Reads `bytes[start..end]`, at most eight bytes, as a big-endian word.
fn be_word(bytes: &[u8], start: usize, end: usize) -> (r: u64)
    requires
        start <= end <= bytes@.len(),
        end - start <= 8,
    ensures
        r as nat == bytes_value(bytes@.subrange(start as int, end as int)),
{
    let mut v: u64 = 0;
    let mut i = start;
    proof {
        lemma2_to64();
        assert(bytes@.subrange(start as int, start as int) =~= Seq::<u8>::empty());
    }
    while i < end
        invariant
            start <= i <= end <= bytes@.len(),
            end - start <= 8,
            v as nat == bytes_value(bytes@.subrange(start as int, i as int)),
            v < pow2(8 * (i - start) as nat),
        decreases end - i,
    {
        let ghost k = (i - start) as nat;
        proof {
            lemma_pow2_byte_step(k);
            lemma2_to64();
            if k < 7 {
                lemma_pow2_strictly_increases(8 * k, 56);
            }
            lemma_pow2_adds(56, 8);
            assert(v * 256 + 255 < pow2(64)) by (nonlinear_arith)
                requires
                    v < pow2(56) || v < pow2(8 * k) && pow2(8 * k) <= pow2(56),
                    pow2(64) == pow2(56) * 256,
                    k <= 7,
            ;
            assert(bytes@.subrange(start as int, i + 1).drop_last() =~= bytes@.subrange(
                start as int,
                i as int,
            ));
            assert(v * 256 + bytes@[i as int] < pow2(8 * k) * 256) by (nonlinear_arith)
                requires
                    v < pow2(8 * k),
                    bytes@[i as int] < 256,
            ;
        }
        v = v * 256 + bytes[i] as u64;
        i += 1;
    }
    v
}

/// Converts a big-endian byte string into little-endian limbs of the same value.
pub fn limbs_from_be_bytes(bytes: &[u8]) -> (r: Vec<u64>)
    ensures
        limbs_value(r@) == bytes_value(bytes@),
{
    let n = bytes.len();
    let mut limbs: Vec<u64> = Vec::new();
    let mut end = n;
    proof {
        assert(bytes@.subrange(n as int, n as int) =~= Seq::<u8>::empty());
    }
    while end > 0
        invariant
            end <= n == bytes@.len(),
            end == 0 || n - end == 8 * limbs@.len(),
            limbs_value(limbs@) == bytes_value(bytes@.subrange(end as int, n as int)),
        decreases end,
    {
        let start = if end >= 8 {
            end - 8
        } else {
            0
        };
        let word = be_word(bytes, start, end);
        proof {
            let chunk = bytes@.subrange(start as int, end as int);
            let tail = bytes@.subrange(end as int, n as int);
            assert(bytes@.subrange(start as int, n as int) =~= chunk + tail);
            lemma_bytes_concat(chunk, tail);
            lemma_limbs_push(limbs@, word);
            assert(8 * tail.len() == 64 * limbs@.len());
        }
        limbs.push(word);
        end = start;
    }
    proof {
        assert(bytes@.subrange(0, n as int) =~= bytes@);
    }
    limbs
}

/// Removes most-significant zero limbs, which does not change the value.
pub fn normalize(limbs: Vec<u64>) -> (r: Vec<u64>)
    ensures
        is_normalized(r@),
        limbs_value(r@) == limbs_value(limbs@),
{
    let ghost v0 = limbs_value(limbs@);
    let mut limbs = limbs;
    while limbs.len() > 0 && limbs[limbs.len() - 1] == 0
        invariant
            limbs_value(limbs@) == v0,
        decreases limbs.len(),
    {
        let ghost before = limbs@;
        limbs.pop();
        proof {
            assert(limbs@ =~= before.drop_last());
            assert(before.last() == 0);
            vstd::arithmetic::mul::lemma_mul_basics(pow2((64 * (before.len() - 1)) as nat) as int);
        }
    }
    limbs
}

/// Writes `word` big-endian into `out[end - 8..end]`, leaving the rest unchanged.
fn write_be_word(out: &mut Share, end: usize, word: u64)
    requires
        8 <= end <= 1216,
    ensures
        forall|j: int|
            0 <= j < 1216 && !(end - 8 <= j < end) ==> #[trigger] final(out)@[j] == old(out)@[j],
        bytes_value(final(out)@.subrange(end - 8, end as int)) == word as nat,
{
    let ghost orig = out@;
    let mut w = word;
    let mut k: usize = 0;
    proof {
        lemma2_to64();
        assert(out@.subrange(end as int, end as int) =~= Seq::<u8>::empty());
        assert(pow2(8 * 0nat) == 1);
        lemma_div_basics(word as int);
        assert((word as nat) % 1 == 0);
    }
    while k < 8
        invariant
            k <= 8,
            8 <= end <= 1216,
            out@.len() == 1216,
            forall|j: int|
                0 <= j < 1216 && !(end - k <= j < end) ==> #[trigger] out@[j] == orig[j],
            w as nat == (word as nat) / pow2(8 * k as nat),
            bytes_value(out@.subrange(end - k, end as int)) == (word as nat) % pow2(8 * k as nat),
        decreases 8 - k,
    {
        let ghost before = out@;
        let ghost q = pow2(8 * k as nat);
        let b = (w % 256) as u8;
        out[end - 1 - k] = b;
        proof {
            lemma_pow2_byte_step(k as nat);
            lemma_pow2_pos(8 * k as nat);
            assert(out@.subrange(end - k - 1, end as int) =~= seq![b] + before.subrange(
                end - k,
                end as int,
            ));
            lemma_bytes_concat(seq![b], before.subrange(end - k, end as int));
            assert(seq![b].drop_last() =~= Seq::<u8>::empty());
            assert(bytes_value(Seq::<u8>::empty()) == 0);
            assert(seq![b].last() == b);
            assert(bytes_value(seq![b]) == b as nat);
            lemma_breakdown(word as int, q as int, 256);
            lemma_div_denominator(word as int, q as int, 256);
            assert(b as nat == ((word as nat) / q) % 256);
            assert(bytes_value(out@.subrange(end - k - 1, end as int)) == (b as nat) * q + (word as nat) % q);
            assert((b as nat) * q == q * (b as nat)) by (nonlinear_arith);
            assert(pow2(8 * (k + 1) as nat) == q * 256);
        }
        w = w / 256;
        k += 1;
    }
    proof {
        lemma_small_mod(word as nat, pow2(64));
    }
}

/// Serializes limbs big-endian into a share, left-padded with zeros.
pub fn share_from_limbs(limbs: &Vec<u64>) -> (r: Share)
    requires
        limbs@.len() <= 152,
    ensures
        bytes_value(r@) == limbs_value(limbs@),
{
    let mut out: Share = [0u8; 1216];
    let n = limbs.len();
    let mut i: usize = 0;
    proof {
        assert(out@.subrange(1216, 1216) =~= Seq::<u8>::empty());
        assert(limbs@.take(0) =~= Seq::<u64>::empty());
    }
    while i < n
        invariant
            i <= n == limbs@.len() <= 152,
            out@.len() == 1216,
            forall|j: int| 0 <= j < 1216 - 8 * i ==> #[trigger] out@[j] == 0,
            bytes_value(out@.subrange(1216 - 8 * i, 1216)) == limbs_value(limbs@.take(i as int)),
        decreases n - i,
    {
        let ghost before = out@;
        let end = 1216 - 8 * i;
        write_be_word(&mut out, end, limbs[i]);
        proof {
            let chunk = out@.subrange(end - 8, end as int);
            assert(out@.subrange(end - 8, 1216) =~= chunk + before.subrange(end as int, 1216));
            assert(out@.subrange(end as int, 1216) =~= before.subrange(end as int, 1216));
            lemma_bytes_concat(chunk, before.subrange(end as int, 1216));
            assert(limbs@.take(i + 1) =~= limbs@.take(i as int).push(limbs@[i as int]));
            lemma_limbs_push(limbs@.take(i as int), limbs@[i as int]);
            assert(8 * (8 * i) == 64 * i) by (nonlinear_arith);
        }
        i += 1;
    }
    proof {
        let zeros = out@.subrange(0, 1216 - 8 * n);
        let tail = out@.subrange(1216 - 8 * n, 1216);
        assert(out@ =~= zeros + tail);
        lemma_bytes_zeros(zeros);
        lemma_bytes_concat(zeros, tail);
        assert(limbs@.take(n as int) =~= limbs@);
    }
    out
}

/// Drops the leading zero bytes of a big-endian string, keeping its value.
pub fn strip_leading_zeros(s: &[u8]) -> (r: Vec<u8>)
    ensures
        bytes_value(r@) == bytes_value(s@),
        r@.len() == 0 || r@[0] != 0,
{
    let n = s.len();
    let mut first: usize = 0;
    while first < n && s[first] == 0
        invariant
            first <= n == s@.len(),
            forall|j: int| 0 <= j < first ==> s@[j] == 0,
        decreases n - first,
    {
        first += 1;
    }
    let mut r: Vec<u8> = Vec::new();
    let mut j = first;
    while j < n
        invariant
            first <= j <= n == s@.len(),
            r@ =~= s@.subrange(first as int, j as int),
        decreases n - j,
    {
        r.push(s[j]);
        j += 1;
    }
    proof {
        let zeros = s@.subrange(0, first as int);
        assert(s@ =~= zeros + r@);
        lemma_bytes_zeros(zeros);
        lemma_bytes_concat(zeros, r@);
    }
    r
}

} // verus!
