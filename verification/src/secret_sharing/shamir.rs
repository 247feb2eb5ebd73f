//! Shamir secret sharing and its reconstruction by Lagrange interpolation.

use crate::bytes::bytes_value;
use crate::errors::ShamirError;
use crate::algebra::{
    lemma_cancel, lemma_comm_assoc, lemma_identities, lemma_ops_as_residues, lemma_residue_reduced,
};
use crate::field::{fadd, fint, fmul, fsub, invertible, lemma_element_bound, lemma_modulus, modulus, Element};
use crate::interpolation::{
    are_lagrange_constants, basis_denominator, basis_numerator, evaluations, is_permutation,
    lagrange_weights, lemma_constants_unique, lemma_interpolation_reordered,
    lemma_weighted_sum_unit, permute, unit, lemma_denominator_not_invertible, lemma_invertible_mul,
    lemma_invertible_factors, lemma_lagrange_interpolation, lemma_product_factors_invertible,
    lemma_product_reduced, pairwise_invertible, product_except,
};
use crate::secret_sharing::evaluation::lemma_eval_reduced;
use crate::rng::os_seeded_rng;
use crate::secret_sharing::{all_reduced, poly_eval, values, Polynomial};
use crate::Share;
use rand_chacha::ChaCha20Rng;
use std::sync::mpsc::Receiver;
use vstd::prelude::*;

verus! {

/// A threshold, a number of shares, and the random generator that draws the
/// sharing polynomials.
#[derive(Debug)]
pub struct Parameters {
    threshold: usize,
    nb_of_shares: usize,
    chacha_rand: ChaCha20Rng,
}

impl Parameters {
    /// The threshold is at least 2 and at most the number of shares.
    pub closed spec fn well_formed(&self) -> bool {
        2 <= self.threshold <= self.nb_of_shares
    }

    /// The threshold.
    pub closed spec fn spec_threshold(&self) -> usize {
        self.threshold
    }

    /// The number of shares.
    pub closed spec fn spec_nb_of_shares(&self) -> usize {
        self.nb_of_shares
    }

    /// The random generator.
    pub closed spec fn spec_chacha_rand(&self) -> ChaCha20Rng {
        self.chacha_rand
    }

    /// A valid threshold and number of shares, with a generator seeded from
    /// the operating system.
    ///
    /// Errors: the threshold exceeds the number of shares, or it is below 2.
    pub fn new(threshold: usize, nb_of_shares: usize) -> (r: Result<Parameters, ShamirError>)
        ensures
            threshold > nb_of_shares ==> r == Err::<Parameters, ShamirError>(
                ShamirError::ThresholdGreaterThanNbOfShares {
                    threshold,
                    number_of_shares: nb_of_shares,
                },
            ),
            threshold <= nb_of_shares && threshold <= 1 ==> r == Err::<Parameters, ShamirError>(
                ShamirError::ThresholdTooSmall,
            ),
            threshold <= nb_of_shares && threshold > 1 ==> (r matches Ok(p) && p.well_formed()
                && p.spec_threshold() == threshold && p.spec_nb_of_shares() == nb_of_shares),
    {
        if threshold > nb_of_shares {
            return Err(
                ShamirError::ThresholdGreaterThanNbOfShares {
                    threshold,
                    number_of_shares: nb_of_shares,
                },
            );
        }
        if threshold <= 1 {
            return Err(ShamirError::ThresholdTooSmall);
        }
        let chacha_rand = os_seeded_rng();
        Ok(Parameters { threshold, nb_of_shares, chacha_rand })
    }

    /// The threshold: the number of shares that recover the secret.
    #[verifier::when_used_as_spec(spec_threshold)]
    pub fn threshold(&self) -> (r: usize)
        ensures
            r == self.spec_threshold(),
            self.well_formed() ==> 2 <= r <= self.spec_nb_of_shares(),
    {
        self.threshold
    }

    /// The random generator, to draw from it elsewhere: what is drawn
    /// through the reference advances the parameters' own generator.
    pub fn chacha_rand(&mut self) -> (r: &mut ChaCha20Rng)
        ensures
            *r == old(self).spec_chacha_rand(),
            final(self).spec_chacha_rand() == *final(r),
            final(self).spec_threshold() == old(self).spec_threshold(),
            final(self).spec_nb_of_shares() == old(self).spec_nb_of_shares(),
            final(self).well_formed() == old(self).well_formed(),
    {
        &mut self.chacha_rand
    }

    /// The number of shares produced.
    #[verifier::when_used_as_spec(spec_nb_of_shares)]
    pub fn nb_of_shares(&self) -> (r: usize)
        ensures
            r == self.spec_nb_of_shares(),
    {
        self.nb_of_shares
    }
}

/// `shares` are the values at 1, 2, ..., of a polynomial with `k` reduced
/// coefficients whose constant term is `secret`.
pub open spec fn is_sharing(secret: nat, k: nat, shares: Seq<Share>) -> bool {
    exists|c: Seq<nat>|
        c.len() == k && all_reduced(c) && c[0] == secret && forall|i: int|
            0 <= i < shares.len() ==> bytes_value(#[trigger] shares[i]@) == poly_eval(c, (i + 1) as nat)
}

/// The reduced coefficients of a polynomial.
proof fn lemma_coefficients_reduced(p: &Polynomial)
    ensures
        all_reduced(p@),
{
    assert forall|i: int| 0 <= i < p@.len() implies #[trigger] p@[i] < modulus() by {
        lemma_element_bound(p.0@[i]);
    }
}

/// Shares a secret with Shamir's scheme: the values at 1, ..., n of a
/// polynomial of degree threshold - 1 whose constant term is the secret and
/// whose other coefficients are random.
pub fn shamir(secret: &Share, parameters: &mut Parameters) -> (r: Vec<Share>)
    requires
        old(parameters).well_formed(),
    ensures
        final(parameters).well_formed(),
        final(parameters).spec_threshold() == old(parameters).spec_threshold(),
        final(parameters).spec_nb_of_shares() == old(parameters).spec_nb_of_shares(),
        r@.len() == old(parameters).spec_nb_of_shares(),
        is_sharing(bytes_value(secret@) % modulus(), old(parameters).spec_threshold() as nat, r@),
{
    let degree = parameters.threshold - 1;
    let polynomial = Polynomial::new_shamir(secret, degree, &mut parameters.chacha_rand);
    let shares = polynomial.shamir_shares(parameters.nb_of_shares);
    proof {
        lemma_coefficients_reduced(&polynomial);
        assert(shares@.len() == parameters.nb_of_shares);
    }
    shares
}

/// The receiving end of a standard channel, carried through unopened.
#[verifier::external_type_specification]
#[verifier::external_body]
#[verifier::reject_recursive_types(T)]
pub struct ExReceiver<T>(Receiver<T>);

/// The next element sent on the channel (`Receiver::recv`), or `None` once
/// every sender has hung up. Which element comes is left unsaid: it is
/// whatever the sending side produced.
#[verifier::external_body]
fn receive_element(rx: &Receiver<Element>) -> Option<Element> {
    rx.recv().ok()
}

/// Shares secrets with Shamir's scheme, taking the random coefficients from a
/// channel that another thread keeps filled.
pub struct Shamirizer {
    random_shares: Receiver<Element>,
    degree: usize,
    n: usize,
}

impl Shamirizer {
    /// A sharer of polynomials of degree `degree` into `n` shares, fed with
    /// random elements by `random_shares`.
    pub fn new(random_shares: Receiver<Element>, degree: usize, n: usize) -> (r: Shamirizer)
        ensures
            r.spec_degree() == degree,
            r.spec_n() == n,
    {
        Shamirizer { random_shares, degree, n }
    }

    /// The degree of the sharing polynomials.
    pub closed spec fn spec_degree(&self) -> usize {
        self.degree
    }

    /// The number of shares.
    pub closed spec fn spec_n(&self) -> usize {
        self.n
    }

    /// Shares a secret: the values at 1, ..., n of a polynomial whose constant
    /// term is the secret and whose other coefficients come from the channel.
    /// `None` when the channel closes before enough coefficients came; a
    /// sharing of degree 0 takes nothing from the channel and always succeeds.
    /// Once the coefficients are in, the shares are those of
    /// `shamirize_with`, for every number of shares.
    pub fn shamirize(&self, secret: &Share) -> (r: Option<Vec<Share>>)
        ensures
            self.spec_degree() == 0 ==> r is Some,
            r matches Some(shares) ==> shares@.len() == self.spec_n() && is_sharing(
                bytes_value(secret@) % modulus(),
                (self.spec_degree() + 1) as nat,
                shares@,
            ),
    {
        let mut random: Vec<Element> = Vec::new();
        let mut k: usize = 0;
        while k < self.degree
            invariant
                k <= self.degree,
                random@.len() == k,
            decreases self.degree - k,
        {
            match receive_element(&self.random_shares) {
                Some(e) => random.push(e),
                None => return None,
            }
            k += 1;
        }
        let ghost c = seq![bytes_value(secret@) % modulus()] + values(random@);
        let shares = self.shamirize_with(secret, random);
        proof {
            lemma_modulus();
            assert forall|i: int| 0 <= i < c.len() implies #[trigger] c[i] < modulus() by {
                if i > 0 {
                    lemma_element_bound(random@[i - 1]);
                }
            }
            assert(c.len() == self.degree + 1);
            assert(c[0] == bytes_value(secret@) % modulus());
            assert(forall|i: int|
                0 <= i < shares@.len() ==> bytes_value(#[trigger] shares@[i]@) == poly_eval(c, (i + 1) as nat));
        }
        Some(shares)
    }

    /// Shares a secret with the given random coefficients: the values at
    /// 1, ..., n of the polynomial whose constant term is the secret and whose
    /// coefficients of x, x^2, ..., x^degree are `random`, in that order. Every
    /// number of shares is served, as many as the threshold or fewer included.
    pub fn shamirize_with(&self, secret: &Share, random: Vec<Element>) -> (r: Vec<Share>)
        requires
            random@.len() == self.spec_degree(),
        ensures
            r@.len() == self.spec_n(),
            forall|i: int|
                0 <= i < self.spec_n() ==> bytes_value(#[trigger] r@[i]@) == poly_eval(
                    seq![bytes_value(secret@) % modulus()] + values(random@),
                    (i + 1) as nat,
                ),
    {
        let ghost tail = random@;
        let mut coefficients = random;
        let constant = Element::from_share(secret);
        coefficients.insert(0, constant);
        let polynomial = Polynomial(coefficients);
        proof {
            assert(values(tail.insert(0, constant)) =~= seq![bytes_value(secret@) % modulus()] + values(tail));
        }
        polynomial.shamir_shares(self.n)
    }
}

/// The field values of integer abscissas.
pub open spec fn abscissas(xs: Seq<i32>) -> Seq<nat> {
    xs.map_values(|x: i32| fint(x as int))
}

/// Product in the field of a sequence, folded from the left.
pub open spec fn field_product(s: Seq<nat>) -> nat
    decreases s.len(),
{
    if s.len() == 0 {
        1
    } else {
        fmul(field_product(s.drop_last()), s.last())
    }
}

/// x_i times the product of the (x_j - x_i) for j < `j`, j != i.
pub open spec fn partial_denominator(x: Seq<nat>, i: int, j: int) -> nat
    decreases j,
{
    if j <= 0 {
        x[i]
    } else if j - 1 == i {
        partial_denominator(x, i, j - 1)
    } else {
        fmul(partial_denominator(x, i, j - 1), fsub(x[j - 1], x[i]))
    }
}

/// Denominator of the i-th Lagrange factor at zero: x_i times the product of
/// the (x_j - x_i) over j != i.
pub open spec fn lagrange_denominator(x: Seq<nat>, i: int) -> nat {
    partial_denominator(x, i, x.len() as int)
}

/// Two entries of the sequence are equal.
pub open spec fn has_duplicates(x: Seq<nat>) -> bool {
    exists|i: int, j: int| 0 <= i < j < x.len() && x[i] == x[j]
}

/// Every Lagrange denominator is invertible.
pub open spec fn denominators_invertible(x: Seq<nat>) -> bool {
    forall|i: int| 0 <= i < x.len() ==> invertible(#[trigger] lagrange_denominator(x, i))
}

/// `f` are Lagrange factors at zero of the points `x`: f_i times the i-th
/// denominator is the product of all the points.
pub open spec fn are_lagrange_factors(x: Seq<nat>, f: Seq<nat>) -> bool {
    f.len() == x.len() && forall|i: int|
        0 <= i < x.len() ==> fmul(#[trigger] f[i], lagrange_denominator(x, i)) == field_product(x)
}

/// Computes the Lagrange factors at zero for the abscissas `xs`: factor i is
/// the product of all x_j divided by x_i times the product of the (x_j - x_i)
/// over j != i, that is the product of x_j / (x_j - x_i) over j != i.
///
/// Errors: two abscissas are equal (`IdenticalAbsc`); a denominator has no
/// inverse (`NotInvertible`, which the prime modulus rules out). Distinct
/// abscissas must be nonzero: a zero one makes its denominator zero.
pub fn get_lagrange_factors(xs: &[i32]) -> (r: Result<Vec<Element>, ShamirError>)
    requires
        has_duplicates(abscissas(xs@)) || forall|i: int| 0 <= i < xs@.len() ==> xs@[i] != 0,
    ensures
        has_duplicates(abscissas(xs@)) ==> r == Err::<Vec<Element>, ShamirError>(
            ShamirError::IdenticalAbsc,
        ),
        !has_duplicates(abscissas(xs@)) && !denominators_invertible(abscissas(xs@)) ==> r == Err::<
            Vec<Element>,
            ShamirError,
        >(ShamirError::NotInvertible),
        !has_duplicates(abscissas(xs@)) && denominators_invertible(abscissas(xs@)) ==> (r matches Ok(
            f,
        ) && are_lagrange_factors(abscissas(xs@), values(f@))),
{
    let n = xs.len();
    let ghost x = abscissas(xs@);
    let mut points: Vec<Element> = Vec::new();
    let mut k: usize = 0;
    while k < n
        invariant
            k <= n == xs@.len(),
            x == abscissas(xs@),
            points@.len() == k,
            forall|j: int| 0 <= j < k ==> #[trigger] points@[j]@ == x[j],
        decreases n - k,
    {
        points.push(Element::from_i32(xs[k]));
        k += 1;
    }
    let mut product = Element::one();
    let mut k: usize = 0;
    proof {
        assert(x.subrange(0, 0) =~= Seq::<nat>::empty());
    }
    while k < n
        invariant
            k <= n == xs@.len() == x.len() == points@.len(),
            forall|j: int| 0 <= j < n ==> #[trigger] points@[j]@ == x[j],
            product@ == field_product(x.subrange(0, k as int)),
        decreases n - k,
    {
        product = product.mul(&points[k]);
        proof {
            assert(x.subrange(0, k + 1).drop_last() =~= x.subrange(0, k as int));
        }
        k += 1;
    }
    proof {
        assert(x.subrange(0, n as int) =~= x);
    }
    let mut denominators: Vec<Element> = Vec::new();
    let mut i: usize = 0;
    while i < n
        invariant
            i <= n == x.len() == points@.len(),
            x == abscissas(xs@),
            forall|j: int| 0 <= j < n ==> #[trigger] points@[j]@ == x[j],
            denominators@.len() == i,
            forall|a: int| 0 <= a < i ==> #[trigger] denominators@[a]@ == lagrange_denominator(x, a),
            forall|a: int, b: int| 0 <= a < i && 0 <= b < n && a != b ==> x[a] != x[b],
        decreases n - i,
    {
        let mut den = points[i].duplicate();
        let mut j: usize = 0;
        while j < n
            invariant
                i < n == x.len() == points@.len(),
                x == abscissas(xs@),
                forall|c: int| 0 <= c < n ==> #[trigger] points@[c]@ == x[c],
                j <= n,
                den@ == partial_denominator(x, i as int, j as int),
                forall|b: int| 0 <= b < j && b != i ==> x[i as int] != x[b],
            decreases n - j,
        {
            if i != j {
                if points[i].equals(&points[j]) {
                    proof {
                        if i < j {
                            assert(x[i as int] == x[j as int]);
                        } else {
                            assert(x[j as int] == x[i as int]);
                        }
                    }
                    return Err(ShamirError::IdenticalAbsc);
                }
                den = den.mul(&points[j].sub(&points[i]));
            }
            j += 1;
        }
        denominators.push(den);
        i += 1;
    }
    proof {
        assert(!has_duplicates(x)) by {
            if has_duplicates(x) {
                let (a, b) = choose|a: int, b: int| 0 <= a < b < x.len() && x[a] == x[b];
                assert(x[a] != x[b]);
            }
        }
    }
    let mut factors: Vec<Element> = Vec::new();
    let mut i: usize = 0;
    while i < n
        invariant
            i <= n == x.len() == denominators@.len(),
            x == abscissas(xs@),
            !has_duplicates(x),
            forall|a: int| 0 <= a < n ==> #[trigger] denominators@[a]@ == lagrange_denominator(x, a),
            product@ == field_product(x),
            factors@.len() == i,
            forall|a: int| 0 <= a < i ==> invertible(#[trigger] lagrange_denominator(x, a)),
            forall|a: int|
                0 <= a < i ==> fmul(#[trigger] factors@[a]@, lagrange_denominator(x, a)) == field_product(x),
        decreases n - i,
    {
        match product.div(&denominators[i]) {
            Some(q) => factors.push(q),
            None => {
                proof {
                    assert(!invertible(lagrange_denominator(x, i as int)));
                }
                return Err(ShamirError::NotInvertible);
            },
        }
        i += 1;
    }
    proof {
        assert(values(factors@).len() == n);
        assert forall|a: int| 0 <= a < n implies fmul(#[trigger] values(factors@)[a],
            lagrange_denominator(x, a)) == field_product(x) by {
            assert(values(factors@)[a] == factors@[a]@);
        }
    }
    Ok(factors)
}

/// The field value of a share.
pub open spec fn share_value(y: Share) -> nat {
    bytes_value(y@) % modulus()
}

/// The field values of shares.
pub open spec fn share_values(ys: Seq<Share>) -> Seq<nat> {
    ys.map_values(|y: Share| share_value(y))
}

/// Sum over i < k of y_i * f_i in the field.
pub open spec fn weighted_sum(f: Seq<nat>, y: Seq<nat>, k: nat) -> nat
    decreases k,
{
    if k == 0 {
        0
    } else {
        fadd(weighted_sum(f, y, (k - 1) as nat), fmul(y[k - 1], f[k - 1]))
    }
}

/// The smaller of two lengths.
pub open spec fn min_len(a: nat, b: nat) -> nat {
    if a <= b {
        a
    } else {
        b
    }
}

/// Reconstructs a value from shares and Lagrange factors: the sum of the
/// shares weighted by the factors, over as many pairs as both provide.
pub fn lagrange(factors: &[Element], ys: &[Share]) -> (r: Result<Share, ShamirError>)
    ensures
        r matches Ok(s) && bytes_value(s@) == weighted_sum(
            values(factors@),
            share_values(ys@),
            min_len(factors@.len(), ys@.len()),
        ),
{
    let k = if factors.len() <= ys.len() {
        factors.len()
    } else {
        ys.len()
    };
    let mut secret = Element::zero();
    let mut i: usize = 0;
    while i < k
        invariant
            i <= k == min_len(factors@.len(), ys@.len()),
            k <= factors@.len(),
            k <= ys@.len(),
            secret@ == weighted_sum(values(factors@), share_values(ys@), i as nat),
        decreases k - i,
    {
        let term = Element::from_share(&ys[i]).mul(&factors[i]);
        secret = secret.add(&term);
        proof {
            assert(i < ys@.len());
            assert(share_values(ys@).len() == ys@.len());
            assert(share_values(ys@)[i as int] == bytes_value(ys@[i as int]@) % modulus());
            assert(values(factors@)[i as int] == factors@[i as int]@);
        }
        i += 1;
    }
    Ok(secret.to_share())
}

/// The partial denominator is x_i times the product of the (x_j - x_i).
proof fn lemma_partial_denominator(x: Seq<nat>, i: int, j: int)
    requires
        0 <= i < x.len(),
        x[i] < modulus(),
    ensures
        partial_denominator(x, i, j) == fmul(x[i], product_except(x, i, x[i], j)),
    decreases j,
{
    if j <= 0 {
        lemma_identities(x[i]);
        lemma_residue_reduced(x[i]);
    } else {
        lemma_partial_denominator(x, i, j - 1);
        if j - 1 != i {
            lemma_comm_assoc(x[i], product_except(x, i, x[i], j - 1), fsub(x[j - 1], x[i]));
        }
    }
}

/// The product of the first j points, split around point i.
proof fn lemma_product_split(x: Seq<nat>, i: int, j: int)
    requires
        0 <= i < x.len(),
        0 <= j <= x.len(),
        all_reduced(x),
    ensures
        field_product(x.subrange(0, j)) == if j > i {
            fmul(x[i], product_except(x, i, 0, j))
        } else {
            product_except(x, i, 0, j)
        },
    decreases j,
{
    if j > 0 {
        lemma_product_split(x, i, j - 1);
        assert(x.subrange(0, j).drop_last() =~= x.subrange(0, j - 1));
        assert(x.subrange(0, j).last() == x[j - 1]);
        lemma_identities(x[j - 1]);
        lemma_residue_reduced(x[j - 1]);
        let pe = product_except(x, i, 0, j - 1);
        if j - 1 < i {
        } else if j - 1 == i {
            lemma_comm_assoc(pe, x[i], 0);
        } else {
            lemma_comm_assoc(x[i], pe, x[j - 1]);
        }
    }
}

/// Lagrange factors at zero of nonzero points with invertible denominators
/// are the Lagrange constants of the points at zero; the points then have
/// invertible differences.
proof fn lemma_factors_are_constants(x: Seq<nat>, f: Seq<nat>)
    requires
        all_reduced(x),
        all_reduced(f),
        denominators_invertible(x),
        are_lagrange_factors(x, f),
    ensures
        are_lagrange_constants(x, 0, f),
        pairwise_invertible(x),
{
    let n = x.len() as int;
    assert forall|i: int| 0 <= i < n implies fmul(#[trigger] f[i], basis_denominator(x, i)) == basis_numerator(
        x,
        i,
        0,
    ) by {
        let d = basis_denominator(x, i);
        let num = basis_numerator(x, i, 0);
        lemma_partial_denominator(x, i, n);
        lemma_product_split(x, i, n);
        assert(x.subrange(0, n) =~= x);
        assert(invertible(lagrange_denominator(x, i)));
        lemma_invertible_factors(x[i], d);
        // f_i (x_i d) = x_i num, so x_i (f_i d) = x_i num.
        lemma_comm_assoc(f[i], x[i], d);
        lemma_comm_assoc(x[i], f[i], d);
        lemma_comm_assoc(f[i], x[i], 0);
        lemma_ops_as_residues(f[i], d);
        lemma_product_reduced(x, i, 0, n);
        lemma_cancel(x[i], fmul(f[i], d), num);
    }
    assert forall|i: int, j: int| 0 <= i < n && 0 <= j < n && i != j implies invertible(
        #[trigger] fsub(x[i], x[j]),
    ) by {
        lemma_partial_denominator(x, j, n);
        assert(invertible(lagrange_denominator(x, j)));
        lemma_invertible_factors(x[j], basis_denominator(x, j));
        lemma_product_factors_invertible(x, j, x[j], n);
    }
}

/// Shamir reconstruction: k shares of a sharing with threshold k, taken at
/// k abscissas whose Lagrange factors at zero exist, weighted by those
/// factors, sum to the secret.
pub proof fn lemma_shamir_reconstruction(
    secret: nat,
    k: nat,
    shares: Seq<Share>,
    xs: Seq<i32>,
    ys: Seq<Share>,
    factors: Seq<Element>,
)
    requires
        k >= 1,
        is_sharing(secret, k, shares),
        xs.len() == k,
        ys.len() == k,
        forall|i: int|
            0 <= i < k ==> 1 <= #[trigger] xs[i] <= shares.len() && ys[i] == shares[xs[i] - 1],
        denominators_invertible(abscissas(xs)),
        are_lagrange_factors(abscissas(xs), values(factors)),
    ensures
        weighted_sum(values(factors), share_values(ys), k) == secret,
{
    let x = abscissas(xs);
    let f = values(factors);
    let c = choose|c: Seq<nat>|
        c.len() == k && all_reduced(c) && c[0] == secret && forall|i: int|
            0 <= i < shares.len() ==> bytes_value(#[trigger] shares[i]@) == poly_eval(c, (i + 1) as nat);
    lemma_modulus();
    assert forall|i: int| 0 <= i < k implies #[trigger] x[i] == xs[i] as nat by {
        lemma_residue_reduced(xs[i] as nat);
    }
    assert(all_reduced(x));
    assert forall|i: int| 0 <= i < f.len() implies #[trigger] f[i] < modulus() by {
        lemma_element_bound(factors[i]);
    }
    lemma_factors_are_constants(x, f);
    assert forall|i: int| 0 <= i < k implies #[trigger] share_values(ys)[i] == evaluations(c, x)[i] by {
        let j = xs[i] - 1;
        assert(bytes_value(shares[j]@) == poly_eval(c, (j + 1) as nat));
        lemma_eval_reduced(c, x[i]);
        lemma_residue_reduced(poly_eval(c, x[i]));
    }
    assert(share_values(ys) =~= evaluations(c, x));
    lemma_lagrange_interpolation(x, 0, c, f);
    lemma_identities(fmul(poly_eval(c.drop_first(), 0), 0));
    lemma_identities(poly_eval(c.drop_first(), 0));
    lemma_identities(c[0]);
    lemma_residue_reduced(c[0]);
}

/// The abscissas are reduced field values.
proof fn lemma_abscissas_reduced(xs: Seq<i32>)
    ensures
        all_reduced(abscissas(xs)),
{
    assert forall|i: int| 0 <= i < xs.len() implies #[trigger] abscissas(xs)[i] < modulus() by {
        lemma_ops_as_residues(0, 0);
        crate::algebra::lemma_residue_absorbs(xs[i] as int, 0);
    }
}

/// Lagrange factors are reduced, and with invertible denominators they are
/// the Lagrange weights at zero.
proof fn lemma_factors_are_weights(xs: Seq<i32>, factors: Seq<Element>)
    requires
        denominators_invertible(abscissas(xs)),
        are_lagrange_factors(abscissas(xs), values(factors)),
    ensures
        values(factors) == lagrange_weights(abscissas(xs), 0),
        pairwise_invertible(abscissas(xs)),
        all_reduced(abscissas(xs)),
{
    let f = values(factors);
    assert forall|i: int| 0 <= i < f.len() implies #[trigger] f[i] < modulus() by {
        lemma_element_bound(factors[i]);
    }
    lemma_abscissas_reduced(xs);
    lemma_factors_are_constants(abscissas(xs), f);
    lemma_constants_unique(abscissas(xs), 0, f);
}

/// Reordering the abscissas reorders their Lagrange factors the same way.
pub proof fn lemma_factors_reordered(
    xs1: Seq<i32>,
    xs2: Seq<i32>,
    pi: Seq<int>,
    factors1: Seq<Element>,
    factors2: Seq<Element>,
)
    requires
        is_permutation(pi, xs1.len()),
        xs2.len() == xs1.len(),
        forall|i: int| 0 <= i < xs2.len() ==> #[trigger] xs2[i] == xs1[pi[i]],
        denominators_invertible(abscissas(xs1)),
        are_lagrange_factors(abscissas(xs1), values(factors1)),
        denominators_invertible(abscissas(xs2)),
        are_lagrange_factors(abscissas(xs2), values(factors2)),
    ensures
        forall|i: int| 0 <= i < xs2.len() ==> #[trigger] factors2[i]@ == factors1[pi[i]]@,
{
    let n = xs1.len();
    let x1 = abscissas(xs1);
    let x2 = abscissas(xs2);
    lemma_factors_are_weights(xs1, factors1);
    lemma_factors_are_weights(xs2, factors2);
    assert(x2 =~= permute(x1, pi));
    let w1 = lagrange_weights(x1, 0);
    let w2 = lagrange_weights(x2, 0);
    assert forall|i: int| 0 <= i < n implies #[trigger] factors2[i]@ == factors1[pi[i]]@ by {
        let k = pi[i];
        assert(values(factors2)[i] == factors2[i]@);
        assert(values(factors1)[k] == factors1[k]@);
        assert(permute(unit(n, k), pi) =~= unit(n, i));
        assert forall|j: int| 0 <= j < n implies #[trigger] unit(n, k)[j] < modulus() by {
            lemma_modulus();
        }
        lemma_interpolation_reordered(x1, unit(n, k), 0, pi);
        lemma_weighted_sum_unit(w2, n, i, n);
        lemma_weighted_sum_unit(w1, n, k, n);
    }
}

/// Reconstruction does not depend on the order of the shares: the same
/// abscissa-share pairs in another order, with the factors of the reordered
/// abscissas, give the same result.
pub proof fn lemma_reconstruction_reordered(
    xs1: Seq<i32>,
    ys1: Seq<Share>,
    xs2: Seq<i32>,
    ys2: Seq<Share>,
    pi: Seq<int>,
    factors1: Seq<Element>,
    factors2: Seq<Element>,
)
    requires
        is_permutation(pi, xs1.len()),
        ys1.len() == xs1.len(),
        xs2.len() == xs1.len(),
        ys2.len() == xs1.len(),
        forall|i: int| 0 <= i < xs2.len() ==> #[trigger] xs2[i] == xs1[pi[i]] && ys2[i] == ys1[pi[i]],
        denominators_invertible(abscissas(xs1)),
        are_lagrange_factors(abscissas(xs1), values(factors1)),
        denominators_invertible(abscissas(xs2)),
        are_lagrange_factors(abscissas(xs2), values(factors2)),
    ensures
        weighted_sum(values(factors2), share_values(ys2), xs1.len()) == weighted_sum(
            values(factors1),
            share_values(ys1),
            xs1.len(),
        ),
{
    let x1 = abscissas(xs1);
    let x2 = abscissas(xs2);
    lemma_factors_are_weights(xs1, factors1);
    lemma_factors_are_weights(xs2, factors2);
    assert(x2 =~= permute(x1, pi));
    assert forall|i: int| 0 <= i < ys2.len() implies #[trigger] share_values(ys2)[i] == permute(
        share_values(ys1),
        pi,
    )[i] by {
        assert(xs2[i] == xs1[pi[i]]);
        assert(ys2[i] == ys1[pi[i]]);
    }
    assert(share_values(ys2) =~= permute(share_values(ys1), pi));
    assert forall|j: int| 0 <= j < ys1.len() implies #[trigger] share_values(ys1)[j] < modulus() by {
        lemma_modulus();
        vstd::arithmetic::div_mod::lemma_mod_bound(bytes_value(ys1[j]@) as int, modulus() as int);
    }
    lemma_interpolation_reordered(x1, share_values(ys1), 0, pi);
}

/// A nonzero 32-bit integer is a nonzero field value.
proof fn lemma_fint_nonzero(v: i32)
    requires
        v != 0,
    ensures
        fint(v as int) != 0,
{
    let m = modulus() as int;
    lemma_modulus();
    vstd::arithmetic::div_mod::lemma_fundamental_div_mod(v as int, m);
    let q = (v as int) / m;
    assert(m > 0x1_0000_0000_0000_0000);
    if fint(v as int) == 0 {
        assert((v as int) % m == 0);
        assert(v as int == m * q);
        if q > 0 {
            assert(m * q >= m) by (nonlinear_arith)
                requires
                    q > 0,
                    m > 0,
            ;
        } else if q < 0 {
            assert(m * q <= -m) by (nonlinear_arith)
                requires
                    q < 0,
                    m > 0,
            ;
        } else {
            assert(m * q == 0) by (nonlinear_arith)
                requires
                    q == 0,
            ;
        }
    }
}

/// With every nonzero residue invertible, as for the prime modulus, distinct
/// nonzero abscissas always have Lagrange factors: `NotInvertible` does not
/// occur.
pub proof fn lemma_factors_exist(xs: Seq<i32>)
    requires
        !has_duplicates(abscissas(xs)),
        forall|i: int| 0 <= i < xs.len() ==> xs[i] != 0,
        !crate::field::some_nonzero_not_invertible(),
    ensures
        denominators_invertible(abscissas(xs)),
{
    let x = abscissas(xs);
    lemma_abscissas_reduced(xs);
    assert forall|a: int, b: int| 0 <= a < x.len() && 0 <= b < x.len() && a != b implies x[a] != x[b] by {
        if a < b {
            assert(!(x[a] == x[b]));
        } else {
            assert(!(x[b] == x[a]));
        }
    }
    assert forall|i: int| 0 <= i < x.len() implies invertible(#[trigger] lagrange_denominator(x, i)) by {
        lemma_partial_denominator(x, i, x.len() as int);
        lemma_fint_nonzero(xs[i]);
        assert(x[i] != 0 && x[i] < modulus());
        assert(invertible(x[i]));
        if !invertible(basis_denominator(x, i)) {
            lemma_denominator_not_invertible(x, i);
        }
        lemma_invertible_mul(x[i], basis_denominator(x, i));
    }
}

/// The Lagrange factors of abscissas are their Lagrange constants at zero:
/// what `get_lagrange_factors` returns equals what
/// `LagrangeConstants::compute` returns for the point zero and the same
/// abscissas.
pub proof fn lemma_factors_are_constants_at_zero(xs: Seq<i32>, factors: Seq<Element>, constants: Seq<nat>)
    requires
        denominators_invertible(abscissas(xs)),
        are_lagrange_factors(abscissas(xs), values(factors)),
        are_lagrange_constants(abscissas(xs), 0, constants),
        all_reduced(constants),
    ensures
        values(factors) == constants,
{
    lemma_factors_are_weights(xs, factors);
    lemma_constants_unique(abscissas(xs), 0, constants);
}

} // verus!
