//! Packed secret sharing: several secrets hidden in one polynomial, each at
//! its own point, recovered by Lagrange interpolation.

use crate::errors::ShamirError;
use crate::interpolation::{
    are_lagrange_constants, basis_denominator, basis_numerator, evaluations, interpolant,
    lemma_constants_unique, lemma_eval_interpolant, lemma_lagrange_interpolation,
    lemma_denominator_not_invertible, lemma_product_factors_invertible, lemma_weights_at_point,
    pairwise_invertible, product_except,
};
use crate::field::{fint, fmul, fneg, fsub, invertible, lemma_element_bound, modulus, Element};
use crate::secret_sharing::shamir::{weighted_sum, Parameters};
use crate::secret_sharing::{all_reduced, values};
use vstd::arithmetic::div_mod::lemma_small_mod;
use vstd::prelude::*;

verus! {

/// All entries of the sequence differ.
pub open spec fn all_distinct(x: Seq<nat>) -> bool {
    forall|i: int, j: int| 0 <= i < x.len() && 0 <= j < x.len() && i != j ==> x[i] != x[j]
}

/// Every basis denominator is invertible.
pub open spec fn basis_invertible(x: Seq<nat>) -> bool {
    forall|i: int| 0 <= i < x.len() ==> invertible(#[trigger] basis_denominator(x, i))
}

/// The values of the Lagrange basis polynomials of some points, all at one
/// point.
#[derive(Debug)]
pub struct LagrangeConstants(Vec<Element>);

impl View for LagrangeConstants {
    type V = Seq<nat>;

    closed spec fn view(&self) -> Seq<nat> {
        values(self.0@)
    }
}

impl LagrangeConstants {
    /// The value at `point` of each Lagrange basis polynomial of `points`:
    /// constant i is the product over j != i of (x_j - point) / (x_j - x_i).
    ///
    /// Error: a denominator has no inverse (`NotInvertible`, which the prime
    /// modulus rules out for distinct points).
    pub fn compute(point: Element, points: Vec<Element>) -> (r: Result<LagrangeConstants, ShamirError>)
        requires
            all_distinct(values(points@)),
        ensures
            !basis_invertible(values(points@)) ==> r == Err::<LagrangeConstants, ShamirError>(
                ShamirError::NotInvertible,
            ),
            basis_invertible(values(points@)) ==> (r matches Ok(c) && c@.len() == points@.len()
                && forall|i: int|
                0 <= i < points@.len() ==> fmul(#[trigger] c@[i], basis_denominator(values(points@), i))
                    == basis_numerator(values(points@), i, point@)),
    {
        let n = points.len();
        let ghost x = values(points@);
        let mut constants: Vec<Element> = Vec::new();
        let mut i: usize = 0;
        while i < n
            invariant
                i <= n == points@.len() == x.len(),
                x == values(points@),
                constants@.len() == i,
                forall|a: int| 0 <= a < i ==> invertible(#[trigger] basis_denominator(x, a)),
                forall|a: int|
                    0 <= a < i ==> fmul(#[trigger] constants@[a]@, basis_denominator(x, a))
                        == basis_numerator(x, a, point@),
            decreases n - i,
        {
            let mut num = Element::one();
            let mut denum = Element::one();
            let mut j: usize = 0;
            while j < n
                invariant
                    i < n == points@.len() == x.len(),
                    x == values(points@),
                    j <= n,
                    num@ == product_except(x, i as int, point@, j as int),
                    denum@ == product_except(x, i as int, x[i as int], j as int),
                decreases n - j,
            {
                if j != i {
                    num = num.mul(&points[j].sub(&point));
                    denum = denum.mul(&points[j].sub(&points[i]));
                }
                j += 1;
            }
            match num.div(&denum) {
                Some(coef) => constants.push(coef),
                None => {
                    proof {
                        assert(!invertible(basis_denominator(x, i as int)));
                    }
                    return Err(ShamirError::NotInvertible);
                },
            }
            proof {
                assert(constants@[i as int]@ == constants@.last()@);
            }
            i += 1;
        }
        let r = LagrangeConstants(constants);
        proof {
            assert(r@ == values(constants@));
        }
        Ok(r)
    }

    /// The constants are reduced field values.
    pub proof fn lemma_reduced(&self)
        ensures
            all_reduced(self@),
    {
        assert forall|i: int| 0 <= i < self@.len() implies #[trigger] self@[i] < modulus() by {
            lemma_element_bound(self.0@[i]);
        }
    }

    /// The interpolated value: the sum of the values weighted by the
    /// constants.
    ///
    /// Error: there are not as many values as constants (`TooFewCoefs`).
    pub fn interpolate(&self, values_: Vec<Element>) -> (r: Result<Element, ShamirError>)
        ensures
            values_@.len() != self@.len() ==> r == Err::<Element, ShamirError>(ShamirError::TooFewCoefs),
            values_@.len() == self@.len() ==> (r matches Ok(e) && e@ == weighted_sum(
                self@,
                values(values_@),
                self@.len(),
            )),
    {
        let constants = &self.0;
        if values_.len() != constants.len() {
            return Err(ShamirError::TooFewCoefs);
        }
        let n = constants.len();
        let mut sum = Element::zero();
        let mut i: usize = 0;
        while i < n
            invariant
                i <= n == constants@.len() == values_@.len(),
                self@ == values(constants@),
                sum@ == weighted_sum(values(constants@), values(values_@), i as nat),
            decreases n - i,
        {
            let term = values_[i].mul(&constants[i]);
            sum = sum.add(&term);
            i += 1;
        }
        Ok(sum)
    }
}

/// `e` is the Lagrange interpolation at `point` of the values `y` taken at
/// the points `x`.
pub open spec fn is_interpolation(x: Seq<nat>, y: Seq<nat>, point: nat, e: nat) -> bool {
    exists|c: Seq<nat>|
        are_lagrange_constants(x, point, c) && all_reduced(c) && e == weighted_sum(c, y, x.len())
}

/// Lagrange interpolation: the value at `point` of the polynomial of degree
/// below the number of points that takes the values `ys` at the points `xs`.
pub fn lagrange_interpolation_at_point(point: Element, xs: Vec<Element>, ys: Vec<Element>) -> (r:
    Result<Element, ShamirError>)
    requires
        all_distinct(values(xs@)),
    ensures
        !basis_invertible(values(xs@)) ==> r == Err::<Element, ShamirError>(ShamirError::NotInvertible),
        basis_invertible(values(xs@)) && ys@.len() != xs@.len() ==> r == Err::<Element, ShamirError>(
            ShamirError::TooFewCoefs,
        ),
        basis_invertible(values(xs@)) && ys@.len() == xs@.len() ==> (r matches Ok(e)
            && is_interpolation(values(xs@), values(ys@), point@, e@)),
{
    let ghost x = values(xs@);
    let ghost pt = point@;
    let constants = match LagrangeConstants::compute(point, xs) {
        Ok(c) => c,
        Err(e) => {
            return Err(e);
        },
    };
    let r = constants.interpolate(ys);
    proof {
        assert(are_lagrange_constants(x, pt, constants@));
        constants.lemma_reduced();
    }
    r
}

/// The points at which packed secrets sit: 0, -1, -2, ..., -(n - 1).
pub open spec fn secret_points(n: nat) -> Seq<nat> {
    Seq::new(n, |i: int| fneg(i as nat))
}

/// The negation of a reduced value: itself for zero, p minus it otherwise.
proof fn lemma_neg_value(a: nat)
    requires
        a < modulus(),
    ensures
        fneg(a) == if a == 0 {
            0
        } else {
            (modulus() - a) as nat
        },
{
    let m = modulus() as int;
    crate::field::lemma_modulus();
    if a == 0 {
        assert(0int % m == 0);
    } else {
        vstd::arithmetic::div_mod::lemma_mod_add_multiples_vanish(-(a as int), m);
        lemma_small_mod((m - a) as nat, modulus());
    }
}

/// The secret points are distinct.
proof fn lemma_secret_points_distinct(n: nat)
    requires
        n <= usize::MAX + 1,
    ensures
        all_distinct(secret_points(n)),
{
    crate::field::lemma_modulus();
    assert forall|i: int, j: int|
        0 <= i < n && 0 <= j < n && i != j implies secret_points(n)[i] != secret_points(n)[j] by {
        lemma_neg_value(i as nat);
        lemma_neg_value(j as nat);
    }
}

/// Copies a vector of elements.
fn copy_elements(v: &Vec<Element>) -> (r: Vec<Element>)
    ensures
        values(r@) == values(v@),
{
    let mut r: Vec<Element> = Vec::new();
    let mut i: usize = 0;
    while i < v.len()
        invariant
            i <= v@.len(),
            r@.len() == i,
            forall|j: int| 0 <= j < i ==> #[trigger] r@[j]@ == v@[j]@,
        decreases v@.len() - i,
    {
        r.push(v[i].duplicate());
        i += 1;
    }
    proof {
        assert(values(r@) =~= values(v@));
    }
    r
}

/// Packed sharing: the secrets and `threshold` random values are placed at
/// the points 0, -1, -2, ..., and the shares are the values at 1, 2, ..., n
/// of the polynomial that interpolates them, n being the number of secrets
/// plus the threshold.
///
/// Error: a basis denominator of the secret points has no inverse
/// (`NotInvertible`, which the prime modulus rules out).
pub fn share_lagrange(secrets: Vec<Element>, parameters: &mut Parameters) -> (r: Result<
    Vec<Element>,
    ShamirError,
>)
    requires
        old(parameters).well_formed(),
        old(parameters).spec_threshold() + secrets@.len() <= usize::MAX,
    ensures
        final(parameters).well_formed(),
        final(parameters).spec_threshold() == old(parameters).spec_threshold(),
        final(parameters).spec_nb_of_shares() == old(parameters).spec_nb_of_shares(),
        ({
            let n = (old(parameters).spec_threshold() + secrets@.len()) as nat;
            &&& r is Err ==> r == Err::<Vec<Element>, ShamirError>(ShamirError::NotInvertible)
                && !basis_invertible(secret_points(n))
            &&& basis_invertible(secret_points(n)) ==> r is Ok
            &&& r matches Ok(shares) ==> shares@.len() == n && exists|v: Seq<nat>|
                v.len() == n && all_reduced(v) && v.take(secrets@.len() as int) == values(secrets@) && forall|q: int|
                    0 <= q < n ==> is_interpolation(
                        secret_points(n),
                        v,
                        (q + 1) as nat,
                        #[trigger] shares@[q]@,
                    )
        }),
{
    let threshold = parameters.threshold();
    let num_values = threshold + secrets.len();
    let ghost n = num_values as nat;
    let mut points: Vec<Element> = Vec::new();
    let mut k: usize = 0;
    while k < num_values
        invariant
            k <= num_values,
            points@.len() == k,
            forall|j: int| 0 <= j < k ==> #[trigger] points@[j]@ == fneg(j as nat),
        decreases num_values - k,
    {
        points.push(Element::from_usize(k).neg());
        k += 1;
    }
    proof {
        assert(values(points@) =~= secret_points(n));
        lemma_secret_points_distinct(n);
    }
    let ghost secret_values = values(secrets@);
    let ghost secrets_len = secrets@.len();
    let mut vals = secrets;
    let mut k: usize = 0;
    while k < threshold
        invariant
            k <= threshold,
            vals@.len() == secret_values.len() + k,
            values(vals@).take(secret_values.len() as int) == secret_values,
            parameters.well_formed(),
            parameters.spec_threshold() == threshold,
            parameters.spec_nb_of_shares() == old(parameters).spec_nb_of_shares(),
        decreases threshold - k,
    {
        let ghost before = vals@;
        vals.push(Element::gen_random(parameters.chacha_rand()));
        proof {
            assert(values(vals@).take(secret_values.len() as int) =~= values(before).take(
                secret_values.len() as int,
            ));
        }
        k += 1;
    }
    let mut shares: Vec<Element> = Vec::new();
    let mut q: usize = 0;
    while q < num_values
        invariant
            q <= num_values,
            n == num_values,
            num_values >= 1,
            values(points@) == secret_points(n),
            all_distinct(secret_points(n)),
            vals@.len() == n,
            n == old(parameters).spec_threshold() + secret_values.len(),
            secret_values == values(secrets@),
            shares@.len() == q,
            parameters.well_formed(),
            parameters.spec_threshold() == old(parameters).spec_threshold(),
            parameters.spec_nb_of_shares() == old(parameters).spec_nb_of_shares(),
            q > 0 ==> basis_invertible(secret_points(n)),
            forall|j: int|
                0 <= j < q ==> is_interpolation(
                    secret_points(n),
                    values(vals@),
                    (j + 1) as nat,
                    #[trigger] shares@[j]@,
                ),
        decreases num_values - q,
    {
        let point = Element::from_usize(q + 1);
        let xs = copy_elements(&points);
        let ys = copy_elements(&vals);
        proof {
            assert(values(xs@).len() == xs@.len());
            assert(values(ys@).len() == ys@.len());
            assert(values(vals@).len() == vals@.len());
            assert(values(points@).len() == points@.len());
            assert(secret_points(n).len() == n);
            assert(xs@.len() == ys@.len());
        }
        let share = match lagrange_interpolation_at_point(point, xs, ys) {
            Ok(e) => e,
            Err(e) => {
                return Err(e);
            },
        };
        shares.push(share);
        q += 1;
    }
    proof {
        assert forall|i: int| 0 <= i < n implies #[trigger] values(vals@)[i] < modulus() by {
            lemma_element_bound(vals@[i]);
        }
        let v = values(vals@);
        assert(v.len() == n && all_reduced(v) && v.take(secrets_len as int) == values(secrets@));
    }
    Ok(shares)
}

/// Points whose basis denominators are invertible have invertible
/// differences.
proof fn lemma_basis_pairwise(x: Seq<nat>)
    requires
        basis_invertible(x),
    ensures
        pairwise_invertible(x),
{
    assert forall|i: int, j: int| 0 <= i < x.len() && 0 <= j < x.len() && i != j implies invertible(
        #[trigger] fsub(x[i], x[j]),
    ) by {
        assert(invertible(basis_denominator(x, j)));
        lemma_product_factors_invertible(x, j, x[j], x.len() as int);
    }
}

/// Packed recovery: the shares of a packed sharing of the values `v` (at the
/// points 1, ..., n), interpolated at the secret point of index s, give back
/// v_s; in particular each secret comes back.
pub proof fn lemma_packed_recovery(n: nat, v: Seq<nat>, shares: Seq<nat>, z: Seq<nat>, s: int, e: nat)
    requires
        n <= usize::MAX,
        v.len() == n,
        all_reduced(v),
        basis_invertible(secret_points(n)),
        shares.len() == n,
        forall|q: int|
            0 <= q < n ==> is_interpolation(secret_points(n), v, (q + 1) as nat, #[trigger] shares[q]),
        z.len() == n,
        forall|q: int| 0 <= q < n ==> #[trigger] z[q] == (q + 1) as nat,
        basis_invertible(z),
        0 <= s < n,
        is_interpolation(z, shares, fneg(s as nat), e),
    ensures
        e == v[s],
{
    let x = secret_points(n);
    let p = interpolant(x, v, n);
    crate::field::lemma_modulus();
    lemma_basis_pairwise(x);
    lemma_basis_pairwise(z);
    assert forall|i: int| 0 <= i < n implies #[trigger] x[i] < modulus() by {
        crate::algebra::lemma_ops_as_residues(0, i as nat);
    }
    assert forall|q: int| 0 <= q < n implies #[trigger] z[q] < modulus() by {}
    lemma_eval_interpolant(x, v, n, 0);
    assert forall|q: int| 0 <= q < n implies #[trigger] shares[q] == evaluations(p, z)[q] by {
        let c = choose|c: Seq<nat>|
            are_lagrange_constants(x, (q + 1) as nat, c) && all_reduced(c) && shares[q] == weighted_sum(
                c,
                v,
                x.len(),
            );
        lemma_constants_unique(x, (q + 1) as nat, c);
        lemma_eval_interpolant(x, v, n, (q + 1) as nat);
    }
    assert(shares =~= evaluations(p, z));
    let c = choose|c: Seq<nat>|
        are_lagrange_constants(z, fneg(s as nat), c) && all_reduced(c) && e == weighted_sum(
            c,
            shares,
            z.len(),
        );
    lemma_lagrange_interpolation(z, fneg(s as nat), p, c);
    lemma_eval_interpolant(x, v, n, x[s]);
    lemma_weights_at_point(x, v, s, n);
}

/// With every nonzero residue invertible, as for the prime modulus, distinct
/// points always have invertible basis denominators: `NotInvertible` does not
/// occur.
pub proof fn lemma_distinct_points_invertible(x: Seq<nat>)
    requires
        all_distinct(x),
        all_reduced(x),
        !crate::field::some_nonzero_not_invertible(),
    ensures
        basis_invertible(x),
{
    assert forall|i: int| 0 <= i < x.len() implies invertible(#[trigger] basis_denominator(x, i)) by {
        if !invertible(basis_denominator(x, i)) {
            lemma_denominator_not_invertible(x, i);
        }
    }
}

} // verus!
