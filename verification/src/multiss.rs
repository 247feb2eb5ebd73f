//! The MULTISS protocols: a secret shared across several QKD networks.
//!
//! In standard mode, a polynomial P hides the secret; the mother network
//! holds a Shamir sharing of P(1) and daughter network i one of P'(i + 1).
//! The secret comes back by recovering those values with Lagrange
//! interpolation and solving the Birkhoff system they form.
//!
//! In local mode, network i holds a polynomial Q_i(X) = P(i) + a_i X: the
//! value Q_i(1) is kept aside and a_i = Q'_i(2) is Shamir-shared in the
//! network. P(i) = Q_i(1) - a_i, and Lagrange interpolation of those values
//! gives back the secret.

use crate::birkhoff::linear::{dot, is_unique_solution, solves};
use crate::birkhoff::primitives::{derivative_row, share_views, BirkhoffShare, SquareLinearSystem};
use crate::birkhoff::protocol::{
    consistent_with, lemma_consistent_system_recovers, lemma_derivative_row_value,
    lemma_sort_keeps_consistent, lemma_sort_keeps_consistent_back,
};
use crate::bytes::bytes_value;
use crate::field::{fadd, fmul, fsub, lemma_element_bound, modulus, some_nonzero_not_invertible, Element};
use crate::interpolation::{
    coefficients_sub, lemma_eval_sub, lemma_vanishing_everywhere, lemma_zero_polynomial,
};
use crate::secret_sharing::shamir::{
    abscissas, get_lagrange_factors, has_duplicates, is_sharing, lagrange, lemma_factors_exist,
    lemma_shamir_reconstruction, shamir, Parameters,
};
use crate::secret_sharing::{
    all_reduced, derivative, derivative_fits, lemma_derivative_fits_zero, lemma_derivative_zero,
    poly_eval, values, Polynomial,
};
use crate::Share;
use rand_chacha::ChaCha20Rng;
use vstd::prelude::*;

verus! {

/// A QKD network: its number of nodes, and the degree of the polynomial that
/// shares a value among them.
#[derive(Clone, Copy, Debug)]
pub struct NetworkConfig {
    pub nodes: usize,
    pub degree: usize,
}

/// Each network can hold a Shamir sharing: its threshold, the degree plus
/// one, is at least 2 and at most the number of nodes.
pub open spec fn networks_valid(networks: Seq<NetworkConfig>) -> bool {
    forall|i: int|
        0 <= i < networks.len() ==> 1 <= (#[trigger] networks[i]).degree && networks[i].degree
            < networks[i].nodes
}

/// The threshold of a network.
pub open spec fn threshold_of(network: NetworkConfig) -> nat {
    (network.degree + 1) as nat
}

/// The abscissas 1, 2, ..., k are nonzero and distinct field values.
proof fn lemma_counting_abscissas(xs: Seq<i32>)
    requires
        forall|j: int| 0 <= j < xs.len() ==> #[trigger] xs[j] == j + 1,
    ensures
        !has_duplicates(abscissas(xs)),
        forall|j: int| 0 <= j < xs.len() ==> xs[j] != 0,
{
    crate::field::lemma_modulus();
    assert forall|j: int| 0 <= j < xs.len() implies #[trigger] abscissas(xs)[j] == j + 1 by {
        assert(xs[j] == j + 1);
        assert(j + 1 < modulus());
        vstd::arithmetic::div_mod::lemma_small_mod((j + 1) as nat, modulus());
    }
    if has_duplicates(abscissas(xs)) {
        let (a, b) = choose|a: int, b: int| 0 <= a < b < abscissas(xs).len() && abscissas(xs)[a] == abscissas(xs)[b];
        assert(abscissas(xs)[a] == a + 1);
    }
}

/// Recovers a value from the first k shares of a Shamir sharing, at the
/// abscissas 1, ..., k. `None` only if some nonzero residue has no inverse,
/// which the prime modulus rules out.
pub fn recover_value(k: usize, shares: &[Share]) -> (r: Option<Element>)
    requires
        1 <= k <= shares@.len(),
        k <= i32::MAX,
    ensures
        r matches Some(e) ==> forall|secret: nat|
            #[trigger] is_sharing(secret, k as nat, shares@) ==> e@ == secret,
        r is None ==> some_nonzero_not_invertible(),
{
    let mut xs: Vec<i32> = Vec::new();
    let mut ys: Vec<Share> = Vec::new();
    let mut i: usize = 0;
    while i < k
        invariant
            i <= k <= shares@.len(),
            k <= i32::MAX,
            xs@.len() == i,
            ys@.len() == i,
            forall|j: int| 0 <= j < i ==> #[trigger] xs@[j] == j + 1 && ys@[j] == shares@[j],
        decreases k - i,
    {
        xs.push((i + 1) as i32);
        ys.push(shares[i]);
        i += 1;
    }
    proof {
        lemma_counting_abscissas(xs@);
    }
    let factors = match get_lagrange_factors(&xs) {
        Ok(f) => f,
        Err(_) => {
            proof {
                if !some_nonzero_not_invertible() {
                    lemma_factors_exist(xs@);
                }
            }
            return None;
        },
    };
    let recovered = match lagrange(&factors, &ys) {
        Ok(s) => s,
        Err(_) => {
            return None;
        },
    };
    let e = Element::from_share(&recovered);
    proof {
        assert forall|secret: nat| #[trigger] is_sharing(secret, k as nat, shares@) implies e@ == secret by {
            assert forall|j: int| 0 <= j < k implies 1 <= #[trigger] xs@[j] <= shares@.len() && ys@[j]
                == shares@[xs@[j] - 1] by {}
            lemma_shamir_reconstruction(secret, k as nat, shares@, xs@, ys@, factors@);
            let c = choose|c: Seq<nat>|
                c.len() == k && all_reduced(c) && c[0] == secret && forall|i: int|
                    0 <= i < shares@.len() ==> bytes_value(#[trigger] shares@[i]@) == poly_eval(
                        c,
                        (i + 1) as nat,
                    );
            vstd::arithmetic::div_mod::lemma_small_mod(secret, modulus());
        }
    }
    Some(e)
}

/// Standard MULTISS: `mother` is a Shamir sharing of P(1) in the mother
/// network (the first one) and `daughters[j]` one of P'(j + 2) in network
/// j + 1, for P the polynomial with coefficients `c`.
pub open spec fn is_standard_sharing(
    c: Seq<nat>,
    networks: Seq<NetworkConfig>,
    mother: Seq<Share>,
    daughters: Seq<Vec<Share>>,
) -> bool {
    &&& mother.len() == networks[0].nodes
    &&& is_sharing(poly_eval(c, 1), threshold_of(networks[0]), mother)
    &&& daughters.len() + 1 == networks.len()
    &&& forall|j: int|
        0 <= j < daughters.len() ==> (#[trigger] daughters[j])@.len() == networks[j + 1].nodes
            && is_sharing(
            poly_eval(derivative(c, 1), (j + 2) as nat),
            threshold_of(networks[j + 1]),
            daughters[j]@,
        )
}

/// The polynomial's coefficients are reduced.
proof fn lemma_polynomial_reduced(p: &Polynomial)
    ensures
        all_reduced(p@),
{
    assert forall|i: int| 0 <= i < p@.len() implies #[trigger] p@[i] < modulus() by {
        lemma_element_bound(p.0@[i]);
    }
}

/// Shares a secret in standard MULTISS: a random polynomial P of degree
/// `degree_p` hides the secret; the mother network gets a Shamir sharing of
/// P(1) and each daughter network i one of P'(i + 1).
pub fn standard_share(secret: &Share, degree_p: usize, networks: &[NetworkConfig], rng: &mut ChaCha20Rng)
    -> (r: (Vec<Share>, Vec<Vec<Share>>))
    requires
        networks@.len() > degree_p,
        networks_valid(networks@),
        derivative_fits((degree_p + 1) as nat, 1),
    ensures
        exists|c: Seq<nat>|
            c.len() == degree_p + 1 && all_reduced(c) && c[0] == bytes_value(secret@) % modulus()
                && is_standard_sharing(c, networks@, r.0@, r.1@),
{
    let l_networks = networks.len();
    let p = Polynomial::new_shamir(secret, degree_p, rng);
    proof {
        lemma_derivative_fits_zero((degree_p + 1) as nat);
        lemma_polynomial_reduced(&p);
    }
    let p_1 = p.evaluate_with_horner_method(&Element::from_usize(1), 0).to_share();
    let mother_network = networks[0];
    let mut params_n0 = Parameters::new(mother_network.degree + 1, mother_network.nodes).unwrap();
    let q0_shares = shamir(&p_1, &mut params_n0);
    proof {
        crate::secret_sharing::evaluation::lemma_eval_reduced(p@, 1);
        vstd::arithmetic::div_mod::lemma_small_mod(poly_eval(p@, 1), modulus());
    }
    let mut daughters_shares: Vec<Vec<Share>> = Vec::new();
    let mut i: usize = 1;
    while i < l_networks
        invariant
            1 <= i <= l_networks == networks@.len(),
            networks_valid(networks@),
            p@.len() == degree_p + 1,
            derivative_fits((degree_p + 1) as nat, 1),
            daughters_shares@.len() == i - 1,
            forall|j: int|
                0 <= j < i - 1 ==> (#[trigger] daughters_shares@[j])@.len() == networks@[j + 1].nodes
                    && is_sharing(
                    poly_eval(derivative(p@, 1), (j + 2) as nat),
                    threshold_of(networks@[j + 1]),
                    daughters_shares@[j]@,
                ),
        decreases l_networks - i,
    {
        let p_prime_val = p.evaluate_with_horner_method(&Element::from_usize(i + 1), 1).to_share();
        let network = networks[i];
        proof {
            assert(networks_valid(networks@));
            assert(1 <= networks@[i as int].degree < networks@[i as int].nodes);
        }
        let mut params_ni = Parameters::new(network.degree + 1, network.nodes).unwrap();
        let shares = shamir(&p_prime_val, &mut params_ni);
        proof {
            let v = poly_eval(derivative(p@, 1), (i + 1) as nat);
            crate::secret_sharing::evaluation::lemma_eval_reduced(derivative(p@, 1), (i + 1) as nat);
            vstd::arithmetic::div_mod::lemma_small_mod(v, modulus());
        }
        daughters_shares.push(shares);
        proof {
            assert forall|j: int|
                0 <= j < i implies (#[trigger] daughters_shares@[j])@.len() == networks@[j + 1].nodes
                    && is_sharing(
                    poly_eval(derivative(p@, 1), (j + 2) as nat),
                    threshold_of(networks@[j + 1]),
                    daughters_shares@[j]@,
                ) by {
                if j == i - 1 {
                    assert(daughters_shares@[j] == shares);
                }
            }
        }
        i += 1;
    }
    proof {
        assert(is_standard_sharing(p@, networks@, q0_shares@, daughters_shares@));
    }
    (q0_shares, daughters_shares)
}

/// The Birkhoff shares recovered from a standard sharing, (1, 0, P(1))
/// then (j + 1, 1, P'(j + 1)), are consistent with P.
proof fn lemma_standard_consistent(
    c: Seq<nat>,
    degree_p: nat,
    networks: Seq<NetworkConfig>,
    mother: Seq<Share>,
    daughters: Seq<Vec<Share>>,
    unsorted: Seq<(nat, usize, nat)>,
)
    requires
        c.len() == degree_p + 1,
        all_reduced(c),
        is_standard_sharing(c, networks, mother, daughters),
        unsorted.len() == degree_p + 1,
        daughters.len() >= degree_p,
        unsorted[0].0 == 1,
        unsorted[0].1 == 0,
        forall|secret: nat| #[trigger] is_sharing(secret, threshold_of(networks[0]), mother) ==> unsorted[0].2 == secret,
        forall|j: int|
            1 <= j <= degree_p ==> (#[trigger] unsorted[j]).0 == j + 1 && unsorted[j].1 == 1 && forall|secret: nat|
                #[trigger] is_sharing(secret, threshold_of(networks[j]), daughters[j - 1]@) ==> unsorted[j].2 == secret,
    ensures
        consistent_with(c, unsorted),
{
    lemma_derivative_zero(c);
    assert forall|j: int| 0 <= j < unsorted.len() implies (#[trigger] unsorted[j]).2 == poly_eval(
        derivative(c, unsorted[j].1 as nat),
        unsorted[j].0,
    ) by {
        if j == 0 {
            assert(is_sharing(poly_eval(c, 1), threshold_of(networks[0]), mother));
        } else {
            assert(daughters[j - 1]@.len() == networks[j].nodes);
            assert(is_sharing(
                poly_eval(derivative(c, 1), (j + 1) as nat),
                threshold_of(networks[j]),
                daughters[j - 1]@,
            ));
        }
    }
}

/// Recovers the secret of a standard MULTISS sharing: P(1) from the first
/// shares of the mother network, P'(i + 1) from the first shares of
/// daughter network i, for i up to deg(P), and the coefficients of P from
/// the Birkhoff system those values form. For shares made by
/// `standard_share` from some polynomial, a secret returned is that
/// polynomial's constant term, and `None` comes only if some nonzero residue
/// has no inverse, which the prime modulus rules out.
pub fn standard_reconstruct(
    degree_p: usize,
    networks: &[NetworkConfig],
    mother: &[Share],
    daughters: &[Vec<Share>],
) -> (r: Option<Share>)
    requires
        networks@.len() > degree_p,
        daughters@.len() >= degree_p,
        mother@.len() >= threshold_of(networks@[0]),
        forall|i: int|
            0 <= i <= degree_p ==> (#[trigger] networks@[i]).degree < i32::MAX,
        forall|j: int|
            0 <= j < degree_p ==> (#[trigger] daughters@[j])@.len() >= threshold_of(networks@[j + 1]),
    ensures
        r matches Some(s) ==> forall|c: Seq<nat>|
            c.len() == degree_p + 1 && all_reduced(c) && #[trigger] is_standard_sharing(
                c,
                networks@,
                mother@,
                daughters@,
            ) ==> bytes_value(s@) == c[0],
        r is None ==> some_nonzero_not_invertible() || forall|c: Seq<nat>|
            !(c.len() == degree_p + 1 && all_reduced(c) && #[trigger] is_standard_sharing(
                c,
                networks@,
                mother@,
                daughters@,
            )),
{
    let mother_network = networks[0];
    let p_1 = match recover_value(mother_network.degree + 1, mother) {
        Some(e) => e,
        None => {
            return None;
        },
    };
    let mut birkhoff_shares: Vec<BirkhoffShare> = Vec::new();
    birkhoff_shares.push(BirkhoffShare::new(Element::from_usize(1), 0, p_1));
    let mut i: usize = 1;
    while i <= degree_p
        invariant
            1 <= i <= degree_p + 1,
            networks@.len() > degree_p,
            daughters@.len() >= degree_p,
            forall|a: int| 0 <= a <= degree_p ==> (#[trigger] networks@[a]).degree < i32::MAX,
            forall|j: int|
                0 <= j < degree_p ==> (#[trigger] daughters@[j])@.len() >= threshold_of(networks@[j + 1]),
            birkhoff_shares@.len() == i,
            birkhoff_shares@[0]@.0 == 1,
            birkhoff_shares@[0]@.1 == 0,
            forall|secret: nat|
                #[trigger] is_sharing(secret, threshold_of(networks@[0]), mother@) ==> birkhoff_shares@[0]@.2
                    == secret,
            forall|j: int|
                1 <= j < i ==> (#[trigger] birkhoff_shares@[j])@.0 == j + 1 && birkhoff_shares@[j]@.1 == 1
                    && forall|secret: nat|
                    #[trigger] is_sharing(secret, threshold_of(networks@[j]), daughters@[j - 1]@)
                        ==> birkhoff_shares@[j]@.2 == secret,
        decreases degree_p + 1 - i,
    {
        let network = networks[i];
        let v = match recover_value(network.degree + 1, daughters[i - 1].as_slice()) {
            Some(e) => e,
            None => {
                return None;
            },
        };
        birkhoff_shares.push(BirkhoffShare::new(Element::from_usize(i + 1), 1, v));
        i += 1;
    }
    let ghost unsorted = share_views(birkhoff_shares@);
    let system = SquareLinearSystem::new_birkhoff(degree_p, birkhoff_shares.as_mut_slice()).unwrap();
    let ghost a = system.spec_matrix();
    let ghost b = system.spec_values();
    let x = match system.solution() {
        Some(x) => x,
        None => {
            proof {
                let t = share_views(birkhoff_shares@);
                if !some_nonzero_not_invertible() {
                    assert forall|c: Seq<nat>|
                        !(c.len() == degree_p + 1 && all_reduced(c) && #[trigger] is_standard_sharing(
                            c,
                            networks@,
                            mother@,
                            daughters@,
                        )) by {
                        if c.len() == degree_p + 1 && all_reduced(c) && is_standard_sharing(
                            c,
                            networks@,
                            mother@,
                            daughters@,
                        ) {
                            lemma_standard_consistent(c, degree_p as nat, networks@, mother@, daughters@, unsorted);
                            lemma_sort_keeps_consistent(c, unsorted, t);
                            assert forall|y: Seq<nat>|
                                y.len() == a.len() && all_reduced(y) implies (#[trigger] solves(a, b, y) <==> y
                                == c) by {
                                if solves(a, b, y) {
                                    assert forall|i: int| 0 <= i < t.len() implies (#[trigger] t[i]).2 == poly_eval(
                                        derivative(y, t[i].1 as nat),
                                        t[i].0,
                                    ) by {
                                        assert(a[i] == derivative_row(t[i].0, degree_p as nat, t[i].1 as nat));
                                        assert(dot(a[i], y) == b[i]);
                                        lemma_derivative_row_value(t[i].0, y, t[i].1 as nat);
                                    }
                                    lemma_sort_keeps_consistent_back(y, unsorted, t);
                                    lemma_derivative_zero(y);
                                    assert(unsorted[0].2 == poly_eval(derivative(y, 0), 1));
                                    assert forall|j: nat| 2 <= j <= degree_p + 1 implies #[trigger] poly_eval(
                                        derivative(y, 1),
                                        j,
                                    ) == poly_eval(derivative(c, 1), j) by {
                                        assert(unsorted[j - 1].2 == poly_eval(derivative(y, 1), j));
                                        assert(unsorted[j - 1].2 == poly_eval(derivative(c, 1), j));
                                    }
                                    lemma_standard_points_determine(c, y, degree_p as nat);
                                }
                                if y == c {
                                    assert forall|i: int| 0 <= i < a.len() implies #[trigger] dot(a[i], y) == b[i] by {
                                        assert(a[i] == derivative_row(t[i].0, degree_p as nat, t[i].1 as nat));
                                        lemma_derivative_row_value(t[i].0, c, t[i].1 as nat);
                                    }
                                }
                            }
                            assert(is_unique_solution(a, b, c));
                        }
                    }
                }
            }
            return None;
        },
    };
    let secret = x[0].to_share();
    proof {
        assert forall|c: Seq<nat>|
            c.len() == degree_p + 1 && all_reduced(c) && #[trigger] is_standard_sharing(
                c,
                networks@,
                mother@,
                daughters@,
            ) implies bytes_value(secret@) == c[0] by {
            lemma_standard_consistent(c, degree_p as nat, networks@, mother@, daughters@, unsorted);
            lemma_sort_keeps_consistent(c, unsorted, share_views(birkhoff_shares@));
            lemma_consistent_system_recovers(c, share_views(birkhoff_shares@), a, b, values(x@));
            assert(values(x@)[0] == x@[0]@);
        }
    }
    Some(secret)
}

/// Local MULTISS: for each network j, `kept[j]` holds Q_j(1) for
/// Q_j(X) = P(j + 1) + a_j X, and `daughters[j]` is a Shamir sharing of a_j
/// in network j, for P the polynomial with coefficients `c`.
pub open spec fn is_local_sharing(
    c: Seq<nat>,
    a: Seq<nat>,
    networks: Seq<NetworkConfig>,
    kept: Seq<Share>,
    daughters: Seq<Vec<Share>>,
) -> bool {
    &&& a.len() == networks.len()
    &&& kept.len() == networks.len()
    &&& daughters.len() == networks.len()
    &&& forall|j: int|
        0 <= j < networks.len() ==> bytes_value((#[trigger] kept[j])@) == linear_at_one(poly_eval(c, (j + 1) as nat), a[j]) && daughters[j]@.len() == networks[j].nodes && is_sharing(
            a[j],
            threshold_of(networks[j]),
            daughters[j]@,
        )
}

/// The derivative of u + a X is a everywhere.
proof fn lemma_linear_derivative(u: nat, a: nat, t: nat)
    requires
        a < modulus(),
    ensures
        poly_eval(derivative(seq![u, a], 1), t) == a,
{
    let q = seq![u, a];
    let d = derivative(q, 1);
    assert(crate::secret_sharing::falling(0, 0) == 1);
    assert(crate::secret_sharing::falling(1, 1) == 1);
    assert(d =~= seq![fmul(1, a)]);
    crate::algebra::lemma_identities(a);
    crate::algebra::lemma_residue_reduced(a);
    assert(d.drop_first() =~= Seq::<nat>::empty());
    crate::algebra::lemma_identities(t);
    assert(d[0] == fmul(1, a));
    assert(poly_eval(d.drop_first(), t) == 0);
    assert(poly_eval(d, t) == fadd(fmul(poly_eval(d.drop_first(), t), t), d[0]));
}

/// The value at 1 of the polynomial u + a X.
pub open spec fn linear_at_one(u: nat, a: nat) -> nat {
    poly_eval(seq![u, a], 1)
}

/// The value at 1 of u + a X is a + u.
proof fn lemma_linear_at_one(u: nat, a: nat)
    ensures
        linear_at_one(u, a) == fadd(a, u),
{
    let q = seq![u, a];
    let q1 = q.drop_first();
    assert(q1 =~= seq![a]);
    assert(q1.drop_first() =~= Seq::<nat>::empty());
    assert(poly_eval(q1.drop_first(), 1) == 0);
    assert(poly_eval(q1, 1) == fadd(fmul(0, 1), a));
    assert(poly_eval(q, 1) == fadd(fmul(poly_eval(q1, 1), 1), u));
    crate::field::lemma_modulus();
    crate::algebra::lemma_identities(1);
    crate::algebra::lemma_identities(a);
    let r = a % modulus();
    vstd::arithmetic::div_mod::lemma_mod_bound(a as int, modulus() as int);
    crate::algebra::lemma_identities(r);
    crate::algebra::lemma_residue_reduced(r);
    crate::algebra::lemma_ops_as_residues(r, u);
    crate::algebra::lemma_ops_as_residues(a, u);
    crate::algebra::lemma_ops_as_residues(a, 0);
    crate::algebra::lemma_residue_absorbs(a as int, u as int);
}

/// Shares a secret in local MULTISS: a random polynomial P of degree
/// `degree_p` hides the secret; for each network i, a random Q_i of degree 1
/// with Q_i(0) = P(i) is drawn, Q_i(1) is kept, and Q'_i(2) is Shamir-shared
/// in network i.
pub fn local_share(secret: &Share, degree_p: usize, networks: &[NetworkConfig], rng: &mut ChaCha20Rng)
    -> (r: (Vec<Share>, Vec<Vec<Share>>))
    requires
        networks@.len() >= degree_p + 1,
        networks_valid(networks@),
    ensures
        exists|c: Seq<nat>, a: Seq<nat>|
            c.len() == degree_p + 1 && all_reduced(c) && c[0] == bytes_value(secret@) % modulus()
                && all_reduced(a) && #[trigger] is_local_sharing(c, a, networks@, r.0@, r.1@),
{
    let l_networks = networks.len();
    let p = Polynomial::new_shamir(secret, degree_p, rng);
    proof {
        lemma_derivative_fits_zero((degree_p + 1) as nat);
        lemma_derivative_fits_zero(2);
        lemma_polynomial_reduced(&p);
        assert(crate::secret_sharing::falling(0, 0) == 1);
        assert(crate::secret_sharing::falling(1, 1) == 1);
        assert(crate::secret_sharing::falling(0, 1) == 0);
        assert(crate::secret_sharing::falling(1, 2) == 0);
        assert(derivative_fits(2, 1));
    }
    let mut kept: Vec<Share> = Vec::new();
    let mut daughters_shares: Vec<Vec<Share>> = Vec::new();
    let ghost mut a: Seq<nat> = Seq::empty();
    let mut k: usize = 0;
    while k < l_networks
        invariant
            k <= l_networks,
            l_networks == networks@.len(),
            networks_valid(networks@),
            p@.len() == degree_p + 1,
            all_reduced(p@),
            derivative_fits((degree_p + 1) as nat, 0),
            derivative_fits(2, 1),
            a.len() == k,
            all_reduced(a),
            kept@.len() == k,
            daughters_shares@.len() == k,
            forall|j: int|
                0 <= j < k ==> bytes_value((#[trigger] kept@[j])@) == linear_at_one(poly_eval(p@, (j + 1) as nat), a[j]) && daughters_shares@[j]@.len() == networks@[j].nodes && is_sharing(
                    a[j],
                    threshold_of(networks@[j]),
                    daughters_shares@[j]@,
                ),
        decreases l_networks - k,
    {
        let i = k + 1;
        let ghost a0 = a;
        let ghost kept0 = kept@;
        let ghost daughters0 = daughters_shares@;
        let p_i = p.evaluate_with_horner_method(&Element::from_usize(i), 0).to_share();
        let qi = Polynomial::new_shamir(&p_i, 1, rng);
        let qi_1 = qi.evaluate_with_horner_method(&Element::from_usize(1), 0).to_share();
        let qi_prime_2 = qi.evaluate_with_horner_method(&Element::from_usize(2), 1).to_share();
        let network = networks[i - 1];
        proof {
            assert(1 <= networks@[i - 1].degree < networks@[i - 1].nodes);
        }
        let mut params_ni = Parameters::new(network.degree + 1, network.nodes).unwrap();
        let shares = shamir(&qi_prime_2, &mut params_ni);
        proof {
            let pv = poly_eval(p@, i as nat);
            crate::secret_sharing::evaluation::lemma_eval_reduced(p@, i as nat);
            vstd::arithmetic::div_mod::lemma_small_mod(pv, modulus());
            lemma_polynomial_reduced(&qi);
            let ai = qi@[1];
            assert(qi@ =~= seq![pv, ai]);
            lemma_linear_derivative(pv, ai, 2);
            vstd::arithmetic::div_mod::lemma_small_mod(ai, modulus());
            a = a.push(ai);
        }
        proof {
            assert(bytes_value(qi_1@) == poly_eval(qi@, 1));
            assert(bytes_value(qi_1@) == linear_at_one(poly_eval(p@, i as nat), a[k as int]));
            assert(bytes_value(qi_prime_2@) == a[k as int]);
            assert(is_sharing(a[k as int], threshold_of(networks@[k as int]), shares@));
        }
        kept.push(qi_1);
        daughters_shares.push(shares);
        proof {
            assert forall|j: int|
                0 <= j < k + 1 implies bytes_value((#[trigger] kept@[j])@) == linear_at_one(poly_eval(p@, (j + 1) as nat), a[j]) && daughters_shares@[j]@.len() == networks@[j].nodes && is_sharing(
                    a[j],
                    threshold_of(networks@[j]),
                    daughters_shares@[j]@,
                ) by {
                if j == k {
                    assert(kept@[j] == qi_1);
                    assert(daughters_shares@[j] == shares);
                } else {
                    assert(kept@[j] == kept0[j]);
                    assert(daughters_shares@[j] == daughters0[j]);
                    assert(a[j] == a0[j]);
                    assert(bytes_value(kept0[j]@) == linear_at_one(poly_eval(p@, (j + 1) as nat), a0[j]));
                }
            }
        }
        k += 1;
    }
    proof {
        assert(is_local_sharing(p@, a, networks@, kept@, daughters_shares@));
        assert(p@.len() == degree_p + 1 && all_reduced(p@) && p@[0] == bytes_value(secret@) % modulus()
            && all_reduced(a) && is_local_sharing(p@, a, networks@, kept@, daughters_shares@));
    }
    let r = (kept, daughters_shares);
    proof {
        assert(is_local_sharing(p@, a, networks@, r.0@, r.1@));
    }
    r
}

/// `y` holds u whenever `kept` holds Q(1) for Q(X) = u + a X and `shares`
/// are a sharing of a in `network`.
#[verifier::opaque]
pub open spec fn recovered_point(kept: Share, shares: Seq<Share>, network: NetworkConfig, y: Share) -> bool {
    forall|u: nat, aj: nat|
        #![trigger linear_at_one(u, aj)]
        u < modulus() && bytes_value(kept@) == linear_at_one(u, aj) && is_sharing(
            aj,
            threshold_of(network),
            shares,
        ) ==> bytes_value(y@) == u
}

/// Recovers the secret of a local MULTISS sharing: for each of the first
/// deg(P) + 1 networks, a_i from the first shares of the network, then
/// P(i) = Q_i(1) - a_i, and the secret by Lagrange interpolation of those
/// values. For shares made by `local_share` from some polynomial, a secret
/// returned is that polynomial's constant term. `None` only if some nonzero
/// residue has no inverse, which the prime modulus rules out.
pub fn local_reconstruct(degree_p: usize, networks: &[NetworkConfig], kept: &[Share], daughters: &[Vec<Share>])
    -> (r: Option<Share>)
    requires
        networks@.len() >= degree_p + 1,
        kept@.len() >= degree_p + 1,
        daughters@.len() >= degree_p + 1,
        degree_p < i32::MAX,
        forall|j: int| 0 <= j <= degree_p ==> (#[trigger] networks@[j]).degree < i32::MAX,
        forall|j: int|
            0 <= j <= degree_p ==> (#[trigger] daughters@[j])@.len() >= threshold_of(networks@[j]),
    ensures
        r matches Some(s) ==> forall|c: Seq<nat>, a: Seq<nat>|
            c.len() == degree_p + 1 && all_reduced(c) && all_reduced(a) && #[trigger] is_local_sharing(
                c,
                a,
                networks@,
                kept@,
                daughters@,
            ) ==> bytes_value(s@) == c[0],
        r is None ==> some_nonzero_not_invertible(),
{
    let mut p_points_x: Vec<i32> = Vec::new();
    let mut p_points_y: Vec<Share> = Vec::new();
    let mut i: usize = 1;
    while i <= degree_p + 1
        invariant
            1 <= i <= degree_p + 2,
            degree_p < i32::MAX,
            networks@.len() >= degree_p + 1,
            kept@.len() >= degree_p + 1,
            daughters@.len() >= degree_p + 1,
            forall|j: int| 0 <= j <= degree_p ==> (#[trigger] networks@[j]).degree < i32::MAX,
            forall|j: int|
                0 <= j <= degree_p ==> (#[trigger] daughters@[j])@.len() >= threshold_of(networks@[j]),
            p_points_x@.len() == i - 1,
            p_points_y@.len() == i - 1,
            forall|j: int|
                0 <= j < i - 1 ==> #[trigger] p_points_x@[j] == j + 1 && recovered_point(
                    kept@[j],
                    daughters@[j]@,
                    networks@[j],
                    p_points_y@[j],
                ),
        decreases degree_p + 2 - i,
    {
        let dn_idx = i - 1;
        let network = networks[dn_idx];
        let a = match recover_value(network.degree + 1, daughters[dn_idx].as_slice()) {
            Some(e) => e,
            None => {
                return None;
            },
        };
        let q1 = Element::from_share(&kept[dn_idx]);
        let b = q1.sub(&a);
        let b_share = b.to_share();
        proof {
            reveal(recovered_point);
            assert forall|u: nat, aj: nat|
                #![trigger linear_at_one(u, aj)]
                u < modulus() && bytes_value(kept@[dn_idx as int]@) == linear_at_one(u, aj) && is_sharing(
                    aj,
                    threshold_of(networks@[dn_idx as int]),
                    daughters@[dn_idx as int]@,
                ) implies bytes_value(b_share@) == u by {
                lemma_linear_at_one(u, aj);
                crate::algebra::lemma_comm_assoc(aj, u, 0);
                crate::algebra::lemma_sub_add(u, aj, 0);
                crate::algebra::lemma_residue_reduced(u);
                crate::algebra::lemma_ops_as_residues(u, aj);
                vstd::arithmetic::div_mod::lemma_small_mod(fadd(u, aj), modulus());
            }
            assert(recovered_point(kept@[dn_idx as int], daughters@[dn_idx as int]@, networks@[dn_idx as int], b_share));
        }
        let ghost prev_y = p_points_y@;
        let ghost prev_x = p_points_x@;
        p_points_x.push(i as i32);
        p_points_y.push(b_share);
        proof {
            assert forall|j: int|
                0 <= j < i implies #[trigger] p_points_x@[j] == j + 1 && recovered_point(
                    kept@[j],
                    daughters@[j]@,
                    networks@[j],
                    p_points_y@[j],
                ) by {
                if j < i - 1 {
                    assert(p_points_x@[j] == prev_x[j]);
                    assert(p_points_y@[j] == prev_y[j]);
                } else {
                    assert(p_points_y@[j] == b_share);
                }
            }
        }
        i += 1;
    }
    proof {
        assert forall|j: int| 0 <= j < p_points_x@.len() implies #[trigger] p_points_x@[j] == j + 1 by {}
        lemma_counting_abscissas(p_points_x@);
    }
    let factors_p = match get_lagrange_factors(&p_points_x) {
        Ok(f) => f,
        Err(_) => {
            proof {
                if !some_nonzero_not_invertible() {
                    lemma_factors_exist(p_points_x@);
                }
            }
            return None;
        },
    };
    let final_secret = match lagrange(&factors_p, &p_points_y) {
        Ok(s) => s,
        Err(_) => {
            return None;
        },
    };
    proof {
        let k = (degree_p + 1) as nat;
        reveal(recovered_point);
        assert forall|c: Seq<nat>, a: Seq<nat>|
            c.len() == degree_p + 1 && all_reduced(c) && all_reduced(a) && #[trigger] is_local_sharing(
                c,
                a,
                networks@,
                kept@,
                daughters@,
            ) implies bytes_value(final_secret@) == c[0] by {
            assert forall|j: int| 0 <= j < k implies bytes_value(#[trigger] p_points_y@[j]@) == poly_eval(
                c,
                (j + 1) as nat,
            ) by {
                let u = poly_eval(c, (j + 1) as nat);
                crate::secret_sharing::evaluation::lemma_eval_reduced(c, (j + 1) as nat);
                assert(bytes_value(kept@[j]@) == linear_at_one(u, a[j]));
                assert(p_points_x@[j] == j + 1);
                assert(recovered_point(kept@[j], daughters@[j]@, networks@[j], p_points_y@[j]));
            }
            assert(is_sharing(c[0], k, p_points_y@));
            assert forall|j: int| 0 <= j < k implies 1 <= #[trigger] p_points_x@[j] <= p_points_y@.len()
                && p_points_y@[j] == p_points_y@[p_points_x@[j] - 1] by {}
            lemma_shamir_reconstruction(c[0], k, p_points_y@, p_points_x@, p_points_y@, factors_p@);
        }
    }
    Some(final_secret)
}

/// Standard MULTISS recovers the secret: when the shares are a standard
/// sharing of the secret and reconstruction returns a value, that value is
/// the secret as a field element.
pub proof fn lemma_standard_recovers(
    secret: Share,
    degree_p: nat,
    networks: Seq<NetworkConfig>,
    mother: Seq<Share>,
    daughters: Seq<Vec<Share>>,
    s: Share,
)
    requires
        exists|c: Seq<nat>|
            c.len() == degree_p + 1 && all_reduced(c) && c[0] == bytes_value(secret@) % modulus()
                && #[trigger] is_standard_sharing(c, networks, mother, daughters),
        forall|c: Seq<nat>|
            c.len() == degree_p + 1 && all_reduced(c) && #[trigger] is_standard_sharing(
                c,
                networks,
                mother,
                daughters,
            ) ==> bytes_value(s@) == c[0],
    ensures
        bytes_value(s@) == bytes_value(secret@) % modulus(),
{
}

/// Local MULTISS recovers the secret: when the kept values and shares are a
/// local sharing of the secret and reconstruction returns a value, that
/// value is the secret as a field element.
pub proof fn lemma_local_recovers(
    secret: Share,
    degree_p: nat,
    networks: Seq<NetworkConfig>,
    kept: Seq<Share>,
    daughters: Seq<Vec<Share>>,
    s: Share,
)
    requires
        exists|c: Seq<nat>, a: Seq<nat>|
            c.len() == degree_p + 1 && all_reduced(c) && c[0] == bytes_value(secret@) % modulus()
                && all_reduced(a) && #[trigger] is_local_sharing(c, a, networks, kept, daughters),
        forall|c: Seq<nat>, a: Seq<nat>|
            c.len() == degree_p + 1 && all_reduced(c) && all_reduced(a) && #[trigger] is_local_sharing(
                c,
                a,
                networks,
                kept,
                daughters,
            ) ==> bytes_value(s@) == c[0],
    ensures
        bytes_value(s@) == bytes_value(secret@) % modulus(),
{
}

/// With every nonzero residue invertible, a polynomial of degree d is fixed
/// by its value at 1 and the values of its derivative at 2, ..., d + 1.
pub proof fn lemma_standard_points_determine(c: Seq<nat>, y: Seq<nat>, d: nat)
    requires
        c.len() == d + 1,
        y.len() == d + 1,
        all_reduced(c),
        all_reduced(y),
        d <= usize::MAX,
        !some_nonzero_not_invertible(),
        poly_eval(y, 1) == poly_eval(c, 1),
        forall|j: nat| 2 <= j <= d + 1 ==> #[trigger] poly_eval(derivative(y, 1), j) == poly_eval(
            derivative(c, 1),
            j,
        ),
    ensures
        y == c,
{
    crate::field::lemma_modulus();
    let dy = derivative(y, 1);
    let dc = derivative(c, 1);
    let delta = coefficients_sub(dy, dc);
    // The derivatives differ by a polynomial that vanishes at 2, ..., d + 1,
    // hence everywhere, hence has zero coefficients.
    if d > 0 {
        let z = Seq::new(d, |i: int| (i + 2) as nat);
        assert forall|i: int, j: int| 0 <= i < z.len() && 0 <= j < z.len() && i != j implies crate::field::invertible(
            #[trigger] fsub(z[i], z[j]),
        ) by {
            crate::algebra::lemma_ops_as_residues(z[i], z[j]);
            if fsub(z[i], z[j]) == 0 {
                crate::algebra::lemma_identities(z[j]);
                crate::algebra::lemma_sub_cancel(z[i], z[j], z[j]);
            }
        }
        assert forall|i: int| 0 <= i < z.len() implies #[trigger] z[i] < modulus() by {}
        assert forall|i: int| 0 <= i < delta.len() implies #[trigger] delta[i] < modulus() by {
            crate::algebra::lemma_ops_as_residues(dy[i], dc[i]);
        }
        assert forall|i: int| 0 <= i < z.len() implies poly_eval(delta, #[trigger] z[i]) == 0 by {
            lemma_eval_sub(dy, dc, z[i]);
            assert(poly_eval(dy, z[i]) == poly_eval(dc, z[i]));
            crate::algebra::lemma_identities(poly_eval(dc, z[i]));
        }
        assert forall|t: nat| t < modulus() implies #[trigger] poly_eval(delta, t) == 0 by {
            lemma_vanishing_everywhere(delta, z, t);
        }
        lemma_zero_polynomial(delta);
    }
    // Each coefficient after the first: (m + 1) y_(m+1) = (m + 1) c_(m+1).
    assert forall|m: int| 1 <= m <= d implies #[trigger] y[m] == c[m] by {
        let k = m - 1;
        assert(crate::secret_sharing::falling((k + 1) as nat, 1) == (k + 1) * crate::secret_sharing::falling(
            k as nat,
            0,
        ));
        let g = crate::secret_sharing::falling(k as nat, 0);
        assert(g == 1);
        assert((k + 1) * g == k + 1) by (nonlinear_arith)
            requires
                g == 1,
        ;
        assert(crate::secret_sharing::falling((k + 1) as nat, 1) == m);
        assert(dy[k] == fmul(m as nat, y[m]));
        assert(dc[k] == fmul(m as nat, c[m]));
        assert(delta[k] == 0);
        crate::secret_sharing::evaluation::lemma_eval_reduced(y, 0);
        crate::algebra::lemma_ops_as_residues(m as nat, y[m]);
        crate::algebra::lemma_ops_as_residues(m as nat, c[m]);
        crate::algebra::lemma_identities(dc[k]);
        crate::algebra::lemma_sub_cancel(dy[k], dc[k], dc[k]);
        assert(0 < m < modulus());
        assert(crate::field::invertible(m as nat));
        crate::algebra::lemma_cancel(m as nat, y[m], c[m]);
    }
    // The constant term, from the value at 1.
    assert(y.drop_first() =~= c.drop_first());
    let x = fmul(poly_eval(y.drop_first(), 1), 1);
    crate::algebra::lemma_comm_assoc(x, y[0], 0);
    crate::algebra::lemma_comm_assoc(x, c[0], 0);
    crate::algebra::lemma_solve_add(y[0], x, fadd(c[0], x));
    crate::algebra::lemma_solve_add(c[0], x, fadd(c[0], x));
    crate::algebra::lemma_ops_as_residues(c[0], x);
    assert(y =~= c);
}

} // verus!
