//! The Birkhoff sharing protocol: how many shares of each derivative order
//! are handed out, and the split of a secret into such shares.

use crate::algebra::{
    lemma_comm_assoc, lemma_identities, lemma_ops_as_residues, lemma_residue_absorbs,
    lemma_residue_reduced,
};
use crate::birkhoff::linear::{
    dot, dot_range, is_unique_solution, lemma_dot_reduced, lemma_dot_split, lemma_dot_zeros, solves,
};
use crate::birkhoff::primitives::{
    derivative_row, derivative_term, falling_field, is_stable_sort_by_degree, of_degree, share_views,
    times_power, BirkhoffShare,
};
use crate::field::{fint, fmul, lemma_modulus};
use crate::secret_sharing::evaluation::{fpow, lemma_eval_is_sum, lemma_fpow_reduced, powers};
use crate::secret_sharing::{falling, lemma_falling_step};
use crate::bytes::bytes_value;
use crate::errors::BirkhoffError;
use crate::field::{modulus, Element};
use crate::secret_sharing::{all_reduced, derivative, derivative_fits, poly_eval, Polynomial};
use crate::Share;
use rand_chacha::ChaCha20Rng;
use vstd::prelude::*;

verus! {

/// Sum of the first k entries.
pub open spec fn prefix_sum(s: Seq<usize>, k: int) -> nat
    decreases k,
{
    if k <= 0 {
        0
    } else {
        prefix_sum(s, k - 1) + (s[k - 1] as nat)
    }
}

/// The scan of the protocol stops at order k: the orders up to k give no
/// more equations than there are orders, or already enough equations for a
/// polynomial of the degree.
pub open spec fn stops_at(s: Seq<usize>, degree: nat, k: int) -> bool {
    prefix_sum(s, k + 1) <= k || prefix_sum(s, k + 1) >= degree + 1
}

/// The counting condition on a protocol: some order k brings the number of
/// equations to degree + 1, and every order l up to it leaves more equations
/// than orders (orders 0..=l give more than l shares). It is necessary for
/// the Birkhoff system to have a unique solution.
pub open spec fn meets_counting_condition(degree: nat, s: Seq<usize>) -> bool {
    exists|k: int|
        0 <= k < s.len() && #[trigger] prefix_sum(s, k + 1) >= degree + 1 && forall|l: int|
            0 <= l <= k ==> #[trigger] prefix_sum(s, l + 1) > l
}

/// The running sums of the scan fit in a machine word up to where it stops.
pub open spec fn scan_fits(degree: nat, s: Seq<usize>) -> bool {
    forall|k: int|
        0 <= k < s.len() && (forall|l: int| 0 <= l < k ==> !#[trigger] stops_at(s, degree, l)) ==> #[trigger] prefix_sum(
            s,
            k + 1,
        ) <= usize::MAX
}

/// Prefix sums do not decrease.
proof fn lemma_prefix_monotone(s: Seq<usize>, j: int, k: int)
    requires
        0 <= j <= k,
    ensures
        prefix_sum(s, j) <= prefix_sum(s, k),
    decreases k - j,
{
    if j < k {
        lemma_prefix_monotone(s, j, k - 1);
    }
}

/// When every order up to k has a share, orders 0..=l hold at least l + 1
/// shares for each l up to k.
proof fn lemma_prefix_at_least(s: Seq<usize>, k: int, l: int)
    requires
        0 <= l <= k < s.len(),
        forall|j: int| 0 <= j <= k ==> #[trigger] s[j] >= 1,
    ensures
        prefix_sum(s, l + 1) >= l + 1,
    decreases l,
{
    assert(s[l] >= 1);
    if l > 0 {
        lemma_prefix_at_least(s, k, l - 1);
    }
}

/// Law (enough for acceptance): if every order up to k has at least one
/// share and the orders 0..=k together have degree + 1 shares, the counts
/// meet the counting condition, whatever follows order k. In particular
/// degree + 1 shares of order 0 alone always do.
pub proof fn lemma_counting_condition_sufficient(degree: nat, s: Seq<usize>, k: int)
    requires
        0 <= k < s.len(),
        forall|l: int| 0 <= l <= k ==> #[trigger] s[l] >= 1,
        prefix_sum(s, k + 1) >= degree + 1,
    ensures
        meets_counting_condition(degree, s),
{
    assert forall|l: int| 0 <= l <= k implies #[trigger] prefix_sum(s, l + 1) > l by {
        lemma_prefix_at_least(s, k, l);
    }
}

/// Law (needed for acceptance): counts that meet the counting condition give
/// order 0 at least one share and have at least degree + 1 shares in all.
pub proof fn lemma_counting_condition_necessary(degree: nat, s: Seq<usize>)
    requires
        meets_counting_condition(degree, s),
    ensures
        s.len() >= 1,
        s[0] >= 1,
        prefix_sum(s, s.len() as int) >= degree + 1,
{
    let k = choose|k: int|
        0 <= k < s.len() && #[trigger] prefix_sum(s, k + 1) >= degree + 1 && forall|l: int|
            0 <= l <= k ==> #[trigger] prefix_sum(s, l + 1) > l;
    let first: int = 0;
    assert(prefix_sum(s, first + 1) > first);
    assert(prefix_sum(s, 0) == 0);
    lemma_prefix_monotone(s, k + 1, s.len() as int);
}

/// Law (a single order): counts with shares of order 0 only, as in Shamir's
/// scheme, meet the counting condition exactly when there are at least
/// degree + 1 shares.
pub proof fn lemma_counting_condition_single_order(degree: nat, n: usize)
    ensures
        meets_counting_condition(degree, seq![n]) <==> n >= degree + 1,
{
    let s = seq![n];
    assert(prefix_sum(s, 0) == 0);
    assert(prefix_sum(s, 1) == n);
    if n >= degree + 1 {
        lemma_counting_condition_sufficient(degree, s, 0);
    }
    if meets_counting_condition(degree, s) {
        lemma_counting_condition_necessary(degree, s);
    }
}

/// A Birkhoff protocol: the degree of the sharing polynomial, and for each
/// derivative order the number of shares of that order.
pub struct BProtocol {
    degree: usize,
    subnetworks: Vec<usize>,
}

impl BProtocol {
    #[verifier::type_invariant]
    spec fn well_formed(self) -> bool {
        self.degree < usize::MAX
    }

    /// The degree of the sharing polynomial.
    pub closed spec fn spec_degree(&self) -> usize {
        self.degree
    }

    /// The number of shares of each derivative order.
    pub closed spec fn spec_subnetworks(&self) -> Seq<usize> {
        self.subnetworks@
    }

    /// A protocol whose share counts meet the counting condition, without
    /// which the Birkhoff system of its shares cannot have a unique solution.
    /// The condition does not by itself guarantee that the system is
    /// uniquely solvable.
    ///
    /// Error: the counts fail the condition (`ProtocolNonSolvable`).
    pub fn new(degree: usize, subnetworks: Vec<usize>) -> (r: Result<Self, BirkhoffError>)
        requires
            degree < usize::MAX,
            scan_fits(degree as nat, subnetworks@),
        ensures
            meets_counting_condition(degree as nat, subnetworks@) ==> (r matches Ok(p) && p.spec_degree() == degree
                && p.spec_subnetworks() == subnetworks@),
            !meets_counting_condition(degree as nat, subnetworks@) ==> r == Err::<Self, BirkhoffError>(
                BirkhoffError::ProtocolNonSolvable,
            ),
            subnetworks@.len() >= 1 && subnetworks@[0] > degree ==> r is Ok,
            r is Ok ==> subnetworks@.len() >= 1 && subnetworks@[0] >= 1 && prefix_sum(
                subnetworks@,
                subnetworks@.len() as int,
            ) > degree,
    {
        proof {
            let s = subnetworks@;
            if s.len() >= 1 && s[0] > degree {
                assert(prefix_sum(s, 0) == 0);
                assert(prefix_sum(s, 1) == s[0]);
                lemma_counting_condition_sufficient(degree as nat, s, 0);
            }
            if meets_counting_condition(degree as nat, s) {
                lemma_counting_condition_necessary(degree as nat, s);
            }
        }
        if Self::is_valid(degree, &subnetworks) {
            Ok(Self { degree, subnetworks })
        } else {
            Err(BirkhoffError::ProtocolNonSolvable)
        }
    }

    /// Scans the orders, counting the equations and the slack of equations
    /// over orders, and decides the counting condition.
    fn is_valid(degree: usize, subnetworks: &Vec<usize>) -> (r: bool)
        requires
            degree < usize::MAX,
            scan_fits(degree as nat, subnetworks@),
        ensures
            r == meets_counting_condition(degree as nat, subnetworks@),
    {
        let ghost s = subnetworks@;
        let mut number_useful_eq: usize = 0;
        let mut current_threshold: usize = 0;
        let required_equations = degree + 1;
        let mut k: usize = 0;
        while k < subnetworks.len()
            invariant
                k <= s.len(),
                s == subnetworks@,
                degree < usize::MAX,
                required_equations == degree + 1,
                scan_fits(degree as nat, s),
                number_useful_eq == prefix_sum(s, k as int),
                current_threshold + k == prefix_sum(s, k as int),
                forall|l: int| 0 <= l < k ==> !#[trigger] stops_at(s, degree as nat, l),
            decreases s.len() - k,
        {
            let points = subnetworks[k];
            proof {
                assert(prefix_sum(s, k + 1) <= usize::MAX);
            }
            number_useful_eq += points;
            current_threshold += points;
            if current_threshold == 0 {
                proof {
                    assert forall|j: int| 0 <= j < s.len() && #[trigger] prefix_sum(s, j + 1) >= degree + 1 implies exists|
                        l: int,
                    | 0 <= l <= j && #[trigger] prefix_sum(s, l + 1) <= l by {
                        if j < k {
                            assert(stops_at(s, degree as nat, j));
                        } else {
                            assert(prefix_sum(s, k + 1) <= k);
                        }
                    }
                }
                return false;
            }
            current_threshold -= 1;
            if number_useful_eq >= required_equations {
                proof {
                    assert forall|l: int| 0 <= l <= k implies #[trigger] prefix_sum(s, l + 1) > l by {
                        if l < k {
                            assert(!stops_at(s, degree as nat, l));
                        }
                    }
                    assert(prefix_sum(s, k + 1) >= degree + 1);
                }
                return true;
            }
            proof {
                assert(!stops_at(s, degree as nat, k as int));
            }
            k += 1;
        }
        proof {
            assert forall|j: int| 0 <= j < s.len() implies !(#[trigger] prefix_sum(s, j + 1) >= degree + 1) by {
                assert(!stops_at(s, degree as nat, j));
            }
            if s.len() > 0 {
                assert(!stops_at(s, degree as nat, s.len() - 1));
                assert(number_useful_eq == prefix_sum(s, s.len() - 1 + 1));
            }
            assert(number_useful_eq < required_equations);
            assert(!meets_counting_condition(degree as nat, s));
        }
        number_useful_eq >= required_equations
    }

    /// The degree of the sharing polynomial.
    pub fn degree(&self) -> (r: usize)
        ensures
            r == self.spec_degree(),
    {
        self.degree
    }

    /// The number of shares of each derivative order.
    pub fn subnetworks(&self) -> (r: &Vec<usize>)
        ensures
            r@ == self.spec_subnetworks(),
    {
        &self.subnetworks
    }
}

/// The shares of one order: the values at 1, ..., count of the derivative of
/// that order of the polynomial with coefficients c.
pub open spec fn order_shares(c: Seq<nat>, order: usize, count: nat) -> Seq<(nat, usize, nat)> {
    Seq::new(count, |p: int| order_share(c, order, (p + 1) as nat))
}

/// The share of an order at a position.
pub open spec fn order_share(c: Seq<nat>, order: usize, position: nat) -> (nat, usize, nat) {
    (position, order, poly_eval(derivative(c, order as nat), position))
}

/// The shares that splitting with coefficients c hands out: the shares of
/// order 0, then those of order 1, and so on.
pub open spec fn split_views(c: Seq<nat>, s: Seq<usize>) -> Seq<(nat, usize, nat)>
    decreases s.len(),
{
    if s.len() == 0 {
        Seq::empty()
    } else {
        split_views(c, s.drop_last()) + order_shares(c, (s.len() - 1) as usize, s.last() as nat)
    }
}

/// Where the share of order k at position p + 1 stands among the shares of a
/// split: after all the shares of the lower orders.
pub open spec fn share_slot(s: Seq<usize>, k: int, p: int) -> int {
    prefix_sum(s, k) + p
}

/// Law (layout of a split): the shares come order after order, and order k
/// gets exactly s[k] shares, the values of the k-th derivative at the
/// positions 1, ..., s[k]; so there are s[0] + ... + s[len - 1] shares in all,
/// however large a count is.
pub proof fn lemma_split_layout(c: Seq<nat>, s: Seq<usize>)
    requires
        s.len() <= usize::MAX,
    ensures
        split_views(c, s).len() == prefix_sum(s, s.len() as int),
        forall|k: int, p: int|
            0 <= k < s.len() && 0 <= p < s[k] ==> split_views(c, s)[#[trigger] share_slot(s, k, p)] == (
                (p + 1) as nat,
                k as usize,
                poly_eval(derivative(c, k as nat), (p + 1) as nat),
            ),
    decreases s.len(),
{
    if s.len() > 0 {
        let n = s.len() - 1;
        let t = s.drop_last();
        let last = seq![s.last()];
        lemma_split_layout(c, t);
        assert(t + last =~= s);
        lemma_prefix_append(t, last, n);
        let front = split_views(c, t);
        let back = order_shares(c, n as usize, s.last() as nat);
        assert(split_views(c, s) == front + back);
        assert forall|k: int, p: int| 0 <= k < s.len() && 0 <= p < s[k] implies split_views(
            c,
            s,
        )[#[trigger] share_slot(s, k, p)] == (
            (p + 1) as nat,
            k as usize,
            poly_eval(derivative(c, k as nat), (p + 1) as nat),
        ) by {
            if k < n {
                lemma_prefix_append(t, last, k);
                lemma_prefix_append(t, last, k + 1);
                lemma_prefix_monotone(t, k + 1, n);
                assert(t[k] == s[k]);
                assert(share_slot(s, k, p) == share_slot(t, k, p));
                assert((front + back)[share_slot(t, k, p)] == front[share_slot(t, k, p)]);
            } else {
                assert((front + back)[share_slot(s, k, p)] == back[p]);
            }
        }
    }
}

/// Splits a secret into Birkhoff shares: a polynomial of the protocol's
/// degree is drawn with the secret as constant term, and each order gets the
/// values of that derivative at 1, 2, ..., its count. The shares come order
/// after order, so there are as many as the counts add up to.
pub fn birkhoff_split(secret: &Share, protocol_parameters: &BProtocol, rng: &mut ChaCha20Rng) -> (r: Vec<
    BirkhoffShare,
>)
    requires
        forall|o: int|
            0 <= o < protocol_parameters.spec_subnetworks().len() ==> #[trigger] derivative_fits(
                (protocol_parameters.spec_degree() + 1) as nat,
                o as nat,
            ),
    ensures
        share_views(r@).len() == prefix_sum(
            protocol_parameters.spec_subnetworks(),
            protocol_parameters.spec_subnetworks().len() as int,
        ),
        exists|c: Seq<nat>|
            c.len() == protocol_parameters.spec_degree() + 1 && all_reduced(c) && c[0] == bytes_value(secret@)
                % modulus() && share_views(r@) == split_views(c, protocol_parameters.spec_subnetworks())
                && forall|k: int, p: int|
                0 <= k < protocol_parameters.spec_subnetworks().len() && 0 <= p
                    < protocol_parameters.spec_subnetworks()[k] ==> share_views(r@)[#[trigger] share_slot(
                    protocol_parameters.spec_subnetworks(),
                    k,
                    p,
                )] == ((p + 1) as nat, k as usize, poly_eval(derivative(c, k as nat), (p + 1) as nat)),
{
    proof {
        use_type_invariant(protocol_parameters);
    }
    let polynomial = Polynomial::new_shamir(secret, protocol_parameters.degree, rng);
    let ghost c = polynomial@;
    proof {
        assert forall|i: int| 0 <= i < c.len() implies #[trigger] c[i] < modulus() by {
            crate::field::lemma_element_bound(polynomial.0@[i]);
        }
    }
    let subnetworks = &protocol_parameters.subnetworks;
    let ghost s = subnetworks@;
    let mut shares: Vec<BirkhoffShare> = Vec::new();
    let mut order: usize = 0;
    proof {
        assert forall|o: int| 0 <= o < s.len() implies #[trigger] derivative_fits(c.len(), o as nat) by {
            assert(derivative_fits((protocol_parameters.spec_degree() + 1) as nat, o as nat));
        }
        assert(s.take(0) =~= Seq::<usize>::empty());
        assert(share_views(shares@) =~= split_views(c, s.take(0)));
    }
    while order < subnetworks.len()
        invariant
            order <= s.len(),
            s == subnetworks@,
            c == polynomial@,
            c.len() == protocol_parameters.spec_degree() + 1,
            forall|o: int| 0 <= o < s.len() ==> #[trigger] derivative_fits(c.len(), o as nat),
            share_views(shares@) == split_views(c, s.take(order as int)),
        decreases s.len() - order,
    {
        let count = subnetworks[order];
        let ghost start = share_views(shares@);
        let mut done: usize = 0;
        proof {
            let o: int = order as int;
            assert(0 <= o < s.len());
            assert(derivative_fits(c.len(), o as nat));
            assert(order_shares(c, order, 0) =~= Seq::<(nat, usize, nat)>::empty());
            assert(start + order_shares(c, order, 0) =~= start);
        }
        while done < count
            invariant
                done <= count,
                count == s[order as int],
                order < s.len(),
                c == polynomial@,
                derivative_fits(c.len(), order as nat),
                share_views(shares@) == start + order_shares(c, order, done as nat),
            decreases count - done,
        {
            let position = done + 1;
            let point = Element::from_usize(position);
            let value = polynomial.evaluate_with_horner_method(&point, order);
            let ghost before = share_views(shares@);
            shares.push(BirkhoffShare::new(Element::from_usize(position), order, value));
            proof {
                assert(share_views(shares@) =~= before.push(order_share(c, order, position as nat)));
                assert(order_shares(c, order, position as nat) =~= order_shares(
                    c,
                    order,
                    done as nat,
                ).push(order_share(c, order, position as nat)));
                assert(start + order_shares(c, order, position as nat) =~= (start + order_shares(
                    c,
                    order,
                    done as nat,
                )).push(order_share(c, order, position as nat)));
            }
            done += 1;
        }
        proof {
            assert(s.take(order + 1).drop_last() =~= s.take(order as int));
            assert(s.take(order + 1).last() == count);
        }
        order += 1;
    }
    proof {
        assert(s.take(s.len() as int) =~= s);
        lemma_split_layout(c, s);
    }
    shares
}

/// The falling factorial multiplied out in the field is the residue of the
/// falling factorial.
proof fn lemma_falling_field(i: nat, d: nat)
    requires
        d <= i,
    ensures
        falling_field(i, d) == falling(i, d) % modulus(),
    decreases d,
{
    lemma_modulus();
    if d == 0 {
        lemma_residue_reduced(1);
    } else {
        lemma_falling_field(i, (d - 1) as nat);
        lemma_falling_step(i, (d - 1) as nat);
        let f = falling(i, (d - 1) as nat);
        lemma_ops_as_residues(f % modulus(), (i - (d - 1)) as nat);
        lemma_ops_as_residues(f, 0);
        lemma_residue_absorbs(f as int, (i - (d - 1)) as int);
        lemma_ops_as_residues(falling(i, d), 0);
    }
}

/// Multiplying k times by x is multiplying by x^k.
proof fn lemma_times_power(a: nat, x: nat, k: nat)
    requires
        a < modulus(),
    ensures
        times_power(a, x, k) == fmul(a, fpow(x, k)),
    decreases k,
{
    if k == 0 {
        lemma_identities(a);
        lemma_residue_reduced(a);
    } else {
        lemma_times_power(a, x, (k - 1) as nat);
        lemma_comm_assoc(a, fpow(x, (k - 1) as nat), x);
    }
}

/// A sum over a shifted range equals a sum over the start of another range
/// when the terms agree.
proof fn lemma_dot_shift(r1: Seq<nat>, y1: Seq<nat>, r2: Seq<nat>, y2: Seq<nat>, d: int, m: int)
    requires
        0 <= m,
        forall|j: int| 0 <= j < m ==> #[trigger] fmul(r2[j], y2[j]) == fmul(r1[j + d], y1[j + d]),
    ensures
        dot_range(r1, y1, d, d + m) == dot_range(r2, y2, 0, m),
    decreases m,
{
    if m > 0 {
        lemma_dot_shift(r1, y1, r2, y2, d, m - 1);
        assert(fmul(r2[m - 1], y2[m - 1]) == fmul(r1[m - 1 + d], y1[m - 1 + d]));
    }
}

/// The derivative row of a share, applied to the coefficients of a
/// polynomial, gives the value of that derivative of the polynomial at the
/// share's position.
pub proof fn lemma_derivative_row_value(x: nat, c: Seq<nat>, d: nat)
    requires
        c.len() >= 1,
        all_reduced(c),
    ensures
        dot(derivative_row(x, (c.len() - 1) as nat, d), c) == poly_eval(derivative(c, d), x),
{
    let n = c.len();
    let row = derivative_row(x, (n - 1) as nat, d);
    lemma_modulus();
    if d >= n {
        lemma_dot_zeros(row, c, 0, n as int);
        assert(derivative(c, d) =~= Seq::<nat>::empty());
    } else {
        let dd = derivative(c, d);
        let m = (n - d) as nat;
        let pw = powers(x, m);
        lemma_dot_split(row, c, 0, d as int, n as int);
        lemma_dot_zeros(row, c, 0, d as int);
        lemma_dot_reduced(row, c, d as int, n as int);
        lemma_identities(dot_range(row, c, d as int, n as int));
        lemma_residue_reduced(dot_range(row, c, d as int, n as int));
        lemma_eval_is_sum(dd, x);
        assert forall|j: int| 0 <= j < m implies #[trigger] fmul(dd[j], pw[j]) == fmul(
            row[j + d],
            c[j + d],
        ) by {
            let i = (j + d) as nat;
            let f = falling(i, d);
            let fr = f % modulus();
            let p = fpow(x, j as nat);
            lemma_falling_field(i, d);
            lemma_mod_bound_nat(f);
            lemma_fpow_reduced(x, j as nat);
            lemma_times_power(fr, x, j as nat);
            assert(row[j + d] == derivative_term(x, i, d));
            assert(row[j + d] == fmul(fr, p));
            // (fr p) c = (f c) p
            lemma_comm_assoc(fr, p, c[j + d]);
            lemma_comm_assoc(p, c[j + d], 0);
            lemma_comm_assoc(fr, c[j + d], p);
            lemma_ops_as_residues(fr, c[j + d]);
            lemma_ops_as_residues(f, c[j + d]);
            lemma_ops_as_residues(f, 0);
            lemma_residue_absorbs(f as int, c[j + d] as int);
            assert(dd[j] == fmul(f, c[j + d]));
        }
        lemma_dot_shift(row, c, dd, pw, d as int, m as int);
    }
}

/// x % p is below p.
proof fn lemma_mod_bound_nat(x: nat)
    ensures
        x % modulus() < modulus(),
{
    lemma_modulus();
    vstd::arithmetic::div_mod::lemma_mod_bound(x as int, modulus() as int);
}

/// Every share is consistent with the polynomial c: its value is the value
/// of the derivative of its order at its position.
pub open spec fn consistent_with(c: Seq<nat>, shares: Seq<(nat, usize, nat)>) -> bool {
    forall|i: int|
        0 <= i < shares.len() ==> (#[trigger] shares[i]).2 == poly_eval(derivative(c, shares[i].1 as nat), shares[i].0)
}

/// The shares that splitting hands out are consistent with its polynomial.
pub proof fn lemma_split_consistent(c: Seq<nat>, s: Seq<usize>)
    ensures
        consistent_with(c, split_views(c, s)),
    decreases s.len(),
{
    if s.len() > 0 {
        lemma_split_consistent(c, s.drop_last());
        let front = split_views(c, s.drop_last());
        let back = order_shares(c, (s.len() - 1) as usize, s.last() as nat);
        assert forall|i: int| 0 <= i < front.len() + back.len() implies (#[trigger] (front + back)[i]).2
            == poly_eval(derivative(c, (front + back)[i].1 as nat), (front + back)[i].0) by {
            if i < front.len() {
                assert((front + back)[i] == front[i]);
            } else {
                assert((front + back)[i] == back[i - front.len()]);
            }
        }
    }
}

/// An element of a selection by order is an element of the sequence.
proof fn lemma_of_degree_from(s: Seq<(nat, usize, nat)>, k: usize, j: int)
    requires
        0 <= j < of_degree(s, k).len(),
    ensures
        exists|i: int| 0 <= i < s.len() && s[i] == of_degree(s, k)[j],
    decreases s.len(),
{
    if s.len() > 0 {
        let r = of_degree(s.drop_last(), k);
        if s.last().1 == k && j == r.len() {
            assert(s[s.len() - 1] == of_degree(s, k)[j]);
        } else {
            lemma_of_degree_from(s.drop_last(), k, j);
            let i = choose|i: int| 0 <= i < s.drop_last().len() && s.drop_last()[i] == of_degree(s.drop_last(), k)[j];
            assert(s[i] == of_degree(s, k)[j]);
        }
    }
}

/// Every element of a sequence is in its selection of its own order.
proof fn lemma_of_degree_has(s: Seq<(nat, usize, nat)>, i: int)
    requires
        0 <= i < s.len(),
    ensures
        exists|j: int| 0 <= j < of_degree(s, s[i].1).len() && of_degree(s, s[i].1)[j] == s[i],
    decreases s.len(),
{
    let k = s[i].1;
    if i == s.len() - 1 {
        let r = of_degree(s.drop_last(), k);
        assert(of_degree(s, k)[r.len() as int] == s[i]);
    } else {
        lemma_of_degree_has(s.drop_last(), i);
        let j = choose|j: int| 0 <= j < of_degree(s.drop_last(), k).len() && of_degree(s.drop_last(), k)[j] == s.drop_last()[i];
        assert(of_degree(s, k)[j] == s[i]);
    }
}

/// A stable sort keeps the shares consistent with a polynomial.
pub proof fn lemma_sort_keeps_consistent(c: Seq<nat>, s: Seq<(nat, usize, nat)>, t: Seq<(nat, usize, nat)>)
    requires
        consistent_with(c, s),
        is_stable_sort_by_degree(s, t),
    ensures
        consistent_with(c, t),
{
    assert forall|i: int| 0 <= i < t.len() implies (#[trigger] t[i]).2 == poly_eval(derivative(c, t[i].1 as nat), t[i].0) by {
        lemma_of_degree_has(t, i);
        let k = t[i].1;
        let j = choose|j: int| 0 <= j < of_degree(t, k).len() && of_degree(t, k)[j] == t[i];
        assert(of_degree(t, k) == of_degree(s, k));
        lemma_of_degree_from(s, k, j);
        let a = choose|a: int| 0 <= a < s.len() && s[a] == of_degree(s, k)[j];
        assert(s[a] == t[i]);
    }
}

/// Law: a Birkhoff system built from shares consistent with a polynomial is
/// solved by that polynomial's coefficients, so a unique solution of it is
/// that polynomial.
pub proof fn lemma_consistent_system_recovers(
    c: Seq<nat>,
    t: Seq<(nat, usize, nat)>,
    a: Seq<Seq<nat>>,
    b: Seq<nat>,
    x: Seq<nat>,
)
    requires
        c.len() >= 1,
        all_reduced(c),
        consistent_with(c, t),
        t.len() >= c.len(),
        a.len() == c.len(),
        b.len() == c.len(),
        forall|i: int|
            0 <= i < c.len() ==> #[trigger] a[i] == derivative_row(t[i].0, (c.len() - 1) as nat, t[i].1 as nat)
                && b[i] == t[i].2,
        is_unique_solution(a, b, x),
    ensures
        x == c,
{
    assert forall|r: int| 0 <= r < a.len() implies #[trigger] dot(a[r], c) == b[r] by {
        lemma_derivative_row_value(t[r].0, c, t[r].1 as nat);
        assert(a[r] == derivative_row(t[r].0, (c.len() - 1) as nat, t[r].1 as nat));
    }
    assert(solves(a, b, c));
}

/// Law (Birkhoff reconstruction): share a polynomial c with `birkhoff_split`
/// (its shares are `split_views(c, s)`), sort the shares as `new_birkhoff`
/// does into t, build the system of the first deg + 1 of them, and solve it:
/// any solution `solution` returns is c itself, so its constant term is the
/// secret.
pub proof fn lemma_split_then_solve(
    c: Seq<nat>,
    s: Seq<usize>,
    t: Seq<(nat, usize, nat)>,
    a: Seq<Seq<nat>>,
    b: Seq<nat>,
    x: Seq<nat>,
)
    requires
        c.len() >= 1,
        all_reduced(c),
        is_stable_sort_by_degree(split_views(c, s), t),
        t.len() >= c.len(),
        a.len() == c.len(),
        b.len() == c.len(),
        forall|i: int|
            0 <= i < c.len() ==> #[trigger] a[i] == derivative_row(t[i].0, (c.len() - 1) as nat, t[i].1 as nat)
                && b[i] == t[i].2,
        is_unique_solution(a, b, x),
    ensures
        x == c,
        x[0] == c[0],
{
    lemma_split_consistent(c, s);
    lemma_sort_keeps_consistent(c, split_views(c, s), t);
    lemma_consistent_system_recovers(c, t, a, b, x);
}

/// The shares before a stable sort are consistent with a polynomial when the
/// sorted ones are.
pub proof fn lemma_sort_keeps_consistent_back(c: Seq<nat>, s: Seq<(nat, usize, nat)>, t: Seq<(nat, usize, nat)>)
    requires
        consistent_with(c, t),
        is_stable_sort_by_degree(s, t),
    ensures
        consistent_with(c, s),
{
    assert forall|i: int| 0 <= i < s.len() implies (#[trigger] s[i]).2 == poly_eval(derivative(c, s[i].1 as nat), s[i].0) by {
        lemma_of_degree_has(s, i);
        let k = s[i].1;
        let j = choose|j: int| 0 <= j < of_degree(s, k).len() && of_degree(s, k)[j] == s[i];
        assert(of_degree(t, k) == of_degree(s, k));
        lemma_of_degree_from(t, k, j);
        let a = choose|a: int| 0 <= a < t.len() && t[a] == of_degree(t, k)[j];
        assert(t[a] == s[i]);
    }
}

/// Prefix sums of a sequence are unchanged by what is appended to it.
proof fn lemma_prefix_append(s: Seq<usize>, t: Seq<usize>, k: int)
    requires
        k <= s.len(),
    ensures
        prefix_sum(s + t, k) == prefix_sum(s, k),
    decreases k,
{
    if k > 0 {
        lemma_prefix_append(s, t, k - 1);
        assert((s + t)[k - 1] == s[k - 1]);
    }
}

/// The counting condition is monotone: a protocol that meets it still does
/// for a lower degree, and with shares of further orders appended.
pub proof fn lemma_counting_condition_monotone(degree: nat, lower: nat, s: Seq<usize>, t: Seq<usize>)
    requires
        meets_counting_condition(degree, s),
        lower <= degree,
    ensures
        meets_counting_condition(lower, s),
        meets_counting_condition(degree, s + t),
{
    let k = choose|k: int|
        0 <= k < s.len() && #[trigger] prefix_sum(s, k + 1) >= degree + 1 && forall|l: int|
            0 <= l <= k ==> #[trigger] prefix_sum(s, l + 1) > l;
    assert(prefix_sum(s, k + 1) >= lower + 1);
    lemma_prefix_append(s, t, k + 1);
    assert forall|l: int| 0 <= l <= k implies #[trigger] prefix_sum(s + t, l + 1) > l by {
        lemma_prefix_append(s, t, l + 1);
        assert(prefix_sum(s, l + 1) > l);
    }
    assert(prefix_sum(s + t, k + 1) >= degree + 1);
}

} // verus!
