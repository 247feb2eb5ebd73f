//! Lagrange interpolation over the field: the basis of a set of points, and
//! the theorem that the weighted sum of a polynomial's values at enough points
//! gives its value anywhere.

use crate::algebra::{
    lemma_cancel, lemma_comm_assoc, lemma_distributes, lemma_identities, lemma_ops_as_residues,
    lemma_residue_reduced, lemma_sub_add,
};
use crate::field::{fadd, fmul, fsub, invertible, lemma_modulus, modulus};
use crate::natural::is_inverse_mod;
use crate::secret_sharing::shamir::weighted_sum;
use crate::secret_sharing::{all_reduced, poly_eval};
use vstd::arithmetic::div_mod::lemma_mod_bound;
use vstd::prelude::*;

verus! {

/// Product over j < `j`, j != i, of (x_j - a), in the field.
pub open spec fn product_except(x: Seq<nat>, i: int, a: nat, j: int) -> nat
    decreases j,
{
    if j <= 0 {
        1
    } else if j - 1 == i {
        product_except(x, i, a, j - 1)
    } else {
        fmul(product_except(x, i, a, j - 1), fsub(x[j - 1], a))
    }
}

/// Numerator of the i-th Lagrange basis polynomial at `point`: the product of
/// (x_j - point) over j != i.
pub open spec fn basis_numerator(x: Seq<nat>, i: int, point: nat) -> nat {
    product_except(x, i, point, x.len() as int)
}

/// Denominator of the i-th Lagrange basis polynomial: the product of
/// (x_j - x_i) over j != i.
pub open spec fn basis_denominator(x: Seq<nat>, i: int) -> nat {
    product_except(x, i, x[i], x.len() as int)
}

/// Lagrange constants `c` of the points `x` at `point`: c_i times the i-th
/// basis denominator is the i-th basis numerator.
pub open spec fn are_lagrange_constants(x: Seq<nat>, point: nat, c: Seq<nat>) -> bool {
    c.len() == x.len() && forall|i: int|
        0 <= i < c.len() ==> fmul(#[trigger] c[i], basis_denominator(x, i)) == basis_numerator(
            x,
            i,
            point,
        )
}

/// Every difference of two distinct points has an inverse.
pub open spec fn pairwise_invertible(x: Seq<nat>) -> bool {
    forall|i: int, j: int|
        0 <= i < x.len() && 0 <= j < x.len() && i != j ==> invertible(#[trigger] fsub(x[i], x[j]))
}

/// The values of a polynomial at each point.
pub open spec fn evaluations(c: Seq<nat>, x: Seq<nat>) -> Seq<nat> {
    x.map_values(|xi: nat| poly_eval(c, xi))
}

/// Sum in the field of a sequence, folded from the left.
pub open spec fn fsum(s: Seq<nat>) -> nat
    decreases s.len(),
{
    if s.len() == 0 {
        0
    } else {
        fadd(fsum(s.drop_last()), s.last())
    }
}

/// An inverse of `a`, where there is one.
pub open spec fn finv(a: nat) -> nat {
    choose|y: nat| is_inverse_mod(a, y, modulus())
}

/// The Lagrange constants of the points `x` at `point`, each the basis
/// numerator times an inverse of the basis denominator.
pub open spec fn lagrange_weights(x: Seq<nat>, point: nat) -> Seq<nat> {
    Seq::new(x.len(), |i: int| fmul(basis_numerator(x, i, point), finv(basis_denominator(x, i))))
}

/// Sums are reduced.
proof fn lemma_fsum_reduced(s: Seq<nat>)
    ensures
        fsum(s) < modulus(),
    decreases s.len(),
{
    lemma_modulus();
    if s.len() > 0 {
        lemma_mod_bound((fsum(s.drop_last()) + s.last()) as int, modulus() as int);
    }
}

/// The weighted sum is the sum of the products.
proof fn lemma_weighted_sum_as_fsum(f: Seq<nat>, y: Seq<nat>, k: nat)
    requires
        k <= f.len(),
        k <= y.len(),
    ensures
        weighted_sum(f, y, k) == fsum(Seq::new(k, |i: int| fmul(y[i], f[i]))),
    decreases k,
{
    if k > 0 {
        lemma_weighted_sum_as_fsum(f, y, (k - 1) as nat);
        let s = Seq::new(k, |i: int| fmul(y[i], f[i]));
        assert(s.drop_last() =~= Seq::new((k - 1) as nat, |i: int| fmul(y[i], f[i])));
    }
}

/// A sum of pointwise differences is the difference of the sums.
proof fn lemma_fsum_sub(s: Seq<nat>, u: Seq<nat>, v: Seq<nat>)
    requires
        s.len() == u.len() == v.len(),
        forall|i: int| 0 <= i < s.len() ==> #[trigger] s[i] == fsub(u[i], v[i]),
    ensures
        fsum(s) == fsub(fsum(u), fsum(v)),
    decreases s.len(),
{
    if s.len() == 0 {
        lemma_identities(0);
        lemma_modulus();
        lemma_residue_reduced(0);
    } else {
        lemma_fsum_sub(s.drop_last(), u.drop_last(), v.drop_last());
        let a = fsum(u.drop_last());
        let b = fsum(v.drop_last());
        let x = u.last();
        let y = v.last();
        assert(s.last() == fsub(x, y));
        crate::algebra::lemma_add_of_subs(a, b, x, y);
    }
}

/// A sum of pointwise sums is the sum of the sums.
proof fn lemma_fsum_add(s: Seq<nat>, u: Seq<nat>, v: Seq<nat>)
    requires
        s.len() == u.len() == v.len(),
        forall|i: int| 0 <= i < s.len() ==> #[trigger] s[i] == fadd(u[i], v[i]),
    ensures
        fsum(s) == fadd(fsum(u), fsum(v)),
    decreases s.len(),
{
    if s.len() == 0 {
        lemma_modulus();
        lemma_residue_reduced(0);
    } else {
        lemma_fsum_add(s.drop_last(), u.drop_last(), v.drop_last());
        let a = fsum(u.drop_last());
        let b = fsum(v.drop_last());
        let x = u.last();
        let y = v.last();
        assert(s.last() == fadd(x, y));
        lemma_fadd_swap(a, b, x, y);
    }
}

/// (a + b) + (x + y) = (a + x) + (b + y).
proof fn lemma_fadd_swap(a: nat, b: nat, x: nat, y: nat)
    ensures
        fadd(fadd(a, b), fadd(x, y)) == fadd(fadd(a, x), fadd(b, y)),
{
    lemma_comm_assoc(a, b, fadd(x, y));
    lemma_comm_assoc(b, x, y);
    lemma_comm_assoc(x, b, y);
    lemma_comm_assoc(b, x, 0);
    lemma_comm_assoc(a, x, fadd(b, y));
}

/// A sum of pointwise multiples is the multiple of the sum.
proof fn lemma_fsum_scale(s: Seq<nat>, g: nat, u: Seq<nat>)
    requires
        s.len() == u.len(),
        forall|i: int| 0 <= i < s.len() ==> #[trigger] s[i] == fmul(g, u[i]),
    ensures
        fsum(s) == fmul(g, fsum(u)),
    decreases s.len(),
{
    if s.len() == 0 {
        lemma_identities(g);
    } else {
        lemma_fsum_scale(s.drop_last(), g, u.drop_last());
        assert(s.last() == fmul(g, u.last()));
        lemma_distributes(g, fsum(u.drop_last()), u.last());
    }
}

/// A zero last term adds nothing.
proof fn lemma_fsum_last_zero(s: Seq<nat>)
    requires
        s.len() > 0,
        s.last() == 0,
    ensures
        fsum(s) == fsum(s.drop_last()),
{
    lemma_fsum_reduced(s.drop_last());
    lemma_identities(fsum(s.drop_last()));
    lemma_residue_reduced(fsum(s.drop_last()));
}

/// A sum splits off its first term.
proof fn lemma_fsum_first(s: Seq<nat>)
    requires
        s.len() > 0,
    ensures
        fsum(s) == fadd(s[0], fsum(s.drop_first())),
    decreases s.len(),
{
    if s.len() == 1 {
        assert(s.drop_last().len() == 0);
        assert(s.drop_first().len() == 0);
        assert(s.last() == s[0]);
        assert(fsum(s.drop_last()) == 0);
        assert(fsum(s.drop_first()) == 0);
        lemma_comm_assoc(0, s[0], 0);
    } else {
        lemma_fsum_first(s.drop_last());
        assert(s.drop_last().drop_first() =~= s.drop_first().drop_last());
        assert(s.drop_first().last() == s.last());
        assert(s.drop_last()[0] == s[0]);
        assert(fsum(s.drop_first()) == fadd(fsum(s.drop_first().drop_last()), s.last()));
        lemma_comm_assoc(s[0], fsum(s.drop_first().drop_last()), s.last());
    }
}

/// Products are reduced.
pub proof fn lemma_product_reduced(x: Seq<nat>, i: int, a: nat, j: int)
    ensures
        product_except(x, i, a, j) < modulus(),
    decreases j,
{
    lemma_modulus();
    if j > 0 {
        lemma_product_reduced(x, i, a, j - 1);
        lemma_ops_as_residues(product_except(x, i, a, j - 1), fsub(x[j - 1], a));
    }
}

/// A product stops short of the last point as it would on the sequence
/// without it.
proof fn lemma_product_drop_last(x: Seq<nat>, i: int, a: nat, j: int)
    requires
        x.len() > 0,
        j <= x.len() - 1,
    ensures
        product_except(x, i, a, j) == product_except(x.drop_last(), i, a, j),
    decreases j,
{
    if j > 0 {
        lemma_product_drop_last(x, i, a, j - 1);
        assert(x[j - 1] == x.drop_last()[j - 1]);
    }
}

/// Without its first point, a product loses the factor (x_0 - a).
proof fn lemma_product_drop_first(x: Seq<nat>, i: int, a: nat, j: int)
    requires
        1 <= i,
        1 <= j <= x.len(),
    ensures
        product_except(x, i, a, j) == fmul(fsub(x[0], a), product_except(x.drop_first(), i - 1, a, j - 1)),
    decreases j,
{
    let f0 = fsub(x[0], a);
    let d = x.drop_first();
    lemma_modulus();
    if j == 1 {
        assert(product_except(x, i, a, 0) == 1);
        assert(product_except(d, i - 1, a, 0) == 1);
        lemma_comm_assoc(1, f0, 0);
    } else {
        lemma_product_drop_first(x, i, a, j - 1);
        if j - 1 != i {
            assert(x[j - 1] == d[j - 2]);
            lemma_comm_assoc(f0, product_except(d, i - 1, a, j - 2), fsub(x[j - 1], a));
        }
    }
}

/// The product of two invertible values is invertible.
pub proof fn lemma_invertible_mul(a: nat, b: nat)
    requires
        invertible(a),
        invertible(b),
    ensures
        invertible(fmul(a, b)),
{
    let ya = choose|y: nat| is_inverse_mod(a, y, modulus());
    let yb = choose|y: nat| is_inverse_mod(b, y, modulus());
    assert(fmul(a, ya) == 1);
    assert(fmul(b, yb) == 1);
    lemma_mul_swap(a, b, ya, yb);
    lemma_modulus();
    lemma_residue_reduced(1);
    lemma_identities(1);
    assert(is_inverse_mod(fmul(a, b), fmul(ya, yb), modulus()));
}

/// (a b)(c d) = (a c)(b d).
proof fn lemma_mul_swap(a: nat, b: nat, c: nat, d: nat)
    ensures
        fmul(fmul(a, b), fmul(c, d)) == fmul(fmul(a, c), fmul(b, d)),
{
    lemma_comm_assoc(a, b, fmul(c, d));
    lemma_comm_assoc(b, c, d);
    lemma_comm_assoc(c, b, d);
    lemma_comm_assoc(b, c, 0);
    lemma_comm_assoc(a, c, fmul(b, d));
}

/// A product of invertible factors is invertible.
proof fn lemma_product_invertible(x: Seq<nat>, i: int, a: nat, j: int)
    requires
        j <= x.len(),
        forall|m: int| 0 <= m < j && m != i ==> invertible(#[trigger] fsub(x[m], a)),
    ensures
        invertible(product_except(x, i, a, j)),
    decreases j,
{
    if j <= 0 {
        lemma_modulus();
        lemma_residue_reduced(1);
        assert(is_inverse_mod(1, 1, modulus()));
    } else {
        lemma_product_invertible(x, i, a, j - 1);
        if j - 1 != i {
            lemma_invertible_mul(product_except(x, i, a, j - 1), fsub(x[j - 1], a));
        }
    }
}

/// Distinct points with invertible differences have invertible basis
/// denominators.
proof fn lemma_denominator_invertible(x: Seq<nat>, i: int)
    requires
        pairwise_invertible(x),
        0 <= i < x.len(),
    ensures
        invertible(basis_denominator(x, i)),
{
    assert forall|m: int| 0 <= m < x.len() && m != i implies invertible(#[trigger] fsub(x[m], x[i])) by {
        assert(invertible(fsub(x[m], x[i])));
    }
    lemma_product_invertible(x, i, x[i], x.len() as int);
}

/// The canonical weights are Lagrange constants, and they are reduced.
proof fn lemma_weights_are_constants(x: Seq<nat>, point: nat)
    requires
        pairwise_invertible(x),
    ensures
        are_lagrange_constants(x, point, lagrange_weights(x, point)),
        all_reduced(lagrange_weights(x, point)),
{
    let w = lagrange_weights(x, point);
    lemma_modulus();
    assert forall|i: int| 0 <= i < w.len() implies fmul(#[trigger] w[i], basis_denominator(x, i))
        == basis_numerator(x, i, point) && w[i] < modulus() by {
        let d = basis_denominator(x, i);
        let n = basis_numerator(x, i, point);
        lemma_denominator_invertible(x, i);
        let y = finv(d);
        assert(fmul(d, y) == 1);
        lemma_comm_assoc(n, y, d);
        lemma_comm_assoc(y, d, 0);
        lemma_identities(n);
        lemma_product_reduced(x, i, point, x.len() as int);
        lemma_residue_reduced(n);
        lemma_ops_as_residues(n, y);
    }
}

/// Lagrange constants of points with invertible differences are the
/// canonical weights.
pub proof fn lemma_constants_unique(x: Seq<nat>, point: nat, c: Seq<nat>)
    requires
        pairwise_invertible(x),
        are_lagrange_constants(x, point, c),
        all_reduced(c),
    ensures
        c == lagrange_weights(x, point),
{
    let w = lagrange_weights(x, point);
    lemma_weights_are_constants(x, point);
    assert forall|i: int| 0 <= i < c.len() implies #[trigger] c[i] == w[i] by {
        let d = basis_denominator(x, i);
        lemma_denominator_invertible(x, i);
        lemma_comm_assoc(c[i], d, 0);
        lemma_comm_assoc(w[i], d, 0);
        lemma_cancel(d, c[i], w[i]);
    }
    assert(c =~= w);
}

/// One step of the Lagrange recurrences: from w d = n, w' d' = n',
/// d = d' e and n = n' g, with d' invertible, follows w e = g w'.
proof fn lemma_weight_step(w: nat, d: nat, n: nat, wp: nat, dp: nat, np: nat, e: nat, g: nat)
    requires
        invertible(dp),
        fmul(w, d) == n,
        fmul(wp, dp) == np,
        d == fmul(dp, e),
        n == fmul(np, g),
    ensures
        fmul(w, e) == fmul(g, wp),
{
    lemma_comm_assoc(dp, w, e);
    lemma_comm_assoc(w, dp, e);
    lemma_comm_assoc(dp, w, 0);
    lemma_comm_assoc(wp, dp, g);
    lemma_comm_assoc(dp, wp, g);
    lemma_comm_assoc(wp, dp, 0);
    lemma_comm_assoc(wp, g, 0);
    lemma_ops_as_residues(w, e);
    lemma_ops_as_residues(wp, g);
    lemma_cancel(dp, fmul(w, e), fmul(wp, g));
}

/// Dropping a point keeps the differences invertible.
proof fn lemma_pairwise_sub(x: Seq<nat>)
    requires
        pairwise_invertible(x),
        x.len() > 0,
    ensures
        pairwise_invertible(x.drop_last()),
        pairwise_invertible(x.drop_first()),
{
    let l = x.drop_last();
    let f = x.drop_first();
    assert forall|i: int, j: int| 0 <= i < l.len() && 0 <= j < l.len() && i != j implies invertible(
        #[trigger] fsub(l[i], l[j]),
    ) by {
        assert(invertible(fsub(x[i], x[j])));
    }
    assert forall|i: int, j: int| 0 <= i < f.len() && 0 <= j < f.len() && i != j implies invertible(
        #[trigger] fsub(f[i], f[j]),
    ) by {
        assert(invertible(fsub(x[i + 1], x[j + 1])));
    }
}

/// (a - x) - (b - x) = a - b.
proof fn lemma_sub_common(a: nat, b: nat, x: nat)
    ensures
        fsub(fsub(a, x), fsub(b, x)) == fsub(a, b),
{
    lemma_ops_as_residues(fsub(a, x), fsub(b, x));
    lemma_ops_as_residues(a, x);
    lemma_ops_as_residues(b, x);
    lemma_ops_as_residues(a, b);
    crate::algebra::lemma_residue_absorbs(a - x, -(fsub(b, x) as int));
    crate::algebra::lemma_residue_absorbs(b - x, a - x);
    assert((a - x) - (b - x) == a - b);
}

/// The weights of all points but the last: w_i (a - x_i) = (a - t) w'_i,
/// a being the last point.
proof fn lemma_weights_drop_last(x: Seq<nat>, t: nat, i: int)
    requires
        pairwise_invertible(x),
        x.len() >= 2,
        0 <= i < x.len() - 1,
    ensures
        fmul(lagrange_weights(x, t)[i], fsub(x.last(), x[i])) == fmul(
            fsub(x.last(), t),
            lagrange_weights(x.drop_last(), t)[i],
        ),
{
    let k = x.len() as int;
    let xp = x.drop_last();
    lemma_pairwise_sub(x);
    lemma_weights_are_constants(x, t);
    lemma_weights_are_constants(xp, t);
    lemma_denominator_invertible(xp, i);
    lemma_product_drop_last(x, i, x[i], k - 1);
    lemma_product_drop_last(x, i, t, k - 1);
    assert(xp[i] == x[i]);
    assert(basis_denominator(x, i) == fmul(basis_denominator(xp, i), fsub(x.last(), x[i])));
    assert(basis_numerator(x, i, t) == fmul(basis_numerator(xp, i, t), fsub(x.last(), t)));
    lemma_weight_step(
        lagrange_weights(x, t)[i],
        basis_denominator(x, i),
        basis_numerator(x, i, t),
        lagrange_weights(xp, t)[i],
        basis_denominator(xp, i),
        basis_numerator(xp, i, t),
        fsub(x.last(), x[i]),
        fsub(x.last(), t),
    );
}

/// The weights of all points but the first: w_i (b - x_i) = (b - t) w''_(i-1),
/// b being the first point.
proof fn lemma_weights_drop_first(x: Seq<nat>, t: nat, i: int)
    requires
        pairwise_invertible(x),
        x.len() >= 2,
        1 <= i < x.len(),
    ensures
        fmul(lagrange_weights(x, t)[i], fsub(x[0], x[i])) == fmul(
            fsub(x[0], t),
            lagrange_weights(x.drop_first(), t)[i - 1],
        ),
{
    let k = x.len() as int;
    let xf = x.drop_first();
    lemma_pairwise_sub(x);
    lemma_weights_are_constants(x, t);
    lemma_weights_are_constants(xf, t);
    lemma_denominator_invertible(xf, i - 1);
    lemma_product_drop_first(x, i, x[i], k);
    lemma_product_drop_first(x, i, t, k);
    assert(xf[i - 1] == x[i]);
    let dp = basis_denominator(xf, i - 1);
    let np = basis_numerator(xf, i - 1, t);
    lemma_comm_assoc(fsub(x[0], x[i]), dp, 0);
    lemma_comm_assoc(fsub(x[0], t), np, 0);
    lemma_weight_step(
        lagrange_weights(x, t)[i],
        basis_denominator(x, i),
        basis_numerator(x, i, t),
        lagrange_weights(xf, t)[i - 1],
        dp,
        np,
        fsub(x[0], x[i]),
        fsub(x[0], t),
    );
}

/// The Lagrange weights of points with invertible differences sum to one.
pub proof fn lemma_weights_sum_to_one(x: Seq<nat>, t: nat)
    requires
        pairwise_invertible(x),
        x.len() >= 1,
    ensures
        fsum(lagrange_weights(x, t)) == 1,
    decreases x.len(),
{
    let k = x.len() as int;
    let w = lagrange_weights(x, t);
    lemma_weights_are_constants(x, t);
    lemma_modulus();
    lemma_residue_reduced(1);
    if k == 1 {
        assert(product_except(x, 0, x[0], 0) == 1);
        assert(product_except(x, 0, t, 0) == 1);
        assert(basis_denominator(x, 0) == 1);
        assert(basis_numerator(x, 0, t) == 1);
        lemma_identities(w[0]);
        lemma_residue_reduced(w[0]);
        assert(w.drop_last().len() == 0);
        assert(fsum(w.drop_last()) == 0);
        assert(w.last() == w[0]);
        lemma_identities(1);
        assert(fsum(w) == fadd(0, w[0]));
    } else {
        let a = x.last();
        let b = x[0];
        let g = fsub(a, t);
        let h = fsub(b, t);
        let wl = lagrange_weights(x.drop_last(), t);
        let wf = lagrange_weights(x.drop_first(), t);
        lemma_pairwise_sub(x);
        lemma_weights_sum_to_one(x.drop_last(), t);
        lemma_weights_sum_to_one(x.drop_first(), t);
        let sa = Seq::new(k as nat, |i: int| fmul(w[i], fsub(a, x[i])));
        let sb = Seq::new(k as nat, |i: int| fmul(w[i], fsub(b, x[i])));
        let se = Seq::new(k as nat, |i: int| fmul(fsub(a, b), w[i]));
        assert forall|i: int| 0 <= i < k implies #[trigger] se[i] == fsub(sa[i], sb[i]) by {
            lemma_sub_common(a, b, x[i]);
            lemma_distributes(w[i], fsub(a, x[i]), fsub(b, x[i]));
            lemma_comm_assoc(w[i], fsub(a, b), 0);
        }
        lemma_fsum_sub(se, sa, sb);
        lemma_fsum_scale(se, fsub(a, b), w);
        // The last term of the first sum vanishes; the rest are g times the
        // weights without the last point.
        lemma_identities(a);
        lemma_identities(w[k - 1]);
        assert(sa.last() == 0);
        lemma_fsum_last_zero(sa);
        assert forall|i: int| 0 <= i < k - 1 implies #[trigger] sa.drop_last()[i] == fmul(g, wl[i]) by {
            lemma_weights_drop_last(x, t, i);
        }
        lemma_fsum_scale(sa.drop_last(), g, wl);
        lemma_identities(g);
        lemma_ops_as_residues(a, t);
        lemma_residue_reduced(g);
        // The first term of the second sum vanishes; the rest are h times
        // the weights without the first point.
        lemma_identities(b);
        lemma_identities(w[0]);
        assert(sb[0] == 0);
        lemma_fsum_first(sb);
        assert forall|i: int| 0 <= i < k - 1 implies #[trigger] sb.drop_first()[i] == fmul(h, wf[i]) by {
            lemma_weights_drop_first(x, t, i + 1);
        }
        lemma_fsum_scale(sb.drop_first(), h, wf);
        lemma_identities(h);
        lemma_ops_as_residues(b, t);
        lemma_residue_reduced(h);
        lemma_fsum_reduced(sb.drop_first());
        lemma_identities(fsum(sb.drop_first()));
        lemma_residue_reduced(fsum(sb.drop_first()));
        // (a - b) times the sum is (a - t) - (b - t) = a - b.
        lemma_sub_common(a, b, t);
        lemma_identities(fsub(a, b));
        lemma_ops_as_residues(a, b);
        lemma_residue_reduced(fsub(a, b));
        assert(invertible(fsub(x[k - 1], x[0])));
        lemma_fsum_reduced(w);
        lemma_cancel(fsub(a, b), fsum(w), 1);
    }
}

/// w x = w a - w (a - x), for a reduced x.
proof fn lemma_times_point(w: nat, x: nat, a: nat)
    requires
        x < modulus(),
    ensures
        fmul(w, x) == fsub(fmul(w, a), fmul(w, fsub(a, x))),
{
    lemma_sub_add(a, x, 0);
    lemma_residue_reduced(x);
    lemma_distributes(w, a, fsub(a, x));
}

/// r a - (a - t) r = r t, for reduced r t.
proof fn lemma_shift_point(r: nat, a: nat, t: nat)
    ensures
        fsub(fmul(a, r), fmul(fsub(a, t), r)) == fmul(r, t),
{
    lemma_comm_assoc(fsub(a, t), r, 0);
    lemma_comm_assoc(a, r, 0);
    lemma_distributes(r, a, t);
    lemma_sub_add(fmul(r, a), fmul(r, t), 0);
    lemma_ops_as_residues(r, t);
    lemma_residue_reduced(fmul(r, t));
}

/// Lagrange interpolation is exact on polynomials: for points with
/// invertible differences and a polynomial with no more coefficients than
/// there are points, the values at the points weighted by the Lagrange
/// weights at `t` sum to the value at `t`.
pub proof fn lemma_interpolation_exact(x: Seq<nat>, t: nat, c: Seq<nat>)
    requires
        pairwise_invertible(x),
        all_reduced(x),
        all_reduced(c),
        c.len() <= x.len(),
    ensures
        weighted_sum(lagrange_weights(x, t), evaluations(c, x), x.len()) == poly_eval(c, t),
    decreases x.len(), c.len(),
{
    let k = x.len();
    let w = lagrange_weights(x, t);
    let ev = evaluations(c, x);
    let sw = Seq::new(k, |i: int| fmul(ev[i], w[i]));
    lemma_weighted_sum_as_fsum(w, ev, k);
    lemma_weights_are_constants(x, t);
    lemma_modulus();
    if c.len() == 0 {
        assert forall|i: int| 0 <= i < k implies #[trigger] sw[i] == fmul(0, w[i]) by {
            assert(ev[i] == 0);
        }
        lemma_fsum_scale(sw, 0, w);
        lemma_identities(fsum(w));
    } else {
        let c0 = c[0];
        let r = c.drop_first();
        let xl = x.drop_last();
        let wl = lagrange_weights(xl, t);
        let a = x.last();
        let g = fsub(a, t);
        let rt = poly_eval(r, t);
        lemma_pairwise_sub(x);
        lemma_weights_sum_to_one(x, t);
        lemma_interpolation_exact(x, t, r);
        lemma_interpolation_exact(xl, t, r);
        // Split each term into (r(x_i) x_i) w_i and c_0 w_i.
        let su = Seq::new(k, |i: int| fmul(fmul(poly_eval(r, x[i]), x[i]), w[i]));
        let sc = Seq::new(k, |i: int| fmul(c0, w[i]));
        assert forall|i: int| 0 <= i < k implies #[trigger] sw[i] == fadd(su[i], sc[i]) by {
            let ri = poly_eval(r, x[i]);
            lemma_comm_assoc(fadd(fmul(ri, x[i]), c0), w[i], 0);
            lemma_distributes(w[i], fmul(ri, x[i]), c0);
            lemma_comm_assoc(w[i], fmul(ri, x[i]), 0);
            lemma_comm_assoc(w[i], c0, 0);
        }
        lemma_fsum_add(sw, su, sc);
        lemma_fsum_scale(sc, c0, w);
        lemma_identities(c0);
        lemma_residue_reduced(c0);
        // (r(x_i) x_i) w_i = a (r(x_i) w_i) - r(x_i) (w_i (a - x_i)).
        let s1 = Seq::new(k, |i: int| fmul(a, fmul(poly_eval(r, x[i]), w[i])));
        let s2 = Seq::new(k, |i: int| fmul(poly_eval(r, x[i]), fmul(w[i], fsub(a, x[i]))));
        assert forall|i: int| 0 <= i < k implies #[trigger] su[i] == fsub(s1[i], s2[i]) by {
            let ri = poly_eval(r, x[i]);
            lemma_comm_assoc(ri, x[i], w[i]);
            lemma_comm_assoc(x[i], w[i], 0);
            lemma_times_point(w[i], x[i], a);
            lemma_distributes(ri, fmul(w[i], a), fmul(w[i], fsub(a, x[i])));
            lemma_comm_assoc(ri, w[i], a);
            lemma_comm_assoc(fmul(ri, w[i]), a, 0);
        }
        lemma_fsum_sub(su, s1, s2);
        // The first part sums to a r(t).
        let ev_r = evaluations(r, x);
        let sv = Seq::new(k, |i: int| fmul(ev_r[i], w[i]));
        lemma_weighted_sum_as_fsum(w, ev_r, k);
        assert forall|i: int| 0 <= i < k implies #[trigger] s1[i] == fmul(a, sv[i]) by {}
        lemma_fsum_scale(s1, a, sv);
        // The second part sums to (a - t) r(t), by the weights without the
        // last point.
        lemma_identities(a);
        lemma_identities(w[k - 1]);
        lemma_identities(poly_eval(r, a));
        assert(s2.last() == 0);
        lemma_fsum_last_zero(s2);
        let ev_l = evaluations(r, xl);
        let sl = Seq::new((k - 1) as nat, |i: int| fmul(ev_l[i], wl[i]));
        lemma_weighted_sum_as_fsum(wl, ev_l, (k - 1) as nat);
        assert forall|i: int| 0 <= i < k - 1 implies #[trigger] s2.drop_last()[i] == fmul(g, sl[i]) by {
            lemma_weights_drop_last(x, t, i);
            let ri = poly_eval(r, x[i]);
            assert(ev_l[i] == ri);
            lemma_comm_assoc(ri, g, wl[i]);
            lemma_comm_assoc(g, ri, wl[i]);
            lemma_comm_assoc(ri, g, 0);
        }
        lemma_fsum_scale(s2.drop_last(), g, sl);
        lemma_shift_point(rt, a, t);
        lemma_comm_assoc(g, rt, 0);
    }
}

/// Lagrange interpolation recovers a polynomial's value anywhere: for points
/// with invertible differences, any reduced Lagrange constants at `t`, and a
/// polynomial with no more coefficients than there are points, the values at
/// the points weighted by the constants sum to the value at `t`.
pub proof fn lemma_lagrange_interpolation(x: Seq<nat>, t: nat, c: Seq<nat>, w: Seq<nat>)
    requires
        pairwise_invertible(x),
        all_reduced(x),
        all_reduced(c),
        c.len() <= x.len(),
        are_lagrange_constants(x, t, w),
        all_reduced(w),
    ensures
        weighted_sum(w, evaluations(c, x), x.len()) == poly_eval(c, t),
{
    lemma_constants_unique(x, t, w);
    lemma_interpolation_exact(x, t, c);
}

/// The factors of an invertible product are invertible.
pub proof fn lemma_invertible_factors(a: nat, b: nat)
    requires
        invertible(fmul(a, b)),
    ensures
        invertible(a),
        invertible(b),
{
    let y = choose|y: nat| is_inverse_mod(fmul(a, b), y, modulus());
    assert(fmul(fmul(a, b), y) == 1);
    lemma_comm_assoc(a, b, y);
    lemma_comm_assoc(b, a, y);
    lemma_comm_assoc(a, b, 0);
    assert(is_inverse_mod(a, fmul(b, y), modulus()));
    assert(is_inverse_mod(b, fmul(a, y), modulus()));
}

/// Every factor of an invertible product is invertible.
pub proof fn lemma_product_factors_invertible(x: Seq<nat>, i: int, a: nat, j: int)
    requires
        j <= x.len(),
        invertible(product_except(x, i, a, j)),
    ensures
        forall|m: int| 0 <= m < j && m != i ==> invertible(#[trigger] fsub(x[m], a)),
    decreases j,
{
    if j > 0 {
        if j - 1 != i {
            lemma_invertible_factors(product_except(x, i, a, j - 1), fsub(x[j - 1], a));
        }
        lemma_product_factors_invertible(x, i, a, j - 1);
    }
}

/// Coefficients of (a - t) p(t), from those of p(t).
pub open spec fn times_linear(p: Seq<nat>, a: nat) -> Seq<nat>
    decreases p.len(),
{
    if p.len() == 0 {
        Seq::empty()
    } else {
        seq![fmul(a, p[0])] + minus_constant(times_linear(p.drop_first(), a), p[0])
    }
}

/// Coefficients of q(t) - b, from those of q(t).
pub open spec fn minus_constant(q: Seq<nat>, b: nat) -> Seq<nat> {
    if q.len() == 0 {
        seq![fsub(0, b)]
    } else {
        q.update(0, fsub(q[0], b))
    }
}

/// Coefficients of the product of the (x_m - t) over m < j, m != i, as a
/// polynomial in t.
pub open spec fn numerator_poly(x: Seq<nat>, i: int, j: int) -> Seq<nat>
    decreases j,
{
    if j <= 0 {
        seq![1]
    } else if j - 1 == i {
        numerator_poly(x, i, j - 1)
    } else {
        times_linear(numerator_poly(x, i, j - 1), x[j - 1])
    }
}

/// Coefficients of s p(t), from those of p(t).
pub open spec fn poly_scale(p: Seq<nat>, s: nat) -> Seq<nat> {
    p.map_values(|c: nat| fmul(s, c))
}

/// Coefficients of the polynomial that takes the values `v` at the points
/// `x`, summed over the first m points: the sum of the v_i times the basis
/// polynomials.
pub open spec fn interpolant(x: Seq<nat>, v: Seq<nat>, m: nat) -> Seq<nat>
    decreases m,
{
    if m == 0 {
        Seq::new(x.len(), |k: int| 0nat)
    } else {
        crate::secret_sharing::evaluation::coefficients_add(
            interpolant(x, v, (m - 1) as nat),
            poly_scale(
                numerator_poly(x, m - 1, x.len() as int),
                fmul(v[m - 1], finv(basis_denominator(x, m - 1))),
            ),
        )
    }
}

/// (e + (q - b)) = (e + q) - b.
proof fn lemma_add_sub(e: nat, q: nat, b: nat)
    ensures
        fadd(e, fsub(q, b)) == fsub(fadd(e, q), b),
{
    lemma_ops_as_residues(e, fsub(q, b));
    lemma_ops_as_residues(q, b);
    lemma_ops_as_residues(fadd(e, q), b);
    lemma_ops_as_residues(e, q);
    crate::algebra::lemma_residue_absorbs(q - b, e as int);
    crate::algebra::lemma_residue_absorbs((e + q) as int, -(b as int));
    assert(e + (q - b) == (e + q) - b);
}

/// Subtracting a constant lowers the value by it.
proof fn lemma_eval_minus_constant(q: Seq<nat>, b: nat, t: nat)
    ensures
        poly_eval(minus_constant(q, b), t) == fsub(poly_eval(q, t), b),
{
    let m = minus_constant(q, b);
    lemma_modulus();
    if q.len() == 0 {
        assert(m.drop_first() =~= Seq::<nat>::empty());
        assert(poly_eval(m.drop_first(), t) == 0);
        assert(m[0] == fsub(0, b));
        lemma_identities(t);
        lemma_identities(fsub(0, b));
        lemma_ops_as_residues(0, b);
        lemma_residue_reduced(fsub(0, b));
        assert(poly_eval(m, t) == fadd(fmul(0, t), fsub(0, b)));
    } else {
        assert(m.drop_first() =~= q.drop_first());
        assert(m[0] == fsub(q[0], b));
        assert(poly_eval(m, t) == fadd(fmul(poly_eval(q.drop_first(), t), t), fsub(q[0], b)));
        lemma_add_sub(fmul(poly_eval(q.drop_first(), t), t), q[0], b);
    }
}

/// (r (a - t) - p) t + a p = (r t + p) (a - t).
proof fn lemma_linear_identity(r: nat, p: nat, a: nat, t: nat)
    ensures
        fadd(fmul(fsub(fmul(r, fsub(a, t)), p), t), fmul(a, p)) == fmul(fadd(fmul(r, t), p), fsub(a, t)),
{
    let ri = r as int;
    let pi = p as int;
    let ai = a as int;
    let ti = t as int;
    let x = ri * (ai - ti) - pi;
    lemma_ops_as_residues(a, t);
    lemma_ops_as_residues(r, fsub(a, t));
    crate::algebra::lemma_residue_absorbs(ai - ti, ri);
    lemma_ops_as_residues(fmul(r, fsub(a, t)), p);
    crate::algebra::lemma_residue_absorbs(ri * (ai - ti), -pi);
    lemma_ops_as_residues(fsub(fmul(r, fsub(a, t)), p), t);
    crate::algebra::lemma_residue_absorbs(x, ti);
    lemma_ops_as_residues(a, p);
    lemma_ops_as_residues(fmul(fsub(fmul(r, fsub(a, t)), p), t), fmul(a, p));
    crate::algebra::lemma_residue_absorbs(x * ti, fmul(a, p) as int);
    crate::algebra::lemma_residue_absorbs(ai * pi, x * ti);
    lemma_ops_as_residues(r, t);
    lemma_ops_as_residues(fmul(r, t), p);
    crate::algebra::lemma_residue_absorbs(ri * ti, pi);
    lemma_ops_as_residues(fadd(fmul(r, t), p), fsub(a, t));
    crate::algebra::lemma_residue_absorbs(ri * ti + pi, fsub(a, t) as int);
    crate::algebra::lemma_residue_absorbs(ai - ti, ri * ti + pi);
    assert(x * ti + ai * pi == (ri * ti + pi) * (ai - ti)) by (nonlinear_arith)
        requires
            x == ri * (ai - ti) - pi,
    ;
}

/// Multiplying by a linear factor multiplies the value by it.
proof fn lemma_eval_times_linear(p: Seq<nat>, a: nat, t: nat)
    ensures
        poly_eval(times_linear(p, a), t) == fmul(poly_eval(p, t), fsub(a, t)),
        times_linear(p, a).len() == if p.len() == 0 {
            0
        } else {
            p.len() + 1
        },
        all_reduced(times_linear(p, a)),
    decreases p.len(),
{
    let tl = times_linear(p, a);
    lemma_modulus();
    if p.len() == 0 {
        lemma_identities(fsub(a, t));
    } else {
        let r = p.drop_first();
        lemma_eval_times_linear(r, a, t);
        let q = times_linear(r, a);
        let m = minus_constant(q, p[0]);
        assert(tl.drop_first() =~= m);
        lemma_eval_minus_constant(q, p[0], t);
        lemma_linear_identity(poly_eval(r, t), p[0], a, t);
        lemma_ops_as_residues(a, p[0]);
        assert forall|i: int| 0 <= i < tl.len() implies #[trigger] tl[i] < modulus() by {
            if i > 0 {
                assert(tl[i] == m[i - 1]);
                if q.len() == 0 {
                    lemma_ops_as_residues(0, p[0]);
                } else if i == 1 {
                    lemma_ops_as_residues(q[0], p[0]);
                } else {
                    assert(q[i - 1] < modulus());
                }
            }
        }
    }
}

/// The numerator polynomial takes the value of the numerator product.
proof fn lemma_eval_numerator_poly(x: Seq<nat>, i: int, j: int, t: nat)
    requires
        0 <= i,
    ensures
        poly_eval(numerator_poly(x, i, j), t) == product_except(x, i, t, j),
        numerator_poly(x, i, j).len() == if j <= 0 {
            1
        } else if i < j {
            j
        } else {
            j + 1
        },
        all_reduced(numerator_poly(x, i, j)),
    decreases j,
{
    lemma_modulus();
    if j <= 0 {
        let one = numerator_poly(x, i, j);
        assert(one =~= seq![1nat]);
        assert(one.drop_first() =~= Seq::<nat>::empty());
        assert(poly_eval(one.drop_first(), t) == 0);
        lemma_identities(t);
        lemma_identities(1);
        lemma_residue_reduced(1);
    } else {
        lemma_eval_numerator_poly(x, i, j - 1, t);
        if j - 1 != i {
            lemma_eval_times_linear(numerator_poly(x, i, j - 1), x[j - 1], t);
        }
    }
}

/// Scaling the coefficients scales the value.
proof fn lemma_eval_scale(p: Seq<nat>, s: nat, t: nat)
    ensures
        poly_eval(poly_scale(p, s), t) == fmul(s, poly_eval(p, t)),
        poly_scale(p, s).len() == p.len(),
        all_reduced(poly_scale(p, s)),
    decreases p.len(),
{
    let q = poly_scale(p, s);
    lemma_modulus();
    if p.len() == 0 {
        lemma_identities(s);
    } else {
        lemma_eval_scale(p.drop_first(), s, t);
        assert(q.drop_first() =~= poly_scale(p.drop_first(), s));
        let r = poly_eval(p.drop_first(), t);
        lemma_comm_assoc(s, r, t);
        lemma_distributes(s, fmul(r, t), p[0]);
    }
    assert forall|i: int| 0 <= i < q.len() implies #[trigger] q[i] < modulus() by {
        lemma_ops_as_residues(s, p[i]);
    }
}

/// The zero polynomial is zero everywhere.
proof fn lemma_eval_zero(n: nat, t: nat)
    ensures
        poly_eval(Seq::new(n, |k: int| 0nat), t) == 0,
    decreases n,
{
    if n > 0 {
        let z = Seq::new(n, |k: int| 0nat);
        assert(z.drop_first() =~= Seq::new((n - 1) as nat, |k: int| 0nat));
        lemma_eval_zero((n - 1) as nat, t);
        lemma_identities(t);
        lemma_identities(0);
        lemma_modulus();
        lemma_residue_reduced(0);
    }
}

/// The interpolant takes, at any t, the sum of the values weighted by the
/// Lagrange weights at t; it has one coefficient per point, all reduced.
pub proof fn lemma_eval_interpolant(x: Seq<nat>, v: Seq<nat>, m: nat, t: nat)
    requires
        m <= x.len(),
        m <= v.len(),
    ensures
        poly_eval(interpolant(x, v, m), t) == weighted_sum(lagrange_weights(x, t), v, m),
        interpolant(x, v, m).len() == x.len(),
        all_reduced(interpolant(x, v, m)),
    decreases m,
{
    let n = x.len();
    lemma_modulus();
    if m == 0 {
        lemma_eval_zero(n, t);
    } else {
        let i = m - 1;
        let prev = interpolant(x, v, (m - 1) as nat);
        let fi = finv(basis_denominator(x, i));
        let s = fmul(v[i], fi);
        let np = numerator_poly(x, i, n as int);
        lemma_eval_interpolant(x, v, (m - 1) as nat, t);
        lemma_eval_numerator_poly(x, i, n as int, t);
        lemma_eval_scale(np, s, t);
        crate::secret_sharing::evaluation::lemma_eval_additive(prev, poly_scale(np, s), t);
        let num = product_except(x, i, t, n as int);
        assert(lagrange_weights(x, t)[i] == fmul(num, fi));
        lemma_comm_assoc(v[i], fi, num);
        lemma_comm_assoc(fi, num, 0);
        lemma_comm_assoc(v[i], num, fi);
        lemma_comm_assoc(s, num, 0);
        let r = interpolant(x, v, m);
        assert forall|k: int| 0 <= k < r.len() implies #[trigger] r[k] < modulus() by {
            lemma_ops_as_residues(prev[k], poly_scale(np, s)[k]);
        }
    }
}

/// A product with a zero factor is zero.
proof fn lemma_product_zero(x: Seq<nat>, i: int, a: nat, j: int, z: int)
    requires
        0 <= z < j,
        z != i,
        fsub(x[z], a) == 0,
    ensures
        product_except(x, i, a, j) == 0,
    decreases j,
{
    if z < j - 1 {
        lemma_product_zero(x, i, a, j - 1, z);
        lemma_identities(fsub(x[j - 1], a));
    } else {
        lemma_identities(product_except(x, i, a, j - 1));
    }
}

/// At one of the points, the Lagrange weights select the value there.
pub proof fn lemma_weights_at_point(x: Seq<nat>, v: Seq<nat>, s: int, m: nat)
    requires
        pairwise_invertible(x),
        all_reduced(v),
        v.len() == x.len(),
        0 <= s < x.len(),
        m <= x.len(),
    ensures
        weighted_sum(lagrange_weights(x, x[s]), v, m) == if s < m {
            v[s]
        } else {
            0
        },
    decreases m,
{
    let w = lagrange_weights(x, x[s]);
    lemma_modulus();
    if m > 0 {
        let i = m - 1;
        lemma_weights_at_point(x, v, s, (m - 1) as nat);
        let prev = weighted_sum(w, v, (m - 1) as nat);
        let fi = finv(basis_denominator(x, i));
        if i == s {
            lemma_denominator_invertible(x, s);
            assert(fmul(basis_denominator(x, s), fi) == 1);
            lemma_identities(v[s]);
            lemma_residue_reduced(v[s]);
            lemma_identities(fmul(v[s], 1));
        } else {
            lemma_identities(x[s]);
            lemma_product_zero(x, i, x[s], x.len() as int, s);
            lemma_identities(fi);
            lemma_identities(v[i]);
            lemma_identities(prev);
            lemma_residue_reduced(prev);
        }
    }
}

/// `pi` is a permutation of 0, ..., n - 1.
pub open spec fn is_permutation(pi: Seq<int>, n: nat) -> bool {
    &&& pi.len() == n
    &&& forall|i: int| 0 <= i < n ==> 0 <= #[trigger] pi[i] < n
    &&& forall|i: int, j: int| 0 <= i < n && 0 <= j < n && i != j ==> pi[i] != pi[j]
}

/// The entries of `x` in the order that `pi` gives.
pub open spec fn permute(x: Seq<nat>, pi: Seq<int>) -> Seq<nat> {
    Seq::new(pi.len(), |i: int| x[pi[i]])
}

/// The unit sequence of length n with a one at index k.
pub open spec fn unit(n: nat, k: int) -> Seq<nat> {
    Seq::new(n, |i: int| if i == k { 1nat } else { 0nat })
}

/// Weighting a unit sequence picks one weight.
pub proof fn lemma_weighted_sum_unit(f: Seq<nat>, n: nat, k: int, m: nat)
    requires
        all_reduced(f),
        f.len() == n,
        0 <= k < n,
        m <= n,
    ensures
        weighted_sum(f, unit(n, k), m) == if k < m {
            f[k]
        } else {
            0
        },
    decreases m,
{
    lemma_modulus();
    if m > 0 {
        lemma_weighted_sum_unit(f, n, k, (m - 1) as nat);
        let prev = weighted_sum(f, unit(n, k), (m - 1) as nat);
        lemma_identities(f[m - 1]);
        lemma_residue_reduced(f[m - 1]);
        lemma_identities(prev);
        lemma_residue_reduced(prev);
        lemma_identities(fmul(1, f[m - 1]));
    }
}

/// Lagrange interpolation does not depend on the order of the points: taking
/// the points and their values in another order gives the same weighted sum.
pub proof fn lemma_interpolation_reordered(x: Seq<nat>, y: Seq<nat>, t: nat, pi: Seq<int>)
    requires
        pairwise_invertible(x),
        all_reduced(x),
        all_reduced(y),
        y.len() == x.len(),
        is_permutation(pi, x.len()),
    ensures
        weighted_sum(lagrange_weights(permute(x, pi), t), permute(y, pi), x.len()) == weighted_sum(
            lagrange_weights(x, t),
            y,
            x.len(),
        ),
{
    let n = x.len();
    let xp = permute(x, pi);
    let p = interpolant(x, y, n);
    lemma_eval_interpolant(x, y, n, t);
    assert forall|i: int, j: int| 0 <= i < n && 0 <= j < n && i != j implies invertible(
        #[trigger] fsub(xp[i], xp[j]),
    ) by {
        assert(invertible(fsub(x[pi[i]], x[pi[j]])));
    }
    assert forall|i: int| 0 <= i < n implies #[trigger] xp[i] < modulus() by {
        assert(x[pi[i]] < modulus());
    }
    assert forall|i: int| 0 <= i < n implies #[trigger] evaluations(p, xp)[i] == permute(y, pi)[i] by {
        lemma_eval_interpolant(x, y, n, x[pi[i]]);
        lemma_weights_at_point(x, y, pi[i], n);
    }
    assert(evaluations(p, xp) =~= permute(y, pi));
    lemma_interpolation_exact(xp, t, p);
}

/// A product of nonzero factors that has no inverse shows a nonzero residue
/// without inverse.
pub proof fn lemma_product_not_invertible(x: Seq<nat>, i: int, a: nat, j: int)
    requires
        forall|m: int| 0 <= m < j && m != i ==> #[trigger] fsub(x[m], a) != 0,
        !invertible(product_except(x, i, a, j)),
    ensures
        crate::field::some_nonzero_not_invertible(),
    decreases j,
{
    if j <= 0 {
        lemma_modulus();
        lemma_residue_reduced(1);
        assert(is_inverse_mod(1, 1, modulus()));
    } else if j - 1 == i {
        lemma_product_not_invertible(x, i, a, j - 1);
    } else {
        let f = fsub(x[j - 1], a);
        if invertible(product_except(x, i, a, j - 1)) {
            if invertible(f) {
                lemma_invertible_mul(product_except(x, i, a, j - 1), f);
            } else {
                lemma_ops_as_residues(x[j - 1], a);
                assert(0 < f < modulus() && !invertible(f));
            }
        } else {
            lemma_product_not_invertible(x, i, a, j - 1);
        }
    }
}

/// Distinct reduced points whose basis denominator has no inverse show a
/// nonzero residue without inverse.
pub proof fn lemma_denominator_not_invertible(x: Seq<nat>, i: int)
    requires
        all_reduced(x),
        0 <= i < x.len(),
        forall|a: int, b: int| 0 <= a < x.len() && 0 <= b < x.len() && a != b ==> x[a] != x[b],
        !invertible(basis_denominator(x, i)),
    ensures
        crate::field::some_nonzero_not_invertible(),
{
    assert forall|m: int| 0 <= m < x.len() && m != i implies #[trigger] fsub(x[m], x[i]) != 0 by {
        crate::algebra::lemma_sub_add(x[m], x[i], 0);
        crate::algebra::lemma_sub_add(x[i], x[i], 0);
        lemma_identities(x[i]);
        if fsub(x[m], x[i]) == 0 {
            crate::algebra::lemma_sub_cancel(x[m], x[i], x[i]);
        }
    }
    lemma_product_not_invertible(x, i, x[i], x.len() as int);
}

/// Coefficients of p(t) - q(t), from those of p and q of one length.
pub open spec fn coefficients_sub(p: Seq<nat>, q: Seq<nat>) -> Seq<nat> {
    Seq::new(p.len(), |m: int| fsub(p[m], q[m]))
}

/// Evaluation takes differences of coefficients to differences of values.
pub proof fn lemma_eval_sub(p: Seq<nat>, q: Seq<nat>, t: nat)
    requires
        p.len() == q.len(),
    ensures
        poly_eval(coefficients_sub(p, q), t) == fsub(poly_eval(p, t), poly_eval(q, t)),
    decreases p.len(),
{
    let d = coefficients_sub(p, q);
    if p.len() == 0 {
        lemma_identities(0);
    } else {
        lemma_eval_sub(p.drop_first(), q.drop_first(), t);
        assert(d.drop_first() =~= coefficients_sub(p.drop_first(), q.drop_first()));
        let a = poly_eval(p.drop_first(), t);
        let b = poly_eval(q.drop_first(), t);
        lemma_distributes(t, a, b);
        lemma_comm_assoc(t, a, 0);
        lemma_comm_assoc(t, b, 0);
        lemma_comm_assoc(t, fsub(a, b), 0);
        crate::algebra::lemma_add_of_subs(fmul(a, t), fmul(b, t), p[0], q[0]);
    }
}

/// A weighted sum of zeros is zero.
proof fn lemma_weighted_sum_zeros(f: Seq<nat>, y: Seq<nat>, m: nat)
    requires
        forall|i: int| 0 <= i < m ==> #[trigger] y[i] == 0,
    ensures
        weighted_sum(f, y, m) == 0,
    decreases m,
{
    if m > 0 {
        lemma_weighted_sum_zeros(f, y, (m - 1) as nat);
        lemma_identities(f[m - 1]);
        lemma_identities(0);
        lemma_modulus();
        lemma_residue_reduced(0);
    }
}

/// A polynomial that vanishes at as many points as it has coefficients,
/// the points having invertible differences, vanishes everywhere.
pub proof fn lemma_vanishing_everywhere(c: Seq<nat>, z: Seq<nat>, t: nat)
    requires
        all_reduced(c),
        all_reduced(z),
        pairwise_invertible(z),
        c.len() <= z.len(),
        forall|i: int| 0 <= i < z.len() ==> poly_eval(c, #[trigger] z[i]) == 0,
    ensures
        poly_eval(c, t) == 0,
{
    lemma_interpolation_exact(z, t, c);
    lemma_weighted_sum_zeros(lagrange_weights(z, t), evaluations(c, z), z.len());
}

/// With every nonzero residue invertible, a polynomial with fewer
/// coefficients than the field has elements that vanishes at every point has
/// only zero coefficients.
pub proof fn lemma_zero_polynomial(c: Seq<nat>)
    requires
        all_reduced(c),
        c.len() < modulus(),
        !crate::field::some_nonzero_not_invertible(),
        forall|t: nat| t < modulus() ==> #[trigger] poly_eval(c, t) == 0,
    ensures
        forall|m: int| 0 <= m < c.len() ==> #[trigger] c[m] == 0,
    decreases c.len(),
{
    lemma_modulus();
    if c.len() > 0 {
        let r = c.drop_first();
        // The constant term is the value at zero.
        assert(poly_eval(c, 0) == 0);
        lemma_identities(poly_eval(r, 0));
        lemma_identities(c[0]);
        lemma_residue_reduced(c[0]);
        // At a nonzero point t, t r(t) = 0, so r(t) = 0.
        assert forall|t: nat| 0 < t < modulus() implies #[trigger] poly_eval(r, t) == 0 by {
            assert(poly_eval(c, t) == 0);
            crate::secret_sharing::evaluation::lemma_eval_reduced(r, t);
            lemma_ops_as_residues(poly_eval(r, t), t);
            lemma_identities(fmul(poly_eval(r, t), t));
            lemma_residue_reduced(fmul(poly_eval(r, t), t));
            assert(invertible(t));
            lemma_comm_assoc(t, poly_eval(r, t), 0);
            lemma_identities(t);
            lemma_cancel(t, poly_eval(r, t), 0);
        }
        // At zero, by interpolation through the points 1, ..., |r|.
        if r.len() > 0 {
            let z = Seq::new(r.len(), |i: int| (i + 1) as nat);
            assert forall|i: int, j: int| 0 <= i < z.len() && 0 <= j < z.len() && i != j implies invertible(
                #[trigger] fsub(z[i], z[j]),
            ) by {
                lemma_ops_as_residues(z[i], z[j]);
                if fsub(z[i], z[j]) == 0 {
                    lemma_identities(z[j]);
                    crate::algebra::lemma_sub_cancel(z[i], z[j], z[j]);
                }
            }
            assert forall|i: int| 0 <= i < z.len() implies poly_eval(r, #[trigger] z[i]) == 0 by {
                assert(0 < z[i] < modulus());
            }
            lemma_vanishing_everywhere(r, z, 0);
        } else {
            assert(poly_eval(r, 0) == 0);
        }
        assert forall|t: nat| t < modulus() implies #[trigger] poly_eval(r, t) == 0 by {
            if t > 0 {
                assert(poly_eval(r, t) == 0);
            }
        }
        lemma_zero_polynomial(r);
        assert forall|m: int| 0 <= m < c.len() implies #[trigger] c[m] == 0 by {
            if m > 0 {
                assert(c[m] == r[m - 1]);
            }
        }
    }
}

/// Weighted sums are additive in the values: interpolating the sum of two
/// value sequences with the same constants gives the sum of the two
/// interpolations.
pub proof fn lemma_weighted_sum_additive(c: Seq<nat>, a: Seq<nat>, b: Seq<nat>, n: nat)
    requires
        n <= c.len(),
        n <= a.len(),
        n <= b.len(),
    ensures
        weighted_sum(c, Seq::new(n, |i: int| fadd(a[i], b[i])), n) == fadd(
            weighted_sum(c, a, n),
            weighted_sum(c, b, n),
        ),
{
    let y = Seq::new(n, |i: int| fadd(a[i], b[i]));
    lemma_weighted_sum_as_fsum(c, y, n);
    lemma_weighted_sum_as_fsum(c, a, n);
    lemma_weighted_sum_as_fsum(c, b, n);
    let sy = Seq::new(n, |i: int| fmul(y[i], c[i]));
    let sa = Seq::new(n, |i: int| fmul(a[i], c[i]));
    let sb = Seq::new(n, |i: int| fmul(b[i], c[i]));
    assert forall|i: int| 0 <= i < n implies #[trigger] sy[i] == fadd(sa[i], sb[i]) by {
        lemma_comm_assoc(fadd(a[i], b[i]), c[i], 0);
        lemma_distributes(c[i], a[i], b[i]);
        lemma_comm_assoc(c[i], a[i], 0);
        lemma_comm_assoc(c[i], b[i], 0);
    }
    lemma_fsum_add(sy, sa, sb);
}

} // verus!
