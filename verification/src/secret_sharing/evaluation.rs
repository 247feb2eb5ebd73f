//! Horner evaluation as a sum of coefficients times powers, and the laws of
//! evaluation that follow from it.

use crate::algebra::{
    lemma_comm_assoc, lemma_distributes, lemma_identities, lemma_ops_as_residues,
    lemma_residue_absorbs, lemma_residue_reduced,
};
use crate::birkhoff::linear::{dot_range, lemma_dot_reduced};
use crate::field::{fadd, fint, fmul, lemma_modulus, modulus};
use crate::secret_sharing::{all_reduced, derivative, falling, poly_eval};
use vstd::arithmetic::div_mod::lemma_mod_bound;
use vstd::prelude::*;

verus! {

/// x to the power k in the field.
pub open spec fn fpow(x: nat, k: nat) -> nat
    decreases k,
{
    if k == 0 {
        1
    } else {
        fmul(fpow(x, (k - 1) as nat), x)
    }
}

/// The powers 1, x, x^2, ..., x^(n - 1).
pub open spec fn powers(x: nat, n: nat) -> Seq<nat> {
    Seq::new(n, |i: int| fpow(x, i as nat))
}

/// Powers are reduced.
pub proof fn lemma_fpow_reduced(x: nat, k: nat)
    ensures
        fpow(x, k) < modulus(),
{
    lemma_modulus();
    if k > 0 {
        lemma_mod_bound((fpow(x, (k - 1) as nat) * x) as int, modulus() as int);
    }
}

/// Horner evaluation is reduced.
pub proof fn lemma_eval_reduced(c: Seq<nat>, x: nat)
    ensures
        poly_eval(c, x) < modulus(),
{
    lemma_modulus();
    if c.len() > 0 {
        lemma_mod_bound((fmul(poly_eval(c.drop_first(), x), x) + c[0]) as int, modulus() as int);
    }
}

/// Appending a coefficient adds it times the next power.
pub proof fn lemma_eval_push(c: Seq<nat>, a: nat, x: nat)
    ensures
        poly_eval(c.push(a), x) == fadd(poly_eval(c, x), fmul(a, fpow(x, c.len()))),
    decreases c.len(),
{
    lemma_modulus();
    if c.len() == 0 {
        assert(c.push(a).drop_first() =~= Seq::<nat>::empty());
        assert(c.push(a)[0] == a);
        assert(poly_eval(Seq::<nat>::empty(), x) == 0);
        assert(fpow(x, 0) == 1);
        lemma_identities(x);
        lemma_identities(a);
        lemma_identities(a % modulus());
        vstd::arithmetic::div_mod::lemma_mod_twice(a as int, modulus() as int);
    } else {
        let t = c.drop_first();
        assert(c.push(a).drop_first() =~= t.push(a));
        lemma_eval_push(t, a, x);
        let pt = poly_eval(t, x);
        let q = fmul(a, fpow(x, t.len()));
        // (pt + q) x + c0 = (pt x + c0) + q x
        lemma_distributes(x, pt, q);
        lemma_comm_assoc(fadd(pt, q), x, 0);
        lemma_comm_assoc(pt, x, 0);
        lemma_comm_assoc(q, x, 0);
        lemma_comm_assoc(a, fpow(x, t.len()), x);
        lemma_comm_assoc(fmul(pt, x), fmul(q, x), c[0]);
        lemma_comm_assoc(fmul(q, x), c[0], 0);
        lemma_comm_assoc(fmul(pt, x), c[0], fmul(q, x));
    }
}

/// Horner evaluation of the first k coefficients is the sum of the
/// coefficients times the powers of x.
pub proof fn lemma_eval_as_sum(c: Seq<nat>, x: nat, k: int)
    requires
        0 <= k <= c.len(),
    ensures
        poly_eval(c.take(k), x) == dot_range(c, powers(x, c.len()), 0, k),
    decreases k,
{
    if k == 0 {
        assert(c.take(0) =~= Seq::<nat>::empty());
    } else {
        lemma_eval_as_sum(c, x, k - 1);
        assert(c.take(k) =~= c.take(k - 1).push(c[k - 1]));
        lemma_eval_push(c.take(k - 1), c[k - 1], x);
    }
}

/// Horner evaluation is the sum of the coefficients times the powers of x.
pub proof fn lemma_eval_is_sum(c: Seq<nat>, x: nat)
    ensures
        poly_eval(c, x) == dot_range(c, powers(x, c.len()), 0, c.len() as int),
{
    lemma_eval_as_sum(c, x, c.len() as int);
    assert(c.take(c.len() as int) =~= c);
}

/// Coefficient-wise sum of two coefficient sequences.
pub open spec fn coefficients_add(a: Seq<nat>, b: Seq<nat>) -> Seq<nat> {
    Seq::new(a.len(), |i: int| fadd(a[i], b[i]))
}

/// Sums over the same powers add up term by term.
proof fn lemma_dot_add(a: Seq<nat>, b: Seq<nat>, y: Seq<nat>, k: int)
    requires
        0 <= k <= a.len(),
        a.len() == b.len(),
    ensures
        dot_range(coefficients_add(a, b), y, 0, k) == fadd(dot_range(a, y, 0, k), dot_range(b, y, 0, k)),
    decreases k,
{
    if k == 0 {
        lemma_modulus();
        lemma_identities(0);
        vstd::arithmetic::div_mod::lemma_small_mod(0, modulus());
    } else {
        lemma_dot_add(a, b, y, k - 1);
        let sa = dot_range(a, y, 0, k - 1);
        let sb = dot_range(b, y, 0, k - 1);
        let ta = fmul(a[k - 1], y[k - 1]);
        let tb = fmul(b[k - 1], y[k - 1]);
        lemma_comm_assoc(fadd(a[k - 1], b[k - 1]), y[k - 1], 0);
        lemma_distributes(y[k - 1], a[k - 1], b[k - 1]);
        lemma_comm_assoc(y[k - 1], a[k - 1], 0);
        lemma_comm_assoc(y[k - 1], b[k - 1], 0);
        // (sa + sb) + (ta + tb) == (sa + ta) + (sb + tb)
        lemma_comm_assoc(sa, sb, fadd(ta, tb));
        lemma_comm_assoc(sb, ta, tb);
        lemma_comm_assoc(ta, sb, tb);
        lemma_comm_assoc(sb, ta, 0);
        lemma_comm_assoc(sa, ta, fadd(sb, tb));
    }
}

/// Evaluation is additive: the polynomial with summed coefficients takes the
/// sum of the values.
pub proof fn lemma_eval_additive(a: Seq<nat>, b: Seq<nat>, x: nat)
    requires
        a.len() == b.len(),
    ensures
        poly_eval(coefficients_add(a, b), x) == fadd(poly_eval(a, x), poly_eval(b, x)),
{
    lemma_eval_is_sum(a, x);
    lemma_eval_is_sum(b, x);
    lemma_eval_is_sum(coefficients_add(a, b), x);
    lemma_dot_add(a, b, powers(x, a.len()), a.len() as int);
}

/// Derivatives are additive: the derivative of the coefficient-wise sum is
/// the coefficient-wise sum of the derivatives.
pub proof fn lemma_derivative_additive(a: Seq<nat>, b: Seq<nat>, d: nat)
    requires
        a.len() == b.len(),
        all_reduced(a),
        all_reduced(b),
    ensures
        derivative(coefficients_add(a, b), d) == coefficients_add(derivative(a, d), derivative(b, d)),
{
    if d < a.len() {
        assert forall|i: int| 0 <= i < a.len() - d implies #[trigger] derivative(coefficients_add(a, b), d)[i]
            == coefficients_add(derivative(a, d), derivative(b, d))[i] by {
            let f = falling((i + d) as nat, d);
            lemma_residue_absorbs(f as int, 0);
            lemma_ops_as_residues(f, 0);
            let fr = f % modulus();
            lemma_modulus();
            lemma_mod_bound(f as int, modulus() as int);
            // f (a + b) = f a + f b, with f reduced first
            lemma_distributes(fr, a[i + d], b[i + d]);
            lemma_residue_absorbs(f as int, fadd(a[i + d], b[i + d]) as int);
            lemma_residue_absorbs(f as int, a[i + d] as int);
            lemma_residue_absorbs(f as int, b[i + d] as int);
            lemma_ops_as_residues(fr, fadd(a[i + d], b[i + d]));
            lemma_ops_as_residues(f, fadd(a[i + d], b[i + d]));
            lemma_ops_as_residues(fr, a[i + d]);
            lemma_ops_as_residues(f, a[i + d]);
            lemma_ops_as_residues(fr, b[i + d]);
            lemma_ops_as_residues(f, b[i + d]);
            lemma_ops_as_residues(f, 0);
            assert(fint(f as int) == fr);
        }
        assert(derivative(coefficients_add(a, b), d) =~= coefficients_add(derivative(a, d), derivative(b, d)));
    } else {
        assert(derivative(coefficients_add(a, b), d) =~= coefficients_add(derivative(a, d), derivative(b, d)));
    }
}

/// The value of a derivative of the coefficient-wise sum of two polynomials
/// is the sum of their values: evaluation of any derivative is additive.
pub proof fn lemma_derivative_eval_additive(a: Seq<nat>, b: Seq<nat>, d: nat, x: nat)
    requires
        a.len() == b.len(),
        all_reduced(a),
        all_reduced(b),
    ensures
        poly_eval(derivative(coefficients_add(a, b), d), x) == fadd(
            poly_eval(derivative(a, d), x),
            poly_eval(derivative(b, d), x),
        ),
{
    lemma_derivative_additive(a, b, d);
    lemma_eval_additive(derivative(a, d), derivative(b, d), x);
}

/// falling(m, a + b) = falling(m, a) falling(m - a, b) for a <= m.
proof fn lemma_falling_split(m: nat, a: nat, b: nat)
    requires
        a <= m,
    ensures
        falling(m, a + b) == falling(m, a)
            * falling((m - a) as nat, b),
    decreases a,
{
    if a == 0 {
        assert(falling(m, 0) == 1);
    } else {
        lemma_falling_split((m - 1) as nat, (a - 1) as nat, b);
        assert(falling(m, a + b) == m * falling((m - 1) as nat, (a - 1 + b) as nat));
        assert(falling(m, a) == m * falling((m - 1) as nat, (a - 1) as nat));
        let x = falling((m - 1) as nat, (a - 1) as nat);
        let y = falling((m - a) as nat, b);
        assert(m * (x * y) == (m * x) * y) by (nonlinear_arith);
    }
}

/// Derivatives compose: the b-th derivative of the a-th derivative is the
/// (a + b)-th derivative.
pub proof fn lemma_derivative_compose(c: Seq<nat>, a: nat, b: nat)
    requires
        all_reduced(c),
    ensures
        derivative(derivative(c, a), b) == derivative(c, a + b),
{
    let n = c.len();
    let da = derivative(c, a);
    if a >= n || a + b >= n {
        assert(derivative(da, b) =~= derivative(c, a + b));
    } else {
        assert forall|i: int| 0 <= i < n - a - b implies #[trigger] derivative(da, b)[i] == derivative(
            c,
            a + b,
        )[i] by {
            let m = (i + a + b) as nat;
            let f1 = falling(m, a);
            let f2 = falling((i + b) as nat, b);
            let x = c[i + a + b];
            lemma_falling_split(m, a, b);
            assert(da[i + b] == fmul(f1, x));
            lemma_ops_as_residues(f1, x);
            lemma_ops_as_residues(f2, fmul(f1, x));
            lemma_ops_as_residues(f1 * f2, x);
            lemma_residue_absorbs((f1 * x) as int, f2 as int);
            assert(f2 * (f1 * x) == (f1 * f2) * x) by (nonlinear_arith);
        }
        assert(derivative(da, b) =~= derivative(c, a + b));
    }
}

} // verus!
