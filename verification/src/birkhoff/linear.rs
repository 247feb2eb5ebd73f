//! Linear systems over the field: what solving means, and the facts that
//! Gaussian elimination rests on.

use crate::algebra::{
    lemma_add_of_subs, lemma_cancel, lemma_comm_assoc, lemma_distributes, lemma_identities,
    lemma_residue_reduced, lemma_solve_add, lemma_sub_add, lemma_sub_cancel,
};
use crate::field::{fadd, fmul, fsub, invertible, lemma_modulus, modulus};
use crate::secret_sharing::all_reduced;
use vstd::arithmetic::div_mod::lemma_mod_bound;
use vstd::prelude::*;

verus! {

/// Sum over lo <= k < hi of row_k y_k in the field.
pub open spec fn dot_range(row: Seq<nat>, y: Seq<nat>, lo: int, hi: int) -> nat
    decreases hi - lo,
{
    if hi <= lo {
        0
    } else {
        fadd(dot_range(row, y, lo, hi - 1), fmul(row[hi - 1], y[hi - 1]))
    }
}

/// The value of a row of the system on the unknowns `y`.
pub open spec fn dot(row: Seq<nat>, y: Seq<nat>) -> nat {
    dot_range(row, y, 0, y.len() as int)
}

/// `y` satisfies every equation of the system a y = b.
pub open spec fn solves(a: Seq<Seq<nat>>, b: Seq<nat>, y: Seq<nat>) -> bool {
    forall|r: int| 0 <= r < a.len() ==> #[trigger] dot(a[r], y) == b[r]
}

/// `x` is the one solution of a y = b among reduced vectors of the right size.
pub open spec fn is_unique_solution(a: Seq<Seq<nat>>, b: Seq<nat>, x: Seq<nat>) -> bool {
    &&& x.len() == a.len()
    &&& all_reduced(x)
    &&& forall|y: Seq<nat>|
        y.len() == a.len() && all_reduced(y) ==> (#[trigger] solves(a, b, y) <==> y == x)
}

/// The systems a y = b and a2 y = b2 have the same reduced solutions of size n.
pub open spec fn equivalent(a: Seq<Seq<nat>>, b: Seq<nat>, a2: Seq<Seq<nat>>, b2: Seq<nat>, n: nat) -> bool {
    forall|y: Seq<nat>|
        y.len() == n && all_reduced(y) ==> (#[trigger] solves(a, b, y) == solves(a2, b2, y))
}

/// Row r minus c times row s.
pub open spec fn row_combo(r: Seq<nat>, c: nat, s: Seq<nat>) -> Seq<nat> {
    Seq::new(r.len(), |k: int| fsub(r[k], fmul(c, s[k])))
}

/// Sums are reduced.
pub proof fn lemma_dot_reduced(row: Seq<nat>, y: Seq<nat>, lo: int, hi: int)
    ensures
        dot_range(row, y, lo, hi) < modulus(),
    decreases hi - lo,
{
    lemma_modulus();
    if hi > lo {
        lemma_mod_bound(
            (dot_range(row, y, lo, hi - 1) + fmul(row[hi - 1], y[hi - 1])) as int,
            modulus() as int,
        );
    }
}

/// A sum splits at any point of its range.
pub proof fn lemma_dot_split(row: Seq<nat>, y: Seq<nat>, lo: int, mid: int, hi: int)
    requires
        lo <= mid <= hi,
    ensures
        dot_range(row, y, lo, hi) == fadd(dot_range(row, y, lo, mid), dot_range(row, y, mid, hi)),
    decreases hi - mid,
{
    lemma_dot_reduced(row, y, lo, mid);
    if hi == mid {
        lemma_identities(dot_range(row, y, lo, mid));
        lemma_residue_reduced(dot_range(row, y, lo, mid));
    } else {
        lemma_dot_split(row, y, lo, mid, hi - 1);
        lemma_comm_assoc(
            dot_range(row, y, lo, mid),
            dot_range(row, y, mid, hi - 1),
            fmul(row[hi - 1], y[hi - 1]),
        );
    }
}

/// A sum over zero coefficients is zero.
pub proof fn lemma_dot_zeros(row: Seq<nat>, y: Seq<nat>, lo: int, hi: int)
    requires
        forall|k: int| lo <= k < hi ==> row[k] == 0,
    ensures
        dot_range(row, y, lo, hi) == 0,
    decreases hi - lo,
{
    if hi > lo {
        lemma_dot_zeros(row, y, lo, hi - 1);
        lemma_identities(y[hi - 1]);
        lemma_identities(0);
        lemma_modulus();
        vstd::arithmetic::div_mod::lemma_small_mod(0, modulus());
    }
}

/// A sum depends only on the unknowns in its range.
pub proof fn lemma_dot_agree(row: Seq<nat>, y1: Seq<nat>, y2: Seq<nat>, lo: int, hi: int)
    requires
        forall|k: int| lo <= k < hi ==> y1[k] == y2[k],
    ensures
        dot_range(row, y1, lo, hi) == dot_range(row, y2, lo, hi),
    decreases hi - lo,
{
    if hi > lo {
        lemma_dot_agree(row, y1, y2, lo, hi - 1);
    }
}

/// The sum of a combination of rows is the combination of their sums.
pub proof fn lemma_dot_combo(r: Seq<nat>, c: nat, s: Seq<nat>, y: Seq<nat>, hi: int)
    requires
        0 <= hi <= r.len(),
    ensures
        dot_range(row_combo(r, c, s), y, 0, hi) == fsub(
            dot_range(r, y, 0, hi),
            fmul(c, dot_range(s, y, 0, hi)),
        ),
    decreases hi,
{
    if hi == 0 {
        lemma_identities(c);
        lemma_identities(0);
    } else {
        lemma_dot_combo(r, c, s, y, hi - 1);
        let k = hi - 1;
        let rr = dot_range(r, y, 0, k);
        let ss = dot_range(s, y, 0, k);
        let a = fmul(r[k], y[k]);
        let b = fmul(s[k], y[k]);
        // (r_k - c s_k) y_k = r_k y_k - c (s_k y_k)
        lemma_comm_assoc(fsub(r[k], fmul(c, s[k])), y[k], 0);
        lemma_distributes(y[k], r[k], fmul(c, s[k]));
        lemma_comm_assoc(y[k], r[k], 0);
        lemma_comm_assoc(y[k], fmul(c, s[k]), 0);
        lemma_comm_assoc(c, s[k], y[k]);
        assert(fmul(row_combo(r, c, s)[k], y[k]) == fsub(a, fmul(c, b)));
        lemma_add_of_subs(rr, fmul(c, ss), a, fmul(c, b));
        lemma_distributes(c, ss, b);
    }
}

/// Subtracting a multiple of one equation from another keeps the solutions.
pub proof fn lemma_combo_equivalent(a: Seq<Seq<nat>>, b: Seq<nat>, i: int, j: int, c: nat, n: nat)
    requires
        a.len() == n,
        b.len() == n,
        all_reduced(b),
        forall|r: int| 0 <= r < n ==> #[trigger] a[r].len() == n,
        0 <= i < n,
        0 <= j < n,
        i != j,
    ensures
        equivalent(
            a,
            b,
            a.update(j, row_combo(a[j], c, a[i])),
            b.update(j, fsub(b[j], fmul(c, b[i]))),
            n,
        ),
{
    let a2 = a.update(j, row_combo(a[j], c, a[i]));
    let b2 = b.update(j, fsub(b[j], fmul(c, b[i])));
    assert forall|y: Seq<nat>| y.len() == n && all_reduced(y) implies #[trigger] solves(a, b, y) == solves(
        a2,
        b2,
        y,
    ) by {
        lemma_dot_combo(a[j], c, a[i], y, n as int);
        assert(dot(a2[j], y) == fsub(dot(a[j], y), fmul(c, dot(a[i], y))));
        if solves(a, b, y) {
            assert forall|r: int| 0 <= r < a2.len() implies #[trigger] dot(a2[r], y) == b2[r] by {
                if r != j {
                    assert(dot(a[r], y) == b[r]);
                } else {
                    assert(dot(a[i], y) == b[i]);
                    assert(dot(a[j], y) == b[j]);
                }
            }
        }
        if solves(a2, b2, y) {
            assert forall|r: int| 0 <= r < a.len() implies #[trigger] dot(a[r], y) == b[r] by {
                assert(dot(a2[r], y) == b2[r]);
                if r == j {
                    assert(dot(a2[i], y) == b2[i]);
                    lemma_dot_reduced(a[j], y, 0, n as int);
                    lemma_sub_cancel(dot(a[j], y), b[j], fmul(c, b[i]));
                }
            }
        }
    }
}

/// Exchanging two equations keeps the solutions.
pub proof fn lemma_swap_equivalent(a: Seq<Seq<nat>>, b: Seq<nat>, i: int, m: int, n: nat)
    requires
        a.len() == n,
        b.len() == n,
        0 <= i < n,
        0 <= m < n,
    ensures
        equivalent(a, b, a.update(i, a[m]).update(m, a[i]), b.update(i, b[m]).update(m, b[i]), n),
{
    let a2 = a.update(i, a[m]).update(m, a[i]);
    let b2 = b.update(i, b[m]).update(m, b[i]);
    assert forall|y: Seq<nat>| y.len() == n && all_reduced(y) implies #[trigger] solves(a, b, y) == solves(
        a2,
        b2,
        y,
    ) by {
        if solves(a, b, y) {
            assert forall|r: int| 0 <= r < a2.len() implies #[trigger] dot(a2[r], y) == b2[r] by {
                if r == m {
                    assert(dot(a[i], y) == b[i]);
                } else if r == i {
                    assert(dot(a[m], y) == b[m]);
                } else {
                    assert(dot(a[r], y) == b[r]);
                }
            }
        }
        if solves(a2, b2, y) {
            assert forall|r: int| 0 <= r < a.len() implies #[trigger] dot(a[r], y) == b[r] by {
                if r == m {
                    assert(dot(a2[i], y) == b2[i]);
                } else if r == i {
                    assert(dot(a2[m], y) == b2[m]);
                } else {
                    assert(dot(a2[r], y) == b2[r]);
                }
            }
        }
    }
}

/// `u` is upper triangular with invertible diagonal, and `x` is what back
/// substitution yields on it.
pub open spec fn back_substituted(u: Seq<Seq<nat>>, v: Seq<nat>, x: Seq<nat>, n: nat) -> bool {
    &&& u.len() == n
    &&& v.len() == n
    &&& x.len() == n
    &&& all_reduced(v)
    &&& all_reduced(x)
    &&& forall|r: int| 0 <= r < n ==> #[trigger] u[r].len() == n
    &&& forall|r: int, k: int| 0 <= k < r < n ==> #[trigger] u[r][k] == 0
    &&& forall|r: int| 0 <= r < n ==> invertible(#[trigger] u[r][r])
    &&& forall|r: int|
        0 <= r < n ==> fmul(#[trigger] x[r], u[r][r]) == fsub(v[r], dot_range(u[r], x, r + 1, n as int))
}

/// The value of row r of an upper triangular system: the diagonal term plus
/// the terms after it.
proof fn lemma_triangular_row(u: Seq<Seq<nat>>, y: Seq<nat>, r: int, n: nat)
    requires
        u.len() == n,
        y.len() == n,
        0 <= r < n,
        u[r].len() == n,
        forall|k: int| 0 <= k < r ==> u[r][k] == 0,
    ensures
        dot(u[r], y) == fadd(fmul(u[r][r], y[r]), dot_range(u[r], y, r + 1, n as int)),
{
    lemma_dot_split(u[r], y, 0, r, n as int);
    lemma_dot_split(u[r], y, r, r + 1, n as int);
    lemma_dot_zeros(u[r], y, 0, r);
    lemma_dot_reduced(u[r], y, r, n as int);
    lemma_identities(dot_range(u[r], y, r, n as int));
    lemma_residue_reduced(dot_range(u[r], y, r, n as int));
    assert(dot_range(u[r], y, r, r) == 0);
    assert(dot_range(u[r], y, r, r + 1) == fadd(dot_range(u[r], y, r, r), fmul(u[r][r], y[r])));
    lemma_identities(fmul(u[r][r], y[r]));
    lemma_dot_reduced(u[r], y, r, r + 1);
    lemma_modulus();
    lemma_mod_bound((u[r][r] * y[r]) as int, modulus() as int);
    lemma_residue_reduced(fmul(u[r][r], y[r]));
}

/// A solution agrees with back substitution from row k down.
proof fn lemma_back_substitution_forces(u: Seq<Seq<nat>>, v: Seq<nat>, x: Seq<nat>, y: Seq<nat>, n: nat, k: int)
    requires
        back_substituted(u, v, x, n),
        y.len() == n,
        all_reduced(y),
        solves(u, v, y),
        0 <= k <= n,
    ensures
        forall|r: int| k <= r < n ==> y[r] == x[r],
    decreases n - k,
{
    if k < n {
        lemma_back_substitution_forces(u, v, x, y, n, k + 1);
        lemma_triangular_row(u, y, k, n);
        lemma_dot_agree(u[k], y, x, k + 1, n as int);
        assert(dot(u[k], y) == v[k]);
        let rest = dot_range(u[k], x, k + 1, n as int);
        lemma_modulus();
        lemma_mod_bound((u[k][k] * y[k]) as int, modulus() as int);
        lemma_solve_add(fmul(u[k][k], y[k]), rest, v[k]);
        lemma_comm_assoc(x[k], u[k][k], 0);
        lemma_cancel(u[k][k], y[k], x[k]);
    }
}

/// Back substitution on an upper triangular system with invertible diagonal
/// gives its one solution.
pub proof fn lemma_back_substitution_unique(u: Seq<Seq<nat>>, v: Seq<nat>, x: Seq<nat>, n: nat)
    requires
        back_substituted(u, v, x, n),
    ensures
        is_unique_solution(u, v, x),
{
    assert forall|r: int| 0 <= r < u.len() implies #[trigger] dot(u[r], x) == v[r] by {
        lemma_triangular_row(u, x, r, n);
        lemma_comm_assoc(x[r], u[r][r], 0);
        lemma_sub_add(v[r], dot_range(u[r], x, r + 1, n as int), 0);
        lemma_residue_reduced(v[r]);
    }
    assert forall|y: Seq<nat>| y.len() == u.len() && all_reduced(y) implies #[trigger] solves(u, v, y) <==> y
        == x by {
        if solves(u, v, y) {
            lemma_back_substitution_forces(u, v, x, y, n, 0);
            assert(y =~= x);
        }
    }
}

/// Changing an unknown whose coefficient is zero leaves a sum unchanged.
proof fn lemma_dot_update_zero(row: Seq<nat>, y: Seq<nat>, m: int, val: nat, lo: int, hi: int)
    requires
        0 <= m < y.len(),
        0 <= lo,
        hi <= y.len(),
        row[m] == 0,
    ensures
        dot_range(row, y.update(m, val), lo, hi) == dot_range(row, y, lo, hi),
    decreases hi - lo,
{
    if hi > lo {
        lemma_dot_update_zero(row, y, m, val, lo, hi - 1);
        if hi - 1 == m {
            lemma_identities(val);
            lemma_identities(y[m]);
        }
    }
}

/// A sum over zero unknowns is zero.
proof fn lemma_dot_zero_unknowns(row: Seq<nat>, y: Seq<nat>, lo: int, hi: int)
    requires
        forall|k: int| lo <= k < hi ==> y[k] == 0,
    ensures
        dot_range(row, y, lo, hi) == 0,
    decreases hi - lo,
{
    if hi > lo {
        lemma_dot_zero_unknowns(row, y, lo, hi - 1);
        lemma_identities(row[hi - 1]);
        lemma_identities(0);
        lemma_modulus();
        vstd::arithmetic::div_mod::lemma_small_mod(0, modulus());
    }
}

/// The unknowns added entry by entry.
pub open spec fn vector_add(x: Seq<nat>, y: Seq<nat>) -> Seq<nat> {
    Seq::new(x.len(), |k: int| fadd(x[k], y[k]))
}

/// A sum is additive in the unknowns.
proof fn lemma_dot_add_unknowns(row: Seq<nat>, x: Seq<nat>, y: Seq<nat>, lo: int, hi: int)
    requires
        0 <= lo,
        hi <= x.len(),
        x.len() == y.len(),
    ensures
        dot_range(row, vector_add(x, y), lo, hi) == fadd(dot_range(row, x, lo, hi), dot_range(row, y, lo, hi)),
    decreases hi - lo,
{
    if hi <= lo {
        lemma_identities(0);
        lemma_modulus();
        vstd::arithmetic::div_mod::lemma_small_mod(0, modulus());
    } else {
        lemma_dot_add_unknowns(row, x, y, lo, hi - 1);
        let k = hi - 1;
        let sx = dot_range(row, x, lo, k);
        let sy = dot_range(row, y, lo, k);
        let tx = fmul(row[k], x[k]);
        let ty = fmul(row[k], y[k]);
        lemma_distributes(row[k], x[k], y[k]);
        lemma_comm_assoc(sx, sy, fadd(tx, ty));
        lemma_comm_assoc(sy, tx, ty);
        lemma_comm_assoc(tx, sy, ty);
        lemma_comm_assoc(sy, tx, 0);
        lemma_comm_assoc(sx, tx, fadd(sy, ty));
    }
}

/// An equation d t + s = 0 with d invertible has a reduced solution t.
proof fn lemma_solve_linear(d: nat, s: nat) -> (t: nat)
    requires
        invertible(d),
    ensures
        t < modulus(),
        fadd(fmul(d, t), s) == 0,
{
    let w = choose|w: nat| crate::natural::is_inverse_mod(d, w, modulus());
    let ns = fsub(0, s);
    let t = fmul(w, ns);
    lemma_modulus();
    lemma_comm_assoc(d, w, ns);
    assert(fmul(d, w) == 1);
    lemma_identities(ns);
    crate::algebra::lemma_ops_as_residues(0, s);
    crate::algebra::lemma_ops_as_residues(w, ns);
    lemma_residue_reduced(ns);
    lemma_sub_add(0, s, 0);
    vstd::arithmetic::div_mod::lemma_small_mod(0, modulus());
    t
}

/// An upper-triangular block with invertible diagonal above a row of zero
/// pivots: the homogeneous system has a solution with a one at the zero
/// pivot, zeros after it, and equations m..i - 1 satisfied.
proof fn lemma_kernel_vector(u: Seq<Seq<nat>>, n: nat, i: int, m: int) -> (y: Seq<nat>)
    requires
        0 <= m <= i < n,
        u.len() == n,
        forall|r: int| 0 <= r < n ==> #[trigger] u[r].len() == n,
        forall|r: int| 0 <= r < i ==> invertible(#[trigger] u[r][r]),
        forall|r: int, k: int| 0 <= k < r < n && k < i ==> #[trigger] u[r][k] == 0,
    ensures
        y.len() == n,
        all_reduced(y),
        y[i] == 1,
        forall|k: int| 0 <= k < m ==> #[trigger] y[k] == 0,
        forall|k: int| i < k < n ==> #[trigger] y[k] == 0,
        forall|r: int| m <= r < i ==> #[trigger] dot(u[r], y) == 0,
    decreases i - m,
{
    lemma_modulus();
    if m == i {
        let y = Seq::new(n, |k: int| if k == i { 1nat } else { 0nat });
        y
    } else {
        let y1 = lemma_kernel_vector(u, n, i, m + 1);
        let s = dot_range(u[m], y1, m + 1, n as int);
        let t = lemma_solve_linear(u[m][m], s);
        let y = y1.update(m, t);
        // Row m: zeros before the diagonal, t on it, the rest as before.
        lemma_dot_split(u[m], y, 0, m + 1, n as int);
        lemma_dot_zeros(u[m], y, 0, m);
        lemma_dot_agree(u[m], y, y1, m + 1, n as int);
        crate::algebra::lemma_ops_as_residues(u[m][m], t);
        lemma_identities(fmul(u[m][m], t));
        lemma_residue_reduced(fmul(u[m][m], t));
        assert(dot_range(u[m], y, 0, m + 1) == fadd(0, fmul(u[m][m], t)));
        // Later rows have a zero coefficient at m.
        assert forall|r: int| m + 1 <= r < i implies #[trigger] dot(u[r], y) == 0 by {
            assert(u[r][m] == 0);
            lemma_dot_update_zero(u[r], y1, m, t, 0, n as int);
            assert(dot(u[r], y1) == 0);
            assert(y.len() == n && y1.len() == n);
        }
        assert forall|j: int| 0 <= j < n implies #[trigger] y[j] < modulus() by {
            if j != m {
                assert(y[j] == y1[j]);
            }
        }
        y
    }
}

/// A system whose elimination reached a column of zeros at and below the
/// diagonal, with invertible pivots above, has no unique solution.
pub proof fn lemma_singular_not_unique(
    a0: Seq<Seq<nat>>,
    b0: Seq<nat>,
    u: Seq<Seq<nat>>,
    v: Seq<nat>,
    n: nat,
    i: int,
)
    requires
        0 <= i < n,
        a0.len() == n,
        u.len() == n,
        v.len() == n,
        all_reduced(v),
        equivalent(a0, b0, u, v, n),
        forall|r: int| 0 <= r < n ==> #[trigger] u[r].len() == n,
        forall|r: int| 0 <= r < i ==> invertible(#[trigger] u[r][r]),
        forall|r: int, k: int| 0 <= k < r < n && k < i ==> #[trigger] u[r][k] == 0,
        forall|r: int| i <= r < n ==> #[trigger] u[r][i] == 0,
    ensures
        forall|x: Seq<nat>| !is_unique_solution(a0, b0, x),
{
    let y = lemma_kernel_vector(u, n, i, 0);
    lemma_modulus();
    // Every equation of the eliminated system vanishes on y.
    assert forall|r: int| 0 <= r < n implies #[trigger] dot(u[r], y) == 0 by {
        if r >= i {
            lemma_dot_split(u[r], y, 0, i + 1, n as int);
            lemma_dot_zeros(u[r], y, 0, i + 1);
            lemma_dot_zero_unknowns(u[r], y, i + 1, n as int);
            lemma_identities(0);
            vstd::arithmetic::div_mod::lemma_small_mod(0, modulus());
        }
    }
    assert forall|x: Seq<nat>| !is_unique_solution(a0, b0, x) by {
        if is_unique_solution(a0, b0, x) {
            let x2 = vector_add(x, y);
            assert(solves(a0, b0, x));
            assert(solves(u, v, x));
            assert(x.len() == n);
            assert(x2.len() == n);
            assert forall|r: int| 0 <= r < u.len() implies #[trigger] dot(u[r], x2) == v[r] by {
                lemma_dot_add_unknowns(u[r], x, y, 0, n as int);
                assert(dot(u[r], x) == v[r]);
                assert(dot(u[r], y) == 0);
                assert(dot(u[r], x2) == fadd(dot(u[r], x), dot(u[r], y)));
                lemma_identities(v[r]);
                lemma_residue_reduced(v[r]);
            }
            assert forall|k: int| 0 <= k < x2.len() implies #[trigger] x2[k] < modulus() by {
                crate::algebra::lemma_ops_as_residues(x[k], y[k]);
            }
            assert(solves(u, v, x2));
            assert(solves(a0, b0, x2));
            assert(x2 == x);
            assert(x2[i] == fadd(x[i], 1));
            crate::algebra::lemma_ops_as_residues(x[i], 1);
            if x[i] + 1 < modulus() {
                vstd::arithmetic::div_mod::lemma_small_mod((x[i] + 1) as nat, modulus());
            } else {
                vstd::arithmetic::div_mod::lemma_mod_self_0(modulus() as int);
            }
        }
    }
}

} // verus!
