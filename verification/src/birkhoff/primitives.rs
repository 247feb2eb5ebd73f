//! Birkhoff shares and the linear system that recovers a polynomial from them.

use crate::bytes::bytes_value;
use crate::errors::BirkhoffError;
use crate::field::{fmul, modulus, Element};
use crate::secret_sharing::all_reduced;
use crate::secret_sharing::values;
use crate::birkhoff::linear::{
    back_substituted, dot_range, equivalent, is_unique_solution, lemma_back_substitution_unique,
    lemma_combo_equivalent, lemma_singular_not_unique, lemma_swap_equivalent, row_combo, solves,
};
use crate::algebra::{lemma_identities, lemma_residue_reduced, lemma_sub_add};
use crate::field::{fsub, invertible, lemma_element_bound, some_nonzero_not_invertible};
use vstd::prelude::*;

verus! {

/// A share of Birkhoff sharing: the value of the `degree`-th derivative of
/// the sharing polynomial at `position`.
#[derive(Debug)]
pub struct BirkhoffShare {
    position: Element,
    degree: usize,
    value: Element,
}

impl View for BirkhoffShare {
    /// Position, derivative order and value.
    type V = (nat, usize, nat);

    closed spec fn view(&self) -> (nat, usize, nat) {
        (self.position@, self.degree, self.value@)
    }
}

impl BirkhoffShare {
    /// The share stating that the `degree`-th derivative is `value` at `position`.
    pub fn new(position: Element, degree: usize, value: Element) -> (r: BirkhoffShare)
        ensures
            r@ == (position@, degree, value@),
    {
        BirkhoffShare { position, degree, value }
    }

    /// The abscissa of the share.
    pub fn position(&self) -> (r: Element)
        ensures
            r@ == self@.0,
    {
        self.position.duplicate()
    }

    /// The derivative order of the share.
    pub fn degree(&self) -> (r: usize)
        ensures
            r == self@.1,
    {
        self.degree
    }

    /// The value of the share.
    pub fn value(&self) -> (r: Element)
        ensures
            r@ == self@.2,
    {
        self.value.duplicate()
    }

    /// The value as a big-endian byte string of share size, left-padded with
    /// zeros.
    pub fn value_as_bytes(&self) -> (r: Vec<u8>)
        ensures
            r@.len() == crate::SHARE_BYTE_SIZE,
            bytes_value(r@) == self@.2,
    {
        let share = self.value.to_share();
        let mut bytes: Vec<u8> = Vec::new();
        let mut i: usize = 0;
        while i < 1216
            invariant
                i <= 1216,
                share@.len() == 1216,
                bytes@ =~= share@.subrange(0, i as int),
            decreases 1216 - i,
        {
            bytes.push(share[i]);
            i += 1;
        }
        proof {
            assert(share@.subrange(0, 1216) =~= share@);
        }
        bytes
    }

    /// A copy of the share.
    pub fn duplicate(&self) -> (r: BirkhoffShare)
        ensures
            r@ == self@,
    {
        BirkhoffShare {
            position: self.position.duplicate(),
            degree: self.degree,
            value: self.value.duplicate(),
        }
    }
}

/// The views of a sequence of shares.
pub open spec fn share_views(s: Seq<BirkhoffShare>) -> Seq<(nat, usize, nat)> {
    s.map_values(|x: BirkhoffShare| x@)
}

/// The shares of derivative order `k`, in their order.
pub open spec fn of_degree(s: Seq<(nat, usize, nat)>, k: usize) -> Seq<(nat, usize, nat)>
    decreases s.len(),
{
    if s.len() == 0 {
        s
    } else if s.last().1 == k {
        of_degree(s.drop_last(), k).push(s.last())
    } else {
        of_degree(s.drop_last(), k)
    }
}

/// Selecting by order distributes over concatenation.
proof fn lemma_of_degree_add(a: Seq<(nat, usize, nat)>, b: Seq<(nat, usize, nat)>, k: usize)
    ensures
        of_degree(a + b, k) == of_degree(a, k) + of_degree(b, k),
    decreases b.len(),
{
    if b.len() == 0 {
        assert(a + b =~= a);
        assert(of_degree(a, k) + of_degree(b, k) =~= of_degree(a, k));
    } else {
        lemma_of_degree_add(a, b.drop_last(), k);
        assert((a + b).drop_last() =~= a + b.drop_last());
        assert((a + b).last() == b.last());
        if b.last().1 == k {
            assert(of_degree(a, k) + of_degree(b.drop_last(), k).push(b.last()) =~= (of_degree(a, k)
                + of_degree(b.drop_last(), k)).push(b.last()));
        }
    }
}

/// `t` is `s` sorted by derivative order, keeping the order of shares of equal
/// order (a stable sort).
pub open spec fn is_stable_sort_by_degree(s: Seq<(nat, usize, nat)>, t: Seq<(nat, usize, nat)>) -> bool {
    &&& t.len() == s.len()
    &&& forall|i: int, j: int| 0 <= i <= j < t.len() ==> t[i].1 <= t[j].1
    &&& forall|k: usize| #[trigger] of_degree(t, k) == of_degree(s, k)
}

/// No share of order `k` gives an empty selection.
proof fn lemma_none_of_degree(s: Seq<(nat, usize, nat)>, k: usize)
    requires
        forall|i: int| 0 <= i < s.len() ==> s[i].1 != k,
    ensures
        of_degree(s, k) =~= Seq::<(nat, usize, nat)>::empty(),
    decreases s.len(),
{
    if s.len() > 0 {
        lemma_none_of_degree(s.drop_last(), k);
    }
}

/// Stable sort of the shares by derivative order.
fn sort_by_degree(shares: &mut [BirkhoffShare])
    ensures
        is_stable_sort_by_degree(share_views(old(shares)@), share_views(final(shares)@)),
{
    let n = shares.len();
    let ghost s = share_views(shares@);
    let mut sorted: Vec<BirkhoffShare> = Vec::new();
    let mut i: usize = 0;
    proof {
        assert(s.take(0) =~= Seq::<(nat, usize, nat)>::empty());
        assert forall|k: usize| #[trigger] of_degree(share_views(sorted@), k) == of_degree(s.take(0), k) by {
            assert(share_views(sorted@) =~= Seq::<(nat, usize, nat)>::empty());
        }
    }
    while i < n
        invariant
            i <= n == shares@.len() == s.len(),
            s == share_views(shares@),
            is_stable_sort_by_degree(s.take(i as int), share_views(sorted@)),
        decreases n - i,
    {
        let e = shares[i].duplicate();
        let key = e.degree;
        let mut pos = sorted.len();
        while pos > 0 && sorted[pos - 1].degree > key
            invariant
                pos <= sorted@.len(),
                forall|j: int| pos <= j < sorted@.len() ==> sorted@[j]@.1 > key,
            decreases pos,
        {
            pos -= 1;
        }
        let ghost before = share_views(sorted@);
        sorted.insert(pos, e);
        proof {
            let t = share_views(sorted@);
            let lo = before.subrange(0, pos as int);
            let hi = before.subrange(pos as int, before.len() as int);
            assert(before =~= lo + hi);
            assert(t =~= lo + seq![e@] + hi);
            assert(s.take(i + 1) =~= s.take(i as int) + seq![e@]);
            assert forall|k: usize| #[trigger] of_degree(t, k) == of_degree(s.take(i + 1), k) by {
                lemma_of_degree_add(lo + seq![e@], hi, k);
                lemma_of_degree_add(lo, seq![e@], k);
                lemma_of_degree_add(lo, hi, k);
                lemma_of_degree_add(s.take(i as int), seq![e@], k);
                assert(seq![e@].drop_last() =~= Seq::<(nat, usize, nat)>::empty());
                assert(of_degree(Seq::<(nat, usize, nat)>::empty(), k) =~= Seq::<(nat, usize, nat)>::empty());
                if k == key {
                    lemma_none_of_degree(hi, k);
                }
            }
            assert forall|a: int, b: int| 0 <= a <= b < t.len() implies t[a].1 <= t[b].1 by {
                if a < pos {
                    assert(t[a] == before[a]);
                    assert(before[a].1 <= before[pos - 1].1);
                }
                if b > pos {
                    assert(t[b] == before[b - 1]);
                }
                if a > pos {
                    assert(t[a] == before[a - 1]);
                }
                if b < pos {
                    assert(t[b] == before[b]);
                }
            }
        }
        i += 1;
    }
    proof {
        assert(s.take(n as int) =~= s);
    }
    let mut j: usize = 0;
    while j < n
        invariant
            j <= n == shares@.len() == sorted@.len(),
            is_stable_sort_by_degree(s, share_views(sorted@)),
            forall|a: int| 0 <= a < j ==> #[trigger] shares@[a]@ == sorted@[a]@,
        decreases n - j,
    {
        shares[j] = sorted[j].duplicate();
        j += 1;
    }
    proof {
        assert(share_views(shares@) =~= share_views(sorted@));
    }
}

/// The falling factorial i (i - 1) ... (i - d + 1), multiplied out in the field.
pub open spec fn falling_field(i: nat, d: nat) -> nat
    decreases d,
{
    if d == 0 {
        1
    } else {
        fmul(falling_field(i, (d - 1) as nat), (i - (d - 1)) as nat)
    }
}

/// `a` multiplied `k` times by `x` in the field.
pub open spec fn times_power(a: nat, x: nat, k: nat) -> nat
    decreases k,
{
    if k == 0 {
        a
    } else {
        fmul(times_power(a, x, (k - 1) as nat), x)
    }
}

/// Coefficient of c_i in the value at `x` of the `d`-th derivative of the
/// polynomial with coefficients c: i (i - 1) ... (i - d + 1) x^(i - d), or
/// zero for i < d.
pub open spec fn derivative_term(x: nat, i: nat, d: nat) -> nat {
    if i < d {
        0
    } else {
        times_power(falling_field(i, d), x, (i - d) as nat)
    }
}

/// The row of the linear system for a share of order `d` at `x`, for a
/// polynomial of degree `degree`.
pub open spec fn derivative_row(x: nat, degree: nat, d: nat) -> Seq<nat> {
    Seq::new(degree + 1, |i: int| derivative_term(x, i as nat, d))
}

/// The message of a non-square matrix.
#[verifier::external_body]
fn not_square_message(n: usize, m: usize) -> String {
    format!("Matrix (size is {n},{m})should be square.")
}

/// The message of a matrix and a value vector of different lengths.
#[verifier::external_body]
fn length_mismatch_message(m: usize, len: usize) -> String {
    format!("Matrix {m} and values {} should have the same length", len)
}

/// The values of the rows of a matrix.
pub open spec fn matrix_values(m: Seq<Vec<Element>>) -> Seq<Seq<nat>> {
    m.map_values(|row: Vec<Element>| values(row@))
}

/// Every row of the matrix has as many entries as the matrix has rows.
pub open spec fn rows_square(m: Seq<Vec<Element>>) -> bool {
    forall|i: int| 0 <= i < m.len() ==> #[trigger] m[i]@.len() == m.len()
}

/// A square linear system over the field: matrix times unknowns equals values.
pub struct SquareLinearSystem {
    matrix: Vec<Vec<Element>>,
    values: Vec<Element>,
}

impl SquareLinearSystem {
    /// The matrix of the system.
    pub closed spec fn spec_matrix(&self) -> Seq<Seq<nat>> {
        matrix_values(self.matrix@)
    }

    /// The right-hand side of the system.
    pub closed spec fn spec_values(&self) -> Seq<nat> {
        values(self.values@)
    }

    /// The matrix of the system.
    pub fn matrix(&self) -> (r: &Vec<Vec<Element>>)
        ensures
            matrix_values(r@) == self.spec_matrix(),
    {
        &self.matrix
    }

    /// The right-hand side of the system.
    pub fn values(&self) -> (r: &Vec<Element>)
        ensures
            values(r@) == self.spec_values(),
    {
        &self.values
    }

    /// A square linear system.
    ///
    /// Errors (`LinearSystem`): the matrix is not square, that is some row
    /// has not as many entries as there are rows, or the values do not match
    /// it in length.
    pub fn new(matrix: Vec<Vec<Element>>, values_: Vec<Element>) -> (r: Result<Self, BirkhoffError>)
        ensures
            !(rows_square(matrix@) && matrix@.len() == values_@.len()) ==> (r matches Err(
                BirkhoffError::LinearSystem { .. },
            )),
            (rows_square(matrix@) && matrix@.len() == values_@.len()) ==> (r matches Ok(s)
                && s.spec_matrix() == matrix_values(matrix@) && s.spec_values() == values(values_@)
                && s.is_square()),
    {
        let n = matrix.len();
        let mut i: usize = 0;
        while i < n
            invariant
                i <= n == matrix@.len(),
                forall|j: int| 0 <= j < i ==> #[trigger] matrix@[j]@.len() == n,
            decreases n - i,
        {
            let m = matrix[i].len();
            if m != n {
                return Err(BirkhoffError::LinearSystem { e: not_square_message(n, m) });
            }
            i += 1;
        }
        if n != values_.len() {
            return Err(BirkhoffError::LinearSystem { e: length_mismatch_message(n, values_.len()) });
        }
        Ok(SquareLinearSystem { matrix, values: values_ })
    }

    /// The row of the system for a share of order `derivative_order` at `x`.
    pub fn compute_derivative_terms(x: &Element, degree: usize, derivative_order: usize) -> (r: Vec<Element>)
        requires
            degree < usize::MAX,
        ensures
            values(r@) == derivative_row(x@, degree as nat, derivative_order as nat),
    {
        let mut terms: Vec<Element> = Vec::new();
        let mut i: usize = 0;
        while i <= degree
            invariant
                i <= degree + 1,
                degree < usize::MAX,
                terms@.len() == i,
                forall|a: int| 0 <= a < i ==> #[trigger] terms@[a]@ == derivative_term(x@, a as nat, derivative_order as nat),
            decreases degree + 1 - i,
        {
            if i < derivative_order {
                terms.push(Element::zero());
            } else {
                let mut term = Element::one();
                let mut j: usize = 0;
                while j < derivative_order
                    invariant
                        j <= derivative_order <= i,
                        term@ == falling_field(i as nat, j as nat),
                    decreases derivative_order - j,
                {
                    term = term.mul(&Element::from_usize(i - j));
                    j += 1;
                }
                let ghost f = term@;
                let mut k: usize = 0;
                while k < i - derivative_order
                    invariant
                        derivative_order <= i,
                        k <= i - derivative_order,
                        term@ == times_power(f, x@, k as nat),
                    decreases i - derivative_order - k,
                {
                    term = term.mul(x);
                    k += 1;
                }
                terms.push(term);
            }
            i += 1;
        }
        proof {
            assert(values(terms@) =~= derivative_row(x@, degree as nat, derivative_order as nat));
        }
        terms
    }

    /// The system whose rows are the first `degree + 1` shares once sorted by
    /// derivative order: row i is the derivative row of share i, value i its
    /// value. The shares are left sorted.
    ///
    /// Error: fewer than `degree + 1` shares (`NbEqnsTooLow`).
    pub fn new_birkhoff(degree: usize, shares: &mut [BirkhoffShare]) -> (r: Result<Self, BirkhoffError>)
        requires
            degree < usize::MAX,
        ensures
            old(shares)@.len() < degree + 1 ==> r == Err::<Self, BirkhoffError>(BirkhoffError::NbEqnsTooLow)
                && final(shares)@ == old(shares)@,
            old(shares)@.len() >= degree + 1 ==> is_stable_sort_by_degree(
                share_views(old(shares)@),
                share_views(final(shares)@),
            ) && (r matches Ok(s) && s.is_birkhoff_system(degree as nat, share_views(final(shares)@))),
    {
        if shares.len() < degree + 1 {
            return Err(BirkhoffError::NbEqnsTooLow);
        }
        sort_by_degree(shares);
        let ghost sorted = share_views(shares@);
        assert(is_stable_sort_by_degree(share_views(old(shares)@), sorted));
        let mut matrix: Vec<Vec<Element>> = Vec::new();
        let mut result: Vec<Element> = Vec::new();
        let mut i: usize = 0;
        while i <= degree
            invariant
                i <= degree + 1,
                degree < usize::MAX,
                shares@.len() >= degree + 1,
                matrix@.len() == i,
                result@.len() == i,
                forall|a: int|
                    0 <= a < i ==> {
                        let t = share_views(shares@)[a];
                        &&& values(#[trigger] matrix@[a]@) == derivative_row(t.0, degree as nat, t.1 as nat)
                        &&& result@[a]@ == t.2
                    },
            decreases degree + 1 - i,
        {
            let share = &shares[i];
            let row = Self::compute_derivative_terms(&share.position(), degree, share.degree());
            matrix.push(row);
            result.push(share.value());
            i += 1;
        }
        proof {
            assert(matrix@[0]@.len() == degree + 1) by {
                assert(values(matrix@[0]@).len() == matrix@[0]@.len());
            }
        }
        let ghost views = share_views(shares@);
        proof {
            assert forall|i: int| 0 <= i < matrix@.len() implies #[trigger] matrix@[i]@.len() == matrix@.len() by {
                assert(values(matrix@[i]@).len() == matrix@[i]@.len());
            }
        }
        let ghost mv = matrix_values(matrix@);
        let ghost rv = values(result@);
        let r = Self::new(matrix, result);
        proof {
            let s = r->Ok_0;
            assert(share_views(shares@) == sorted);
            assert(s.spec_matrix().len() == degree + 1);
            assert(s.spec_values().len() == degree + 1);
            assert(s.is_square());
            assert(s.spec_matrix() == mv);
            assert(s.spec_values() == rv);
            assert forall|i: int| 0 <= i <= degree implies {
                let t = views[i];
                &&& #[trigger] s.spec_matrix()[i] == derivative_row(t.0, degree as nat, t.1 as nat)
                &&& s.spec_values()[i] == t.2
            } by {
                assert(mv[i] == values(matrix@[i]@));
                assert(rv[i] == result@[i]@);
            }
            assert(s.is_birkhoff_system(degree as nat, share_views(shares@)));
        }
        r
    }
}

/// Equivalence of systems chains.
proof fn lemma_equivalent_trans(
    a0: Seq<Seq<nat>>,
    b0: Seq<nat>,
    a1: Seq<Seq<nat>>,
    b1: Seq<nat>,
    a2: Seq<Seq<nat>>,
    b2: Seq<nat>,
    n: nat,
)
    requires
        equivalent(a0, b0, a1, b1, n),
        equivalent(a1, b1, a2, b2, n),
    ensures
        equivalent(a0, b0, a2, b2, n),
{
    assert forall|y: Seq<nat>| y.len() == n && all_reduced(y) implies #[trigger] solves(a0, b0, y) == solves(
        a2,
        b2,
        y,
    ) by {
        assert(solves(a0, b0, y) == solves(a1, b1, y));
        assert(solves(a1, b1, y) == solves(a2, b2, y));
    }
}

/// Row j minus c times row i, computed from column `from` on; the entries
/// before `from` are copied, both rows being zero there.
fn combine_rows(row_j: &Vec<Element>, c: &Element, row_i: &Vec<Element>, from: usize) -> (r: Vec<Element>)
    requires
        row_j@.len() == row_i@.len(),
        forall|k: int| 0 <= k < from ==> #[trigger] row_i@[k]@ == 0,
    ensures
        values(r@) == row_combo(values(row_j@), c@, values(row_i@)),
{
    let n = row_j.len();
    let mut r: Vec<Element> = Vec::new();
    let mut k: usize = 0;
    while k < n
        invariant
            k <= n == row_j@.len() == row_i@.len(),
            forall|a: int| 0 <= a < from ==> #[trigger] row_i@[a]@ == 0,
            r@.len() == k,
            forall|a: int|
                0 <= a < k ==> #[trigger] r@[a]@ == fsub(row_j@[a]@, fmul(c@, row_i@[a]@)),
        decreases n - k,
    {
        if k >= from {
            let temp = c.mul(&row_i[k]);
            r.push(row_j[k].sub(&temp));
        } else {
            proof {
                lemma_identities(c@);
                lemma_identities(row_j@[k as int]@);
                lemma_element_bound(row_j@[k as int]);
                lemma_residue_reduced(row_j@[k as int]@);
            }
            r.push(row_j[k].duplicate());
        }
        k += 1;
    }
    proof {
        assert(values(r@) =~= row_combo(values(row_j@), c@, values(row_i@)));
    }
    r
}

/// Every value of a vector of elements is reduced.
proof fn lemma_values_reduced(v: Seq<Element>)
    ensures
        all_reduced(values(v)),
{
    assert forall|i: int| 0 <= i < values(v).len() implies #[trigger] values(v)[i] < modulus() by {
        lemma_element_bound(v[i]);
    }
}

impl SquareLinearSystem {
    /// The system of a Birkhoff interpolation of degree `degree` from the
    /// shares `t`: one row per coefficient, row i the derivative row of
    /// share i and value i its value.
    pub open spec fn is_birkhoff_system(&self, degree: nat, t: Seq<(nat, usize, nat)>) -> bool {
        &&& self.is_square()
        &&& self.spec_matrix().len() == degree + 1
        &&& self.spec_values().len() == degree + 1
        &&& forall|i: int|
            0 <= i <= degree ==> #[trigger] self.spec_matrix()[i] == derivative_row(t[i].0, degree, t[i].1 as nat)
                && self.spec_values()[i] == t[i].2
    }

    /// The system has as many rows as values, and each row as many entries.
    pub closed spec fn is_square(&self) -> bool {
        &&& forall|r: int| 0 <= r < self.matrix@.len() ==> #[trigger] self.matrix@[r]@.len() == self.matrix@.len()
        &&& self.values@.len() == self.matrix@.len()
    }

    /// Solves the system by Gaussian elimination with partial pivoting (the
    /// pivot is the entry of largest canonical value) and back substitution.
    /// A solution it returns is the only one. `None` when a pivot is zero,
    /// and then the system has no unique solution, or when a pivot has no
    /// inverse, which the prime modulus rules out.
    pub fn solution(self) -> (r: Option<Vec<Element>>)
        requires
            self.is_square(),
        ensures
            r matches Some(x) ==> is_unique_solution(self.spec_matrix(), self.spec_values(), values(x@)),
            r is None ==> (forall|x: Seq<nat>| !is_unique_solution(self.spec_matrix(), self.spec_values(), x))
                || some_nonzero_not_invertible(),
    {
        let ghost a0 = self.spec_matrix();
        let ghost b0 = self.spec_values();
        let SquareLinearSystem { matrix, values: vals } = self;
        let mut matrix = matrix;
        let mut vals = vals;
        let n = matrix.len();
        proof {
            lemma_values_reduced(vals@);
            assert(equivalent(a0, b0, matrix_values(matrix@), values(vals@), n as nat));
        }
        let mut i: usize = 0;
        while i < n
            invariant
                i <= n == matrix@.len() == vals@.len() == a0.len() == b0.len(),
                forall|r: int| 0 <= r < n ==> #[trigger] matrix@[r]@.len() == n,
                equivalent(a0, b0, matrix_values(matrix@), values(vals@), n as nat),
                forall|r: int, k: int|
                    0 <= k < i && k < r < n ==> #[trigger] matrix@[r]@[k]@ == 0,
                forall|r: int| 0 <= r < i ==> #[trigger] matrix@[r]@[r]@ != 0,
                forall|r: int| 0 <= r < i && r + 1 < n ==> invertible(#[trigger] matrix@[r]@[r]@),
                a0 == self.spec_matrix(),
                b0 == self.spec_values(),
            decreases n - i,
        {
            let mut max_row = i;
            let mut j = i + 1;
            while j < n
                invariant
                    i < n == matrix@.len(),
                    i <= max_row < n,
                    i + 1 <= j <= n,
                    forall|r: int| 0 <= r < n ==> #[trigger] matrix@[r]@.len() == n,
                    forall|r: int|
                        i <= r < j ==> #[trigger] matrix@[r]@[i as int]@ <= matrix@[max_row as int]@[i as int]@,
                decreases n - j,
            {
                if matrix[max_row][i].lt(&matrix[j][i]) {
                    max_row = j;
                }
                j += 1;
            }
            if max_row != i {
                let ghost a = matrix_values(matrix@);
                let ghost b = values(vals@);
                let ghost old_rows = matrix@;
                let ghost old_vals = vals@;
                let row_m = matrix.remove(max_row);
                let row_i = matrix.remove(i);
                matrix.insert(i, row_m);
                matrix.insert(max_row, row_i);
                let v_m = vals[max_row].duplicate();
                let v_i = vals[i].duplicate();
                vals.set(i, v_m);
                vals.set(max_row, v_i);
                proof {
                    assert(matrix@ =~= old_rows.update(i as int, old_rows[max_row as int]).update(
                        max_row as int,
                        old_rows[i as int],
                    ));
                    lemma_swap_equivalent(a, b, i as int, max_row as int, n as nat);
                    assert(matrix_values(matrix@) =~= a.update(i as int, a[max_row as int]).update(
                        max_row as int,
                        a[i as int],
                    ));
                    assert(values(vals@) =~= b.update(i as int, b[max_row as int]).update(
                        max_row as int,
                        b[i as int],
                    ));
                    lemma_equivalent_trans(
                        a0,
                        b0,
                        a,
                        b,
                        matrix_values(matrix@),
                        values(vals@),
                        n as nat,
                    );
                    assert forall|r: int, k: int| 0 <= k < i && k < r < n implies #[trigger] matrix@[r]@[k]@ == 0 by {
                        if r == i {
                            assert(matrix@[r] == old_rows[max_row as int]);
                        } else if r == max_row {
                            assert(matrix@[r] == old_rows[i as int]);
                        } else {
                            assert(matrix@[r] == old_rows[r]);
                        }
                    }
                    assert forall|r: int| 0 <= r < i implies #[trigger] matrix@[r] == old_rows[r] by {}
                    assert forall|r: int| i <= r < n implies #[trigger] matrix@[r]@[i as int]@ <= matrix@[i as int]@[i as int]@ by {
                        if r == max_row {
                            assert(matrix@[r] == old_rows[i as int]);
                        } else if r != i {
                            assert(matrix@[r] == old_rows[r]);
                        }
                    }
                }
            }
            proof {
                assert forall|r: int| i <= r < n implies #[trigger] matrix@[r]@[i as int]@ <= matrix@[i as int]@[i as int]@ by {}
            }
            let pivot = matrix[i][i].duplicate();
            if pivot.is_zero() {
                proof {
                    let u = matrix_values(matrix@);
                    let v = values(vals@);
                    lemma_values_reduced(vals@);
                    assert forall|r: int| 0 <= r < n implies #[trigger] u[r].len() == n by {
                        assert(u[r] == values(matrix@[r]@));
                    }
                    assert forall|r: int| 0 <= r < i implies invertible(#[trigger] u[r][r]) by {
                        assert(u[r] == values(matrix@[r]@));
                        assert(invertible(matrix@[r]@[r]@));
                    }
                    assert forall|r: int, k: int| 0 <= k < r < n && k < i implies #[trigger] u[r][k] == 0 by {
                        assert(u[r] == values(matrix@[r]@));
                        assert(matrix@[r]@[k]@ == 0);
                    }
                    assert forall|r: int| i <= r < n implies #[trigger] u[r][i as int] == 0 by {
                        assert(u[r] == values(matrix@[r]@));
                        assert(matrix@[r]@[i as int]@ <= matrix@[i as int]@[i as int]@);
                    }
                    lemma_singular_not_unique(a0, b0, u, v, n as nat, i as int);
                }
                return None;
            }
            let mut j = i + 1;
            while j < n
                invariant
                    i < n == matrix@.len() == vals@.len() == a0.len() == b0.len(),
                    i + 1 <= j <= n,
                    forall|r: int| 0 <= r < n ==> #[trigger] matrix@[r]@.len() == n,
                    equivalent(a0, b0, matrix_values(matrix@), values(vals@), n as nat),
                    forall|r: int, k: int|
                        0 <= k < i && k < r < n ==> #[trigger] matrix@[r]@[k]@ == 0,
                    forall|r: int| i < r < j ==> #[trigger] matrix@[r]@[i as int]@ == 0,
                    pivot@ == matrix@[i as int]@[i as int]@,
                    pivot@ != 0,
                    j > i + 1 ==> invertible(pivot@),
                    forall|r: int| 0 <= r < i ==> #[trigger] matrix@[r]@[r]@ != 0,
                    forall|r: int| 0 <= r < i && r + 1 < n ==> invertible(#[trigger] matrix@[r]@[r]@),
                decreases n - j,
            {
                let c = match matrix[j][i].div(&pivot) {
                    Some(c) => c,
                    None => {
                        proof {
                            lemma_element_bound(pivot);
                            assert(0 < pivot@ < modulus() && !invertible(pivot@));
                            assert(some_nonzero_not_invertible());
                        }
                        return None;
                    },
                };
                let ghost a = matrix_values(matrix@);
                let ghost b = values(vals@);
                let ghost old_rows = matrix@;
                proof {
                    lemma_values_reduced(vals@);
                }
                let temp = c.mul(&vals[i]);
                let new_value = vals[j].sub(&temp);
                vals.set(j, new_value);
                let new_row = combine_rows(&matrix[j], &c, &matrix[i], i);
                matrix.set(j, new_row);
                proof {
                    assert forall|r: int| 0 <= r < n implies #[trigger] a[r].len() == n by {
                        assert(a[r] == values(old_rows[r]@));
                    }
                    lemma_combo_equivalent(a, b, i as int, j as int, c@, n as nat);
                    assert(matrix_values(matrix@) =~= a.update(j as int, row_combo(a[j as int], c@, a[i as int])));
                    assert(values(vals@) =~= b.update(j as int, fsub(b[j as int], fmul(c@, b[i as int]))));
                    lemma_equivalent_trans(
                        a0,
                        b0,
                        a,
                        b,
                        matrix_values(matrix@),
                        values(vals@),
                        n as nat,
                    );
                    assert(a[i as int] == values(old_rows[i as int]@));
                    assert(a[j as int] == values(old_rows[j as int]@));
                    assert(matrix@[j as int] == new_row);
                    assert(values(new_row@).len() == n);
                    assert(values(new_row@)[i as int] == new_row@[i as int]@);
                    assert(matrix@[j as int]@[i as int]@ == fsub(a[j as int][i as int], fmul(c@, pivot@)));
                    crate::algebra::lemma_comm_assoc(c@, pivot@, 0);
                    lemma_identities(a[j as int][i as int]);
                    assert forall|r: int, k: int| 0 <= k < i && k < r < n implies #[trigger] matrix@[r]@[k]@ == 0 by {
                        if r == j {
                            assert(old_rows[i as int]@[k]@ == 0);
                            assert(old_rows[j as int]@[k]@ == 0);
                            assert(values(new_row@)[k] == new_row@[k]@);
                            assert(a[j as int][k] == old_rows[j as int]@[k]@);
                            assert(a[i as int][k] == old_rows[i as int]@[k]@);
                            lemma_identities(c@);
                            lemma_identities(0);
                            assert(new_row@[k]@ == fsub(0, fmul(c@, 0)));
                        } else {
                            assert(matrix@[r] == old_rows[r]);
                        }
                    }
                    assert forall|r: int| i < r < j + 1 implies #[trigger] matrix@[r]@[i as int]@ == 0 by {
                        if r != j {
                            assert(matrix@[r] == old_rows[r]);
                        }
                    }
                    assert forall|r: int| 0 <= r <= i implies #[trigger] matrix@[r] == old_rows[r] by {}
                }
                j += 1;
            }
            proof {
                assert forall|r: int| 0 <= r < i + 1 && r + 1 < n implies invertible(#[trigger] matrix@[r]@[r]@) by {}
            }
            i += 1;
        }
        let ghost u = matrix_values(matrix@);
        let ghost v = values(vals@);
        let mut x: Vec<Element> = Vec::new();
        let mut k: usize = 0;
        while k < n
            invariant
                k <= n,
                x@.len() == k,
            decreases n - k,
        {
            x.push(Element::zero());
            k += 1;
        }
        let mut i = n;
        while i > 0
            invariant
                i <= n == matrix@.len() == vals@.len() == x@.len(),
                u == matrix_values(matrix@),
                v == values(vals@),
                forall|r: int| 0 <= r < n ==> #[trigger] matrix@[r]@.len() == n,
                forall|r: int| 0 <= r < n ==> #[trigger] matrix@[r]@[r]@ != 0,
                forall|r: int| i <= r < n ==> invertible(#[trigger] u[r][r]),
                forall|r: int|
                    i <= r < n ==> fmul(#[trigger] values(x@)[r], u[r][r]) == fsub(
                        v[r],
                        dot_range(u[r], values(x@), r + 1, n as int),
                    ),
            decreases i,
        {
            i -= 1;
            let mut acc = vals[i].duplicate();
            let mut j = i + 1;
            proof {
                lemma_element_bound(vals@[i as int]);
                lemma_identities(v[i as int]);
                lemma_residue_reduced(v[i as int]);
            }
            while j < n
                invariant
                    i < n == matrix@.len() == vals@.len() == x@.len(),
                    i + 1 <= j <= n,
                    u == matrix_values(matrix@),
                    v == values(vals@),
                    forall|r: int| 0 <= r < n ==> #[trigger] matrix@[r]@.len() == n,
                    acc@ == fsub(v[i as int], dot_range(u[i as int], values(x@), i + 1, j as int)),
                decreases n - j,
            {
                let temp = matrix[i][j].mul(&x[j]);
                acc = acc.sub(&temp);
                proof {
                    lemma_sub_add(
                        v[i as int],
                        dot_range(u[i as int], values(x@), i + 1, j as int),
                        fmul(u[i as int][j as int], values(x@)[j as int]),
                    );
                }
                j += 1;
            }
            let ghost before = values(x@);
            match acc.div(&matrix[i][i]) {
                Some(q) => {
                    x.set(i, q);
                },
                None => {
                    proof {
                        lemma_element_bound(matrix@[i as int]@[i as int]);
                        assert(0 < matrix@[i as int]@[i as int]@ < modulus());
                        assert(!invertible(matrix@[i as int]@[i as int]@));
                        assert(some_nonzero_not_invertible());
                    }
                    return None;
                },
            }
            proof {
                assert forall|r: int| i <= r < n implies fmul(#[trigger] values(x@)[r], u[r][r]) == fsub(
                    v[r],
                    dot_range(u[r], values(x@), r + 1, n as int),
                ) by {
                    crate::birkhoff::linear::lemma_dot_agree(u[r], values(x@), before, r + 1, n as int);
                    if r > i {
                        assert(values(x@)[r] == before[r]);
                    }
                }
            }
        }
        proof {
            let xv = values(x@);
            lemma_values_reduced(x@);
            lemma_values_reduced(vals@);
            assert forall|r: int| 0 <= r < n implies #[trigger] u[r].len() == n by {
                assert(u[r] == values(matrix@[r]@));
            }
            assert forall|r: int, k: int| 0 <= k < r < n implies #[trigger] u[r][k] == 0 by {
                assert(u[r] == values(matrix@[r]@));
            }
            assert(back_substituted(u, v, xv, n as nat));
            lemma_back_substitution_unique(u, v, xv, n as nat);
            assert forall|y: Seq<nat>| y.len() == a0.len() && all_reduced(y) implies #[trigger] solves(a0, b0, y)
                <==> y == xv by {
                assert(solves(a0, b0, y) == solves(u, v, y));
                assert(solves(u, v, y) <==> y == xv);
            }
        }
        Some(x)
    }
}

} // verus!
