//! Polynomials over the field, and the secret sharing schemes built on them.

use crate::bytes::bytes_value;
use crate::field::{fadd, fmul, lemma_element_bound, modulus, Element};
use crate::Share;
use rand_chacha::ChaCha20Rng;
use vstd::arithmetic::div_mod::{lemma_div_multiples_vanish, lemma_small_mod};
use vstd::prelude::*;

pub mod evaluation;
pub mod shamir;

verus! {

/// The values of a sequence of elements.
pub open spec fn values(s: Seq<Element>) -> Seq<nat> {
    s.map_values(|e: Element| e@)
}

/// Every value of the sequence is a reduced field value.
pub open spec fn all_reduced(s: Seq<nat>) -> bool {
    forall|i: int| 0 <= i < s.len() ==> #[trigger] s[i] < modulus()
}

/// Value at `x` of the polynomial with coefficients `c`, constant term first.
pub open spec fn poly_eval(c: Seq<nat>, x: nat) -> nat
    decreases c.len(),
{
    if c.len() == 0 {
        0
    } else {
        fadd(fmul(poly_eval(c.drop_first(), x), x), c[0])
    }
}

/// Falling factorial m (m - 1) ... (m - d + 1).
pub open spec fn falling(m: nat, d: nat) -> nat
    decreases d,
{
    if d == 0 {
        1
    } else if m == 0 {
        0
    } else {
        m * falling((m - 1) as nat, (d - 1) as nat)
    }
}

/// Coefficients of the `d`-th derivative of the polynomial with coefficients `c`.
pub open spec fn derivative(c: Seq<nat>, d: nat) -> Seq<nat> {
    if d >= c.len() {
        Seq::empty()
    } else {
        Seq::new((c.len() - d) as nat, |i: int| fmul(falling((i + d) as nat, d), c[i + d]))
    }
}

/// The factors (i + d)! / i! that the `d`-th derivative of a polynomial with
/// `n` coefficients multiplies by all fit in a machine word, and so do the
/// intermediate products that compute them.
pub open spec fn derivative_fits(n: nat, d: nat) -> bool {
    d < n ==> falling(d, d) <= usize::MAX && falling((n - 1) as nat, d + 1) <= usize::MAX
}

/// One more factor: falling(m, d + 1) = falling(m, d) * (m - d).
pub proof fn lemma_falling_step(m: nat, d: nat)
    requires
        d <= m,
    ensures
        falling(m, d + 1) == falling(m, d) * (m - d) as nat,
    decreases d,
{
    if d > 0 {
        lemma_falling_step((m - 1) as nat, (d - 1) as nat);
        let f = falling((m - 1) as nat, (d - 1) as nat);
        assert(falling(m, d + 1) == m * falling((m - 1) as nat, d));
        assert(falling(m, d) == m * f);
        assert(falling((m - 1) as nat, d) == f * (m - d) as nat);
        assert(m * (f * (m - d) as nat) == (m * f) * (m - d) as nat) by (nonlinear_arith);
    } else {
        assert(falling(m, 0) == 1);
        if m > 0 {
            assert(falling(m, 1) == m * falling((m - 1) as nat, 0));
            assert(falling((m - 1) as nat, 0) == 1);
            assert(m * 1 == m);
        } else {
            assert(falling(0, 1) == 0);
        }
        assert(falling(m, 0) * (m - 0) as nat == m) by (nonlinear_arith)
            requires falling(m, 0) == 1;
    }
}

/// The falling factorial grows with its base.
pub proof fn lemma_falling_monotone(m1: nat, m2: nat, d: nat)
    requires
        m1 <= m2,
    ensures
        falling(m1, d) <= falling(m2, d),
    decreases d,
{
    if d > 0 && m1 > 0 {
        lemma_falling_monotone((m1 - 1) as nat, (m2 - 1) as nat, (d - 1) as nat);
        let a = falling((m1 - 1) as nat, (d - 1) as nat);
        let b = falling((m2 - 1) as nat, (d - 1) as nat);
        assert(m1 * a <= m2 * b) by (nonlinear_arith)
            requires
                m1 <= m2,
                a <= b,
        ;
    }
}

/// d! <= e! when d <= e.
pub proof fn lemma_factorial_monotone(d: nat, e: nat)
    requires
        d <= e,
    ensures
        falling(d, d) <= falling(e, e),
    decreases e - d,
{
    if d < e {
        lemma_factorial_monotone(d, (e - 1) as nat);
        let f = falling((e - 1) as nat, (e - 1) as nat);
        assert(f <= e * f) by (nonlinear_arith)
            requires
                e >= 1,
        ;
    }
}

/// The derivative of order zero never overflows.
pub proof fn lemma_derivative_fits_zero(n: nat)
    requires
        n <= usize::MAX,
    ensures
        derivative_fits(n, 0),
{
    if n > 0 {
        lemma_falling_step((n - 1) as nat, 0);
        assert(falling(0, 0) == 1);
        assert(falling((n - 1) as nat, 0) == 1);
        assert(1 * (n - 1) == n - 1);
    }
}

/// The derivative of order zero leaves reduced coefficients unchanged.
pub proof fn lemma_derivative_zero(c: Seq<nat>)
    requires
        all_reduced(c),
    ensures
        derivative(c, 0) == c,
{
    if c.len() > 0 {
        assert forall|i: int| 0 <= i < c.len() implies derivative(c, 0)[i] == c[i] by {
            assert(falling(i as nat, 0) == 1);
            assert(1 * c[i] == c[i]);
            lemma_small_mod(c[i], modulus());
        }
    }
    assert(derivative(c, 0) =~= c);
}

/// A polynomial over the field, given by its coefficients, constant term
/// first: `[3, 0, 2]` stands for 2x^2 + 3.
pub struct Polynomial(pub Vec<Element>);

impl View for Polynomial {
    type V = Seq<nat>;

    open spec fn view(&self) -> Seq<nat> {
        values(self.0@)
    }
}

impl Polynomial {
    /// The polynomial of a Shamir sharing: the secret as constant term and
    /// `degree` random coefficients after it.
    pub fn new_shamir(secret: &[u8], degree: usize, rng: &mut ChaCha20Rng) -> (r: Polynomial)
        ensures
            r@.len() == degree + 1,
            r@[0] == bytes_value(secret@) % modulus(),
    {
        let mut coefficients: Vec<Element> = Vec::new();
        coefficients.push(Element::from_slice(secret));
        let mut k: usize = 0;
        while k < degree
            invariant
                k <= degree,
                coefficients@.len() == k + 1,
                coefficients@[0]@ == bytes_value(secret@) % modulus(),
            decreases degree - k,
        {
            coefficients.push(Element::gen_random(rng));
            k += 1;
        }
        Polynomial(coefficients)
    }

    /// Evaluates the `derivative_order`-th derivative of the polynomial at `x`
    /// with Horner's method.
    pub fn evaluate_with_horner_method(&self, x: &Element, derivative_order: usize) -> (r: Element)
        requires
            derivative_fits(self@.len(), derivative_order as nat),
        ensures
            r@ == poly_eval(derivative(self@, derivative_order as nat), x@),
            derivative_order == 0 ==> r@ == poly_eval(self@, x@),
    {
        let derived_storage;
        let derived: &Polynomial = if derivative_order != 0 {
            derived_storage = self.derive(derivative_order);
            &derived_storage
        } else {
            proof {
                assert forall|i: int| 0 <= i < self@.len() implies #[trigger] self@[i] < modulus() by {
                    lemma_element_bound(self.0@[i]);
                }
                lemma_derivative_zero(self@);
            }
            self
        };
        let n = derived.0.len();
        let mut acc = Element::zero();
        let mut i = n;
        proof {
            assert(derived@.subrange(n as int, n as int) =~= Seq::<nat>::empty());
        }
        while i > 0
            invariant
                i <= n == derived@.len(),
                acc@ == poly_eval(derived@.subrange(i as int, n as int), x@),
            decreases i,
        {
            acc = acc.mul(x);
            acc = acc.add(&derived.0[i - 1]);
            proof {
                let s = derived@.subrange(i - 1, n as int);
                assert(s.drop_first() =~= derived@.subrange(i as int, n as int));
            }
            i -= 1;
        }
        proof {
            assert(derived@.subrange(0, n as int) =~= derived@);
        }
        acc
    }

    /// The `d`-th derivative of the polynomial.
    pub fn derive(&self, d: usize) -> (r: Polynomial)
        requires
            derivative_fits(self@.len(), d as nat),
        ensures
            r@ == derivative(self@, d as nat),
    {
        let n = self.0.len();
        if d >= n {
            let r = Polynomial(Vec::new());
            proof {
                assert(r@ =~= Seq::<nat>::empty());
            }
            return r;
        }
        let mut factor: usize = 1;
        let mut k: usize = 1;
        while k <= d
            invariant
                1 <= k <= d + 1,
                d < n,
                falling(d as nat, d as nat) <= usize::MAX,
                factor as nat == falling((k - 1) as nat, (k - 1) as nat),
            decreases d + 1 - k,
        {
            proof {
                lemma_factorial_monotone(k as nat, d as nat);
                assert(falling(k as nat, k as nat) == k * falling((k - 1) as nat, (k - 1) as nat));
                assert(factor * k == k * factor) by (nonlinear_arith);
            }
            factor = factor * k;
            k += 1;
        }
        let mut result: Vec<Element> = Vec::new();
        let mut i: usize = 0;
        while i < n - d
            invariant
                d < n == self@.len(),
                derivative_fits(n as nat, d as nat),
                i <= n - d,
                result@.len() == i,
                i == 0 ==> factor as nat == falling(d as nat, d as nat),
                i > 0 ==> factor as nat == falling((i - 1 + d) as nat, d as nat),
                forall|j: int|
                    0 <= j < i ==> #[trigger] result@[j]@ == fmul(falling((j + d) as nat, d as nat), self@[j + d]),
            decreases n - d - i,
        {
            if i > 0 {
                proof {
                    let m = (i + d) as nat;
                    assert(falling(m, (d + 1) as nat) == m * falling((m - 1) as nat, d as nat));
                    lemma_falling_step(m, d as nat);
                    lemma_falling_monotone(m, (n - 1) as nat, (d + 1) as nat);
                    assert(factor * (i + d) == falling(m, d as nat) * i) by (nonlinear_arith)
                        requires
                            factor as nat == falling((m - 1) as nat, d as nat),
                            falling(m, (d + 1) as nat) == m * falling((m - 1) as nat, d as nat),
                            falling(m, (d + 1) as nat) == falling(m, d as nat) * (m - d) as nat,
                            m == i + d,
                    ;
                    lemma_div_multiples_vanish(falling(m, d as nat) as int, i as int);
                    assert(falling(m, d as nat) * i == i * falling(m, d as nat)) by (nonlinear_arith);
                }
                factor = factor * (i + d) / i;
            }
            let term = Element::from_usize(factor).mul(&self.0[i + d]);
            result.push(term);
            i += 1;
        }
        let r = Polynomial(result);
        proof {
            assert(r@ =~= derivative(self@, d as nat));
        }
        r
    }

    /// The Shamir shares of the polynomial: its values at 1, 2, ..., n.
    pub fn shamir_shares(&self, n: usize) -> (r: Vec<Share>)
        ensures
            r@.len() == n,
            forall|k: int| 0 <= k < n ==> bytes_value(#[trigger] r@[k]@) == poly_eval(self@, (k + 1) as nat),
    {
        let mut shares: Vec<Share> = Vec::new();
        let len = self.0.len();
        let mut i: usize = 0;
        while i < n
            invariant
                i <= n,
                len == self@.len(),
                shares@.len() == i,
                forall|k: int| 0 <= k < i ==> bytes_value(#[trigger] shares@[k]@) == poly_eval(self@, (k + 1) as nat),
            decreases n - i,
        {
            let point = Element::from_usize(i + 1);
            proof {
                lemma_derivative_fits_zero(len as nat);
            }
            let value = self.evaluate_with_horner_method(&point, 0);
            shares.push(value.to_share());
            i += 1;
        }
        shares
    }
}

} // verus!
