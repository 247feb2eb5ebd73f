//! Ring laws of the field operations.

use crate::field::{fadd, fint, fmul, fsub, invertible, lemma_modulus, modulus};
use crate::natural::is_inverse_mod;
use vstd::arithmetic::div_mod::{
    lemma_add_mod_noop_right, lemma_mod_bound, lemma_mod_twice, lemma_mul_mod_noop_left,
    lemma_mul_mod_noop_right, lemma_small_mod, lemma_sub_mod_noop, lemma_sub_mod_noop_right,
};
use vstd::arithmetic::mul::{
    lemma_mul_is_associative, lemma_mul_is_commutative, lemma_mul_is_distributive_add,
    lemma_mul_is_distributive_sub,
};
use vstd::prelude::*;

verus! {

/// The field operations are residues of the integer operations.
pub proof fn lemma_ops_as_residues(a: nat, b: nat)
    ensures
        fadd(a, b) == fint((a + b) as int),
        fmul(a, b) == fint((a * b) as int),
        fsub(a, b) == fint((a - b) as int),
        fint(a as int) == a % modulus(),
        fint(a as int) < modulus(),
{
    lemma_modulus();
    lemma_mod_bound(a as int, modulus() as int);
}

/// Reducing an operand first does not change a residue.
pub proof fn lemma_residue_absorbs(x: int, y: int)
    ensures
        fint((fint(x) + y) as int) == fint(x + y),
        fint((y + fint(x)) as int) == fint(y + x),
        fint((fint(x) * y) as int) == fint(x * y),
        fint((y * fint(x)) as int) == fint(y * x),
        fint((fint(x) - y) as int) == fint(x - y),
        fint((y - fint(x)) as int) == fint(y - x),
        fint((fint(x)) as int) == fint(x),
        fint(x) < modulus(),
{
    let m = modulus() as int;
    lemma_modulus();
    lemma_mod_bound(x, m);
    lemma_add_mod_noop_right(y, x, m);
    lemma_mul_mod_noop_left(x, y, m);
    lemma_mul_mod_noop_right(y, x, m);
    lemma_sub_mod_noop_right(y, x, m);
    lemma_sub_mod_noop(x, y, m);
    lemma_mod_twice(x, m);
    lemma_sub_mod_noop(x % m, y, m);
    assert(fint(x) as int == x % m);
}

/// A reduced value is its own residue.
pub proof fn lemma_residue_reduced(a: nat)
    requires
        a < modulus(),
    ensures
        fint(a as int) == a,
        a % modulus() == a,
{
    lemma_small_mod(a, modulus());
}

/// Commutativity and associativity of addition and multiplication.
pub proof fn lemma_comm_assoc(a: nat, b: nat, c: nat)
    ensures
        fadd(a, b) == fadd(b, a),
        fmul(a, b) == fmul(b, a),
        fadd(fadd(a, b), c) == fadd(a, fadd(b, c)),
        fmul(fmul(a, b), c) == fmul(a, fmul(b, c)),
{
    lemma_ops_as_residues(a, b);
    lemma_ops_as_residues(b, a);
    lemma_ops_as_residues(fadd(a, b), c);
    lemma_ops_as_residues(a, fadd(b, c));
    lemma_ops_as_residues(b, c);
    lemma_ops_as_residues(fmul(a, b), c);
    lemma_ops_as_residues(a, fmul(b, c));
    lemma_residue_absorbs((a + b) as int, c as int);
    lemma_residue_absorbs((b + c) as int, a as int);
    lemma_residue_absorbs((a * b) as int, c as int);
    lemma_residue_absorbs((b * c) as int, a as int);
    lemma_mul_is_commutative(a as int, b as int);
    lemma_mul_is_associative(a as int, b as int, c as int);
    assert(a + (b + c) == (a + b) + c);
}

/// Multiplication distributes over addition and subtraction.
pub proof fn lemma_distributes(a: nat, b: nat, c: nat)
    ensures
        fmul(a, fadd(b, c)) == fadd(fmul(a, b), fmul(a, c)),
        fmul(a, fsub(b, c)) == fsub(fmul(a, b), fmul(a, c)),
{
    lemma_ops_as_residues(a, fadd(b, c));
    lemma_ops_as_residues(b, c);
    lemma_ops_as_residues(a, b);
    lemma_ops_as_residues(a, c);
    lemma_ops_as_residues(fmul(a, b), fmul(a, c));
    lemma_ops_as_residues(a, fsub(b, c));
    lemma_residue_absorbs((b + c) as int, a as int);
    lemma_residue_absorbs((b - c) as int, a as int);
    lemma_residue_absorbs((a * b) as int, (fint((a * c) as int)) as int);
    lemma_residue_absorbs((a * c) as int, (a * b) as int);
    lemma_residue_absorbs((a * b) as int, (-fint((a * c) as int)) as int);
    lemma_residue_absorbs((a * c) as int, (a * b) as int);
    lemma_mul_is_distributive_add(a as int, b as int, c as int);
    lemma_mul_is_distributive_sub(a as int, b as int, c as int);
    assert(fint((a * b) as int) + fint((a * c) as int) == fint((a * c) as int) + fint((a * b) as int));
    assert(fint((fint((a * b) as int) - fint((a * c) as int)) as int) == fint((a * b - a * c) as int));
}

/// Identities of zero and one.
pub proof fn lemma_identities(a: nat)
    ensures
        fadd(a, 0) == a % modulus(),
        fadd(0, a) == a % modulus(),
        fmul(a, 1) == a % modulus(),
        fmul(1, a) == a % modulus(),
        fmul(a, 0) == 0,
        fmul(0, a) == 0,
        fsub(a, 0) == a % modulus(),
        fsub(a, a) == 0,
{
    lemma_ops_as_residues(a, 0);
    lemma_ops_as_residues(0, a);
    lemma_ops_as_residues(a, 1);
    lemma_ops_as_residues(1, a);
    lemma_ops_as_residues(a, a);
    lemma_modulus();
    lemma_small_mod(0, modulus());
}

/// Subtraction undoes addition.
pub proof fn lemma_sub_add(a: nat, b: nat, c: nat)
    ensures
        fadd(fsub(a, b), b) == a % modulus(),
        fsub(fadd(a, b), b) == a % modulus(),
        fsub(fsub(a, b), c) == fsub(a, fadd(b, c)),
        fsub(a, fsub(a, b)) == b % modulus(),
{
    lemma_ops_as_residues(fsub(a, b), b);
    lemma_ops_as_residues(a, b);
    lemma_ops_as_residues(fadd(a, b), b);
    lemma_ops_as_residues(fsub(a, b), c);
    lemma_ops_as_residues(a, fadd(b, c));
    lemma_ops_as_residues(b, c);
    lemma_ops_as_residues(a, fsub(a, b));
    lemma_ops_as_residues(a, 0);
    lemma_ops_as_residues(b, 0);
    lemma_residue_absorbs((a - b) as int, b as int);
    lemma_residue_absorbs((a + b) as int, (-(b as int)) as int);
    lemma_residue_absorbs((a - b) as int, (-(c as int)) as int);
    lemma_residue_absorbs((b + c) as int, a as int);
    lemma_residue_absorbs((a - b) as int, a as int);
    assert(fint((a - b + b) as int) == fint(a as int));
    assert(fint((fint((a + b) as int) - b) as int) == fint((a + b - b) as int));
    assert(fint((a - fint((b + c) as int)) as int) == fint((a - (b + c)) as int));
    assert(fint((a - fint((a - b) as int)) as int) == fint((a - (a - b)) as int));
}

/// An equation a + b = c between reduced values solves to a = c - b.
pub proof fn lemma_solve_add(a: nat, b: nat, c: nat)
    requires
        a < modulus(),
        c < modulus(),
    ensures
        (fadd(a, b) == c) == (a == fsub(c, b)),
{
    lemma_sub_add(a, b, 0);
    lemma_sub_add(c, b, 0);
    lemma_residue_reduced(a);
    lemma_residue_reduced(c);
}

/// A factor with an inverse cancels.
pub proof fn lemma_cancel(u: nat, x: nat, y: nat)
    requires
        invertible(u),
        x < modulus(),
        y < modulus(),
        fmul(u, x) == fmul(u, y),
    ensures
        x == y,
{
    let v = choose|v: nat| is_inverse_mod(u, v, modulus());
    lemma_comm_assoc(v, u, x);
    lemma_comm_assoc(v, u, y);
    lemma_comm_assoc(u, v, 0);
    assert(fmul(u, v) == 1);
    lemma_identities(x);
    lemma_identities(y);
    lemma_residue_reduced(x);
    lemma_residue_reduced(y);
    assert(fmul(v, fmul(u, x)) == fmul(fmul(v, u), x));
}

/// (r - x) + (a - y) = (r + a) - (x + y).
pub proof fn lemma_add_of_subs(r: nat, x: nat, a: nat, y: nat)
    ensures
        fadd(fsub(r, x), fsub(a, y)) == fsub(fadd(r, a), fadd(x, y)),
{
    lemma_ops_as_residues(fsub(r, x), fsub(a, y));
    lemma_ops_as_residues(r, x);
    lemma_ops_as_residues(a, y);
    lemma_ops_as_residues(fadd(r, a), fadd(x, y));
    lemma_ops_as_residues(r, a);
    lemma_ops_as_residues(x, y);
    lemma_residue_absorbs(r - x, fint(a - y) as int);
    lemma_residue_absorbs(a - y, r - x);
    lemma_residue_absorbs((r + a) as int, -fint((x + y) as int));
    lemma_residue_absorbs((x + y) as int, (r + a) as int);
    assert(fint((fint(r - x) + fint(a - y)) as int) == fint((r - x) + (a - y)));
    assert(fint((fint((r + a) as int) - fint((x + y) as int)) as int) == fint((r + a) - (x + y)));
    assert((r - x) + (a - y) == (r + a) - (x + y));
}

/// Two differences with the same subtrahend are equal only for equal reduced
/// minuends.
pub proof fn lemma_sub_cancel(x: nat, w: nat, z: nat)
    requires
        x < modulus(),
        w < modulus(),
        fsub(x, z) == fsub(w, z),
    ensures
        x == w,
{
    lemma_sub_add(x, z, 0);
    lemma_sub_add(w, z, 0);
    lemma_residue_reduced(x);
    lemma_residue_reduced(w);
}

} // verus!
