# arithmetics

Finite-field arithmetic and secret sharing for the MULTISS protocols, which
store a secret across several QKD networks, written in Verus: the library's
functions carry `requires`/`ensures` contracts that Verus proves.

The field is the integers modulo the Mersenne prime p = 2^9689 - 1. Its
elements hold the limbs of a `malachite` natural; the big-number operations
are `malachite`'s, behind trusted wrappers, and everything built on them is
verified.

## Layout

- `src/natural.rs`: limbs and their value; the trusted wrappers around
  `malachite` naturals.
- `src/bytes.rs`: big-endian byte strings, shares, and their limbs.
- `src/field.rs`: field elements (`MalachiteElement`, alias `Element`) with
  the Mersenne reduction, conversions to and from bytes and shares.
- `src/algebra.rs`: ring laws of the field operations.
- `src/secret_sharing/`: polynomials (Horner evaluation, derivatives),
  Shamir sharing and Lagrange reconstruction.
- `src/interpolation.rs`: Lagrange bases and the interpolation theorems.
- `src/packed.rs`: packed sharing, several secrets in one polynomial.
- `src/birkhoff/`: Birkhoff (derivative-based) sharing, its solvability
  condition and the Gaussian elimination that recovers the polynomial.
- `src/multiss.rs`: the standard and local MULTISS protocols.
- `src/rng.rs`: the ChaCha20 generator, behind trusted wrappers.
- `app/`: the benchmark program (configuration, timing, output), the
  streaming of shares over tokio channels, and serde and snafu forms of the
  library's types.
- `tests/`: tests of the library.

## Running the benchmark

```bash
arithmetics <JSON config file>
```

The configuration gives `mode` (`"standard"` or `"local"`), `degree_p` (the
degree of the polynomial P), `networks` (a list of `{ "nodes", "degree" }`)
and `iterations`.
