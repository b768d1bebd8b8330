# plonkish_backend

A verified core of a HyperPlonk proving backend over the BN254 curve, with
the Zeromorph multilinear polynomial commitment scheme built on univariate
KZG. The library is written in Verus: every function in `src/` carries a
contract that Verus proves.

Layout of `src/`:

- `field`, `curve`: field elements and curve points, held as their canonical
  encodings; the arithmetic, multi-scalar multiplications and pairings are
  computed by `halo2curves` behind trusted wrappers.
- `arithmetic`, `univariate`, `poly`: powers, inner products, batch
  inversion, coefficient vectors, and multilinear polynomials with their
  evaluation, equality tables and quotients (with the quotient identity).
- `vanishing`: the Zeromorph identity, that the check polynomial of an
  honest opening (also of a table rotated to the left) vanishes at `x`, and
  that a batched opening of true claims opens its merged table to its true
  value.
- `completeness`: honest openings verify. Where the parameters are the
  powers of a secret `s`, the points that an opening writes are the
  generator times the values at `s` of the polynomials behind them; those
  values satisfy the verifier's equation (for a single opening, a batched
  opening of rotated claims and an opening of a table rotated to the left),
  and the verifier then accepts.
- `transcript`: a Keccak-256 Fiat-Shamir transcript.
- `kzg`, `zeromorph`, `pcs`: univariate KZG, the Zeromorph openings (also of
  rotated polynomials) and the batched openings of rotated claims.
- `expression`, `backend`, `frontend`: constraint expressions, the circuit
  description and its checks, and the conversion of a halo2 constraint
  system into it.
- `hyperplonk`, `codec`: the backend's parameters, their byte encoding, and
  the verifier's rounds and openings.
- `bigint`, `message`, `error`: integer conversions, decimal messages and
  errors.

`app/` holds what meets halo2 and I/O; `tests/` holds the tests.
