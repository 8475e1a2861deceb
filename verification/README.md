# rsckks

A small CKKS homomorphic-encryption library whose integer core is verified with Verus.

## Layout

- `src/` — the verified library.
  - `arith` — arithmetic modulo a fixed modulus below 2^61, with its algebraic laws.
  - `primes` — the Miller test and the search for NTT-friendly primes.
  - `ring` — the negacyclic NTT over `Z_q[X]/(X^n + 1)`: forward and inverse transforms,
    their round trip, and the theorem that pointwise products of transforms are
    negacyclic products (`ntt_eval`, `negacyclic` hold the proof).
  - `rns` — polynomials in residue-number-system form, limb-wise operations, CRT
    coefficients and fast base conversion (its error bound is proved in `crt`).
  - `sampling`, `rng` — ternary sampling over the thread-local generator of `rand`.
  - `ckks` — contexts and parameters, key generation, encryption, decryption,
    ciphertext addition/subtraction and the tensor step of multiplication, with the
    decryption laws; `ckks::encoding` holds the integer half of encoding.
    Of ciphertext multiplication only the tensor step, `Evaluator::tensor`, is
    provided; key switching with the relinearisation key and rescaling are not.
  - `fermat`, `euler`, `math` — number-theoretic and modular-arithmetic lemmas: Fermat's
    little theorem, the existence of a quadratic non-residue modulo an odd prime (by finite
    differences), and from it the existence of the primitive roots of unity that the ring
    construction searches for.
- `tests/` — scenario tests run against the compiled library.
- `app/` — the floating-point encoder, Gaussian error sampling, the encoding scale, and
  error types with `thiserror` messages, built on the library.
