# re_kem_core

A Ring-LWE key encapsulation mechanism over `Z_q[X]/(X^n + 1)`, `q = 12289`,
`eta = 8`, with the Fujisaki-Okamoto transform, for `n = 512` (default) and
`n = 1024`. The library is written in Verus: every function carries a
contract, and every function but the trusted wrappers around outside crates
(`src/crypto.rs`, and the string comparison in `src/api.rs`) is proved against
it. The wrappers' contracts state what the outside crates document and are
believed, not proved.

## Layout

| Module | Contents |
|--------|----------|
| `src/field.rs` | Montgomery arithmetic in `Z_q` (branchless reductions) |
| `src/ntt_math.rs` | Strided DFT sums, bit reversal, the butterfly identity |
| `src/ntt.rs` | Polynomials, the twiddle tables, the radix-2 transform and multiplication |
| `src/ring.rs` | The negacyclic product, finite sums, evaluation at the odd powers of `psi`, and the proof that the transform pipeline computes the product |
| `src/sampling.rs` | CBD noise, rejection sampling of `a(x)`, polynomial packing |
| `src/kem.rs` | CPA encryption, key generation, encapsulation, decapsulation with implicit rejection |
| `src/params.rs` | The parameter sets and their derived sizes |
| `src/version.rs` | Algorithm identifiers and the `[id][len][body]` envelope |
| `src/api.rs` | The object-safe `Kem` trait, its adapter, and the runtime `Registry` |
| `src/crypto.rs` | SHA3/SHAKE, constant-time comparison, zeroisation and OS randomness from outside crates, behind trusted contracts |
| `app/lib.rs` | Printable error types and the floating-point rejection rate |

## Main proved properties

* Field operations compute `+`, `-`, `*` mod q; `from_plain`/`to_plain` round-trip.
* `NttContext::mul` returns the product in `Z_q[X]/(X^n + 1)` (`ring::lemma_transform_product`).
* CPA decryption recovers the message whenever the decryption noise stays
  within `q/4` (`kem::lemma_pke_decrypt_encrypt`), and decapsulation of an
  honest encapsulation yields the sender's secret under the same condition
  (`kem::lemma_decaps_of_encaps`).
* Encoding and decoding of polynomials and envelopes round-trip; algorithm
  identifiers are unique and decode back to their algorithm.
* A registry holds each algorithm at most once; a new registration replaces
  the old one.
