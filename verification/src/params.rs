//! Parameter sets: the single source of truth for (n, q, eta) and every
//! derived size.

use vstd::prelude::*;

verus! {

/// A complete parameter set for the ring `Z_q[X]/(X^n + 1)` with CBD noise.
#[derive(Clone, Copy, Debug, PartialEq, Eq)]
pub struct Params {
    /// Polynomial degree / torus dimension.
    pub n: usize,
    /// NTT-friendly prime modulus.
    pub q: u32,
    /// CBD noise parameter (coefficients are drawn from `[-eta, eta]`).
    pub eta: usize,
    /// Length of the seeds used for `a(x)` expansion and noise sampling.
    pub seed_len: usize,
    /// Length of the shared secret in bytes.
    pub ss_len: usize,
    /// Human-readable name, used in diagnostics and the algorithm registry.
    pub name: &'static str,
    /// `true` if this set uses parameters with a published cryptanalysis.
    pub analysed: bool,
}

impl Params {
    /// Encoded polynomial length: 2 bytes per coefficient.
    pub open spec fn spec_poly_len(self) -> int {
        2 * self.n
    }

    /// Public key length: `seed_a || b(x)`.
    pub open spec fn spec_pk_len(self) -> int {
        self.seed_len + self.spec_poly_len()
    }

    /// Secret key length: `s(x) || pk || H(pk) || z`.
    pub open spec fn spec_sk_len(self) -> int {
        self.spec_poly_len() + self.spec_pk_len() + 32 + self.seed_len
    }

    /// Ciphertext length: `u(x) || v(x)`.
    pub open spec fn spec_ct_len(self) -> int {
        2 * self.spec_poly_len()
    }

    /// All derived sizes fit in a `usize`.
    pub open spec fn sizes_fit(self) -> bool {
        &&& self.spec_sk_len() <= usize::MAX
        &&& self.spec_ct_len() <= usize::MAX
        &&& 2 * self.eta + 7 <= usize::MAX
        &&& self.seed_len * 8 <= usize::MAX
    }

    /// 2 bytes per coefficient.
    pub fn poly_len(&self) -> (r: usize)
        requires
            self.sizes_fit(),
        ensures
            r == self.spec_poly_len(),
    {
        2 * self.n
    }

    /// `seed_a || b(x)`
    pub fn pk_len(&self) -> (r: usize)
        requires
            self.sizes_fit(),
        ensures
            r == self.spec_pk_len(),
    {
        self.seed_len + self.poly_len()
    }

    /// `s(x) || pk || H(pk) || z`
    pub fn sk_len(&self) -> (r: usize)
        requires
            self.sizes_fit(),
        ensures
            r == self.spec_sk_len(),
    {
        self.poly_len() + self.pk_len() + 32 + self.seed_len
    }

    /// `u(x) || v(x)`
    pub fn ct_len(&self) -> (r: usize)
        requires
            self.sizes_fit(),
        ensures
            r == self.spec_ct_len(),
    {
        2 * self.poly_len()
    }

    /// Number of bits a message carries (`seed_len * 8`).
    pub fn msg_bits(&self) -> (r: usize)
        requires
            self.sizes_fit(),
        ensures
            r == self.seed_len * 8,
    {
        self.seed_len * 8
    }

    /// Bytes produced per CBD coefficient (`2*eta` bits, rounded up to bytes).
    pub fn cbd_bytes(&self) -> (r: usize)
        requires
            self.sizes_fit(),
        ensures
            r == (2 * self.eta + 7) / 8,
    {
        (2 * self.eta + 7) / 8
    }

    /// Upper rejection bound for uniform expansion of `a(x)`:
    /// `floor(2^16 / q) * q`. Drawn 16-bit words below this are accepted.
    pub fn rejection_limit(&self) -> (r: u32)
        requires
            self.q > 0,
        ensures
            r == (0x10000int / (self.q as int)) * self.q,
            r <= 0x10000,
    {
        let k = 0x10000u32 / self.q;
        proof {
            vstd::arithmetic::div_mod::lemma_fundamental_div_mod(0x10000, self.q as int);
            vstd::arithmetic::div_mod::lemma_mod_bound(0x10000, self.q as int);
        }
        k * self.q
    }
}

/// **The parameter set in use.** Matches the published NewHope-512 regime.
pub open spec fn spec_newhope_512() -> Params {
    Params {
        n: 512,
        q: 12289,
        eta: 8,
        seed_len: 32,
        ss_len: 32,
        name: "RE-KEM n=512 (NewHope-512 regime)",
        analysed: true,
    }
}

/// **Second parameter set: `n = 1024`.** Same modulus and noise, larger ring.
pub open spec fn spec_level5_1024() -> Params {
    Params {
        n: 1024,
        q: 12289,
        eta: 8,
        seed_len: 32,
        ss_len: 32,
        name: "RE-KEM n=1024",
        analysed: true,
    }
}

/// The NewHope-512 parameter set.
pub fn newhope_512() -> (r: Params)
    ensures
        r == spec_newhope_512(),
{
    Params {
        n: 512,
        q: 12289,
        eta: 8,
        seed_len: 32,
        ss_len: 32,
        name: "RE-KEM n=512 (NewHope-512 regime)",
        analysed: true,
    }
}

/// The `n = 1024` parameter set.
pub fn level5_1024() -> (r: Params)
    ensures
        r == spec_level5_1024(),
{
    Params {
        n: 1024,
        q: 12289,
        eta: 8,
        seed_len: 32,
        ss_len: 32,
        name: "RE-KEM n=1024",
        analysed: true,
    }
}

/// The parameter set compiled into this build.
pub fn active() -> (r: Params)
    ensures
        r == spec_newhope_512(),
{
    newhope_512()
}

} // verus!
