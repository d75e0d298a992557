//! Sampling: Centered Binomial Distribution and uniform expansion of a(x),
//! generic over the ring dimension, plus the byte encoding of polynomials.
//!
//! Bit ordering matters: within each byte the most significant bit comes
//! first, and the stream is read as `n` rows of `2*eta` bits.

use vstd::prelude::*;
use vstd::arithmetic::div_mod::*;
use vstd::slice::slice_to_vec;

use crate::crypto::{wipe_bytes, shake256, spec_shake256};
use crate::field::{ct_reduce_once, lemma_val_range, FieldElement, Q};
use crate::ntt::Poly;
use crate::ntt_math::qm;

verus! {

/// CBD noise parameter (both parameter sets use `eta = 8`).
pub const ETA: usize = 8;

/// Number of 1-bits among the `m` most significant bits of `b`.
pub open spec fn ones(b: u8, m: nat) -> int
    decreases m,
{
    if m == 0 {
        0
    } else {
        ones(b, (m - 1) as nat) + ((b >> ((8 - m) as u8)) & 1) as int
    }
}

/// Bit `idx` of a byte string, most significant bit first within each byte.
pub open spec fn spec_bit(data: Seq<u8>, idx: int) -> int {
    ((data[idx / 8] >> ((7 - idx % 8) as u8)) & 1) as int
}

/// The SHAKE-256 input for a seed and a one-byte nonce: `seed || nonce`.
pub open spec fn xof_input(seed: Seq<u8>, nonce: u8) -> Seq<u8> {
    seed.push(nonce)
}

/// CBD(8) coefficients from a byte stream: coefficient `i` is the number of
/// 1-bits of byte `2i` minus that of byte `2i+1`, as a residue mod q.
pub open spec fn spec_cbd_from(raw: Seq<u8>, n: nat) -> Seq<int> {
    Seq::new(n, |i: int| (ones(raw[2 * i], 8) - ones(raw[2 * i + 1], 8)) % qm())
}

/// The noise polynomial for `seed` and `nonce`: CBD(8) over
/// SHAKE-256(seed || nonce), 2n bytes.
pub open spec fn spec_cbd_sample(seed: Seq<u8>, nonce: u8, n: nat) -> Seq<int> {
    spec_cbd_from(spec_shake256(xof_input(seed, nonce), 2 * n), n)
}

/// `ones(b, 8)` is the number of one bits of `b`.
pub proof fn lemma_ones_counts_bits(b: u8)
    ensures
        ones(b, 8) == ((b >> 0u8) & 1) + ((b >> 1u8) & 1) + ((b >> 2u8) & 1) + ((b >> 3u8) & 1)
            + ((b >> 4u8) & 1) + ((b >> 5u8) & 1) + ((b >> 6u8) & 1) + ((b >> 7u8) & 1),
{
    reveal_with_fuel(ones, 9);
}

/// Noise for `(seed, nonce)` is read from SHAKE-256 over the seed followed by
/// the full nonce byte, two bytes per coefficient: coefficient `i` is the
/// number of one bits in byte `2i` minus the number in byte `2i + 1`, mod q.
pub proof fn lemma_cbd_sample_reads(seed: Seq<u8>, nonce: u8, n: nat)
    ensures
        spec_cbd_sample(seed, nonce, n).len() == n,
        forall|i: int| 0 <= i < n ==> #[trigger] spec_cbd_sample(seed, nonce, n)[i]
            == (ones(spec_shake256(seed.push(nonce), 2 * n)[2 * i], 8)
                - ones(spec_shake256(seed.push(nonce), 2 * n)[2 * i + 1], 8)) % 12289,
{
}

/// Every noise coefficient is a difference of two counts in `[0, eta]`, so
/// it lies in `[-eta, eta]`: stored mod q, in `[0, eta]` or `[q - eta, q)`.
pub proof fn lemma_cbd_small(seed: Seq<u8>, nonce: u8, n: nat)
    ensures
        spec_cbd_sample(seed, nonce, n).len() == n,
        forall|i: int| 0 <= i < n ==> {
            let v = #[trigger] spec_cbd_sample(seed, nonce, n)[i];
            (0 <= v <= 8) || (qm() - 8 <= v < qm())
        },
{
    let raw = spec_shake256(xof_input(seed, nonce), 2 * n);
    assert forall|i: int| 0 <= i < n implies {
        let v = #[trigger] spec_cbd_sample(seed, nonce, n)[i];
        (0 <= v <= 8) || (qm() - 8 <= v < qm())
    } by {
        lemma_ones_bound(raw[2 * i], 8);
        lemma_ones_bound(raw[2 * i + 1], 8);
        let d = ones(raw[2 * i], 8) - ones(raw[2 * i + 1], 8);
        if d >= 0 {
            lemma_small_mod(d as nat, 12289);
        } else {
            lemma_mod_add_multiples_vanish(d, 12289);
            lemma_small_mod((d + 12289) as nat, 12289);
        }
    }
}

/// Bit `idx` of a byte string, most significant bit first within each byte.
fn bit_at(data: &[u8], idx: usize) -> (r: u8)
    requires
        idx / 8 < data@.len(),
    ensures
        r as int == spec_bit(data@, idx as int),
        r <= 1,
{
    let byte = data[idx / 8];
    let sh = (7 - (idx % 8)) as u8;
    let r = (byte >> sh) & 1;
    assert(r <= 1) by (bit_vector) requires r == (byte >> sh) & 1;
    r
}

/// Popcount of a byte through its bit positions.
proof fn lemma_ones_bound(b: u8, m: nat)
    requires
        m <= 8,
    ensures
        0 <= ones(b, m) <= m,
    decreases m,
{
    if m > 0 {
        lemma_ones_bound(b, (m - 1) as nat);
        let sh = (8 - m) as u8;
        assert((b >> sh) & 1 <= 1) by (bit_vector);
    }
}

/// Counting bits `base .. base + j` of a byte string where `base` starts a byte.
pub proof fn lemma_bit_index(k: int, j: int)
    requires
        0 <= k,
        0 <= j < 8,
    ensures
        (8 * k + j) / 8 == k,
        (8 * k + j) % 8 == j,
{
    lemma_fundamental_div_mod(8 * k + j, 8);
    assert((8 * k + j) / 8 == k && (8 * k + j) % 8 == j) by (nonlinear_arith)
        requires
            0 <= j < 8,
            8 * k + j == 8 * ((8 * k + j) / 8) + (8 * k + j) % 8,
            0 <= (8 * k + j) % 8 < 8;
}

/// Samples a noise polynomial from CBD(eta) using SHAKE-256(seed || nonce):
/// `2*eta` bits per coefficient, MSB-first; the first `eta` bits summed give
/// `a`, the next `eta` bits `b`, and the coefficient is `a - b`.
pub fn cbd_sample<const N: usize>(seed: &[u8], nonce: u8) -> (r: Poly<N>)
    requires
        seed@.len() < usize::MAX,
        N <= 0x0fff_ffff,
    ensures
        r.vals() == spec_cbd_sample(seed@, nonce, N as nat),
{
    let bits_per_coeff = 2 * ETA;
    let total_bits = bits_per_coeff * N;
    let total_bytes = (total_bits + 7) / 8;
    proof {
        assert(total_bytes == 2 * N);
    }
    let mut input = slice_to_vec(seed);
    input.push(nonce);
    let mut raw = shake256(input.as_slice(), total_bytes);
    proof {
        assert(input@ == xof_input(seed@, nonce));
    }
    let p = cbd_from_bytes::<N>(raw.as_slice());
    // the seed copy and the raw noise bytes are secret
    wipe_bytes(input.as_mut_slice());
    wipe_bytes(raw.as_mut_slice());
    p
}

/// The CBD(eta) coefficients that `2n` bytes of XOF output give: bytes
/// `2i` and `2i+1` hold the two `eta`-bit halves of coefficient `i`, and the
/// coefficient is (ones in the first) - (ones in the second), mod q.
pub fn cbd_from_bytes<const N: usize>(raw: &[u8]) -> (r: Poly<N>)
    requires
        raw@.len() == 2 * N,
        N <= 0x0fff_ffff,
    ensures
        r.vals() == spec_cbd_from(raw@, N as nat),
{
    let bits_per_coeff = 2 * ETA;
    let ghost target = spec_cbd_from(raw@, N as nat);
    let mut out = Poly::<N>::zero();
    let mut i: usize = 0;
    while i < N
        invariant
            0 <= i <= N,
            N <= 0x0fff_ffff,
            bits_per_coeff == 16,
            raw@.len() == 2 * N,
            target == spec_cbd_from(raw@, N as nat),
            forall|j: int| 0 <= j < i ==> (#[trigger] out.coeffs@[j]).val() == target[j],
        decreases N - i,
    {
        let base = i * bits_per_coeff;
        let mut a: i32 = 0;
        let mut b: i32 = 0;
        let mut j: usize = 0;
        while j < ETA
            invariant
                0 <= i < N,
                N <= 0x0fff_ffff,
                base == 16 * i,
                raw@.len() == 2 * N,
                0 <= j <= 8,
                a as int == ones(raw@[2 * i], j as nat),
            decreases 8 - j,
        {
            proof {
                lemma_bit_index(2 * i, j as int);
                lemma_ones_bound(raw@[2 * i], j as nat);
                let byte = raw@[2 * i];
                let sh = (7 - j) as u8;
                assert((8 - (j + 1)) as u8 == sh);
            }
            a += bit_at(raw, base + j) as i32;
            j += 1;
        }
        j = 0;
        while j < ETA
            invariant
                0 <= i < N,
                N <= 0x0fff_ffff,
                base == 16 * i,
                raw@.len() == 2 * N,
                0 <= j <= 8,
                b as int == ones(raw@[2 * i + 1], j as nat),
            decreases 8 - j,
        {
            proof {
                lemma_bit_index(2 * i + 1, j as int);
                lemma_ones_bound(raw@[2 * i + 1], j as nat);
                assert(base + ETA + j == 8 * (2 * i + 1) + j);
            }
            b += bit_at(raw, base + ETA + j) as i32;
            j += 1;
        }
        proof {
            lemma_ones_bound(raw@[2 * i], 8);
            lemma_ones_bound(raw@[2 * i + 1], 8);
        }
        // `a - b` is the secret noise coefficient, in [-eta, eta]; add q and
        // reduce with the same masking reduction as the field arithmetic.
        let v = ct_reduce_once((a - b + Q as i32) as u32);
        let fe = FieldElement::from_plain(v);
        proof {
            let d = a as int - b as int;
            lemma_mod_add_multiples_vanish(d, qm());
            lemma_small_mod(v as nat, 12289);
        }
        let ghost before = out.coeffs@;
        out.coeffs.set(i, fe);
        proof {
            assert forall|k: int| 0 <= k < i + 1 implies (#[trigger] out.coeffs@[k]).val() == target[k] by {
                if k < i {
                    assert(before[k].val() == target[k]);
                }
            }
        }
        i += 1;
    }
    assert(out.vals() =~= target);
    out
}

/// The number of SHAKE-256 passes `expand_a` makes at most for dimension
/// `n`: `256 * (n + 1)`. A run that has not filled all `n` coefficients by
/// then never does: some 256 consecutive passes accepted nothing, and then
/// the missing count and the nonce (mod 256) repeat (`lemma_pass_cap_suffices`).
pub open spec fn pass_cap(n: nat) -> nat {
    256 * (n + 1)
}

/// The 16-bit little-endian word at byte offset `i`.
pub open spec fn word_at(raw: Seq<u8>, i: int) -> int {
    raw[i] + 256 * raw[i + 1]
}

/// Rejection sampling over one pass: the 16-bit little-endian words of `raw`
/// from byte `i` on are read in order; a word below `61445 = floor(2^16/q)*q`
/// is accepted and reduced mod q; reading stops once `n` values are held.
pub open spec fn spec_accept(raw: Seq<u8>, i: nat, coeffs: Seq<u16>, n: nat) -> Seq<u16>
    decreases raw.len() - i,
{
    if i + 1 >= raw.len() || coeffs.len() >= n {
        coeffs
    } else if word_at(raw, i as int) < 61445 {
        spec_accept(raw, i + 2, coeffs.push((word_at(raw, i as int) % qm()) as u16), n)
    } else {
        spec_accept(raw, i + 2, coeffs, n)
    }
}

/// Passes of the expansion: each reads `3 * need` bytes of
/// SHAKE-256(seed || nonce), `need` being the number of missing values, and
/// the nonce advances by one (mod 256) per pass.
pub open spec fn spec_expand_from(seed: Seq<u8>, coeffs: Seq<u16>, nonce: u8, n: nat, fuel: nat) -> Seq<u16>
    decreases fuel,
{
    if coeffs.len() >= n || fuel == 0 {
        coeffs
    } else {
        let need = (n - coeffs.len()) as nat;
        let raw = spec_shake256(xof_input(seed, nonce), 3 * need);
        spec_expand_from(seed, spec_accept(raw, 0, coeffs, n), ((nonce + 1) % 256) as u8, n, (fuel - 1) as nat)
    }
}

/// The public polynomial a(x) for `seed`: the accepted values in order. Only
/// for a seed whose sampling never ends are values missing; they are 0.
pub open spec fn spec_expand_a(seed: Seq<u8>, n: nat) -> Seq<int> {
    let c = spec_expand_from(seed, Seq::empty(), 0, n, pass_cap(n));
    Seq::new(n, |i: int| if i < c.len() { c[i] as int } else { 0 })
}

proof fn lemma_accept_facts(raw: Seq<u8>, i: nat, coeffs: Seq<u16>, n: nat)
    requires
        coeffs.len() <= n,
        forall|k: int| 0 <= k < coeffs.len() ==> (#[trigger] coeffs[k] as int) < qm(),
    ensures
        spec_accept(raw, i, coeffs, n).len() <= n,
        spec_accept(raw, i, coeffs, n).len() >= coeffs.len(),
        forall|k: int| 0 <= k < spec_accept(raw, i, coeffs, n).len() ==> (#[trigger] spec_accept(raw, i, coeffs, n)[k] as int) < qm(),
    decreases raw.len() - i,
{
    if i + 1 >= raw.len() || coeffs.len() >= n {
    } else if word_at(raw, i as int) < 61445 {
        let c2 = coeffs.push((word_at(raw, i as int) % qm()) as u16);
        assert forall|k: int| 0 <= k < c2.len() implies (#[trigger] c2[k] as int) < qm() by {
            if k < coeffs.len() {
                assert(c2[k] == coeffs[k]);
            }
        }
        lemma_accept_facts(raw, i + 2, c2, n);
    } else {
        lemma_accept_facts(raw, i + 2, coeffs, n);
    }
}

proof fn lemma_expand_facts(seed: Seq<u8>, coeffs: Seq<u16>, nonce: u8, n: nat, fuel: nat)
    requires
        coeffs.len() <= n,
        forall|k: int| 0 <= k < coeffs.len() ==> (#[trigger] coeffs[k] as int) < qm(),
    ensures
        spec_expand_from(seed, coeffs, nonce, n, fuel).len() <= n,
        forall|k: int| 0 <= k < spec_expand_from(seed, coeffs, nonce, n, fuel).len() ==> (#[trigger] spec_expand_from(seed, coeffs, nonce, n, fuel)[k] as int) < qm(),
    decreases fuel,
{
    if coeffs.len() >= n || fuel == 0 {
    } else {
        let need = (n - coeffs.len()) as nat;
        let raw = spec_shake256(xof_input(seed, nonce), 3 * need);
        lemma_accept_facts(raw, 0, coeffs, n);
        lemma_expand_facts(seed, spec_accept(raw, 0, coeffs, n), ((nonce + 1) % 256) as u8, n, (fuel - 1) as nat);
    }
}

/// The nonce `j` passes after `nonce`.
pub open spec fn nonce_after(nonce: u8, j: int) -> u8 {
    ((nonce + j) % 256) as u8
}

/// The values held after one pass from `coeffs` with `nonce`.
pub open spec fn pass_result(seed: Seq<u8>, coeffs: Seq<u16>, nonce: u8, n: nat) -> Seq<u16> {
    spec_accept(spec_shake256(xof_input(seed, nonce), 3 * ((n - coeffs.len()) as nat)), 0, coeffs, n)
}

/// A pass only appends to what is held.
proof fn lemma_accept_prefix(raw: Seq<u8>, i: nat, coeffs: Seq<u16>, n: nat)
    ensures
        spec_accept(raw, i, coeffs, n).len() >= coeffs.len(),
        spec_accept(raw, i, coeffs, n).subrange(0, coeffs.len() as int) == coeffs,
    decreases raw.len() - i,
{
    if i + 1 >= raw.len() || coeffs.len() >= n {
        assert(coeffs.subrange(0, coeffs.len() as int) =~= coeffs);
    } else {
        let c2 = if word_at(raw, i as int) < 61445 { coeffs.push((word_at(raw, i as int) % qm()) as u16) } else { coeffs };
        lemma_accept_prefix(raw, i + 2, c2, n);
        let r = spec_accept(raw, i, coeffs, n);
        assert(r.subrange(0, c2.len() as int).subrange(0, coeffs.len() as int) =~= r.subrange(0, coeffs.len() as int));
        assert(c2.subrange(0, coeffs.len() as int) =~= coeffs);
    }
}

/// Once all values are held, more passes change nothing.
proof fn lemma_expand_more_fuel(seed: Seq<u8>, c: Seq<u16>, nonce: u8, n: nat, f: nat, f2: nat)
    requires
        spec_expand_from(seed, c, nonce, n, f).len() >= n,
        f <= f2,
    ensures
        spec_expand_from(seed, c, nonce, n, f2) == spec_expand_from(seed, c, nonce, n, f),
    decreases f,
{
    if c.len() < n {
        assert(f > 0);
        lemma_expand_more_fuel(seed, pass_result(seed, c, nonce, n), nonce_after(nonce, 1), n, (f - 1) as nat, (f2 - 1) as nat);
    }
}

/// `j` passes that accept nothing only advance the nonce.
proof fn lemma_idle_passes(seed: Seq<u8>, c: Seq<u16>, nonce: u8, n: nat, f: nat, j: nat)
    requires
        c.len() < n,
        j <= f,
        forall|i: int| 0 <= i < j ==> #[trigger] pass_result(seed, c, nonce_after(nonce, i), n) == c,
    ensures
        spec_expand_from(seed, c, nonce, n, f) == spec_expand_from(seed, c, nonce_after(nonce, j as int), n, (f - j) as nat),
    decreases j,
{
    if j == 0 {
        assert(nonce_after(nonce, 0) == nonce);
    } else {
        let k = (j - 1) as nat;
        lemma_idle_passes(seed, c, nonce, n, f, k);
        assert(pass_result(seed, c, nonce_after(nonce, k as int), n) == c);
        assert(nonce_after(nonce_after(nonce, k as int), 1) == nonce_after(nonce, j as int));
    }
}

/// 256 passes in a row that accept nothing repeat forever: the run never
/// fills all `n` values.
proof fn lemma_idle_cycle(seed: Seq<u8>, c: Seq<u16>, nonce: u8, n: nat, f: nat)
    requires
        c.len() < n,
        forall|i: int| 0 <= i < 256 ==> #[trigger] pass_result(seed, c, nonce_after(nonce, i), n) == c,
    ensures
        spec_expand_from(seed, c, nonce, n, f).len() < n,
    decreases f,
{
    if f <= 256 {
        assert forall|i: int| 0 <= i < f implies #[trigger] pass_result(seed, c, nonce_after(nonce, i), n) == c by {}
        lemma_idle_passes(seed, c, nonce, n, f, f);
    } else {
        lemma_idle_passes(seed, c, nonce, n, f, 256);
        assert(nonce_after(nonce, 256) == nonce);
        lemma_idle_cycle(seed, c, nonce, n, (f - 256) as nat);
    }
}

/// A run from `c` that fills all `n` values does so within `256` passes per
/// missing value. `j` passes from `nonce` are known to have accepted nothing.
proof fn lemma_fills_within(seed: Seq<u8>, c: Seq<u16>, nonce: u8, n: nat, f: nat, j: nat)
    requires
        c.len() <= n,
        j <= 256,
        spec_expand_from(seed, c, nonce, n, f).len() >= n,
        forall|i: int| 0 <= i < j ==> #[trigger] pass_result(seed, c, nonce_after(nonce, i), n) == c,
    ensures
        spec_expand_from(seed, c, nonce, n, (256 * (n - c.len())) as nat).len() >= n,
    decreases n - c.len(), 256 - j,
{
    if c.len() < n {
        if j == 256 {
            lemma_idle_cycle(seed, c, nonce, n, f);
        } else if pass_result(seed, c, nonce_after(nonce, j as int), n) == c {
            assert forall|i: int| 0 <= i < j + 1 implies #[trigger] pass_result(seed, c, nonce_after(nonce, i), n) == c by {}
            lemma_fills_within(seed, c, nonce, n, f, j + 1);
        } else {
            // pass j accepts something
            let m = (n - c.len()) as nat;
            if f <= j {
                lemma_idle_passes(seed, c, nonce, n, f, f);
                assert(false);
            }
            lemma_idle_passes(seed, c, nonce, n, f, j);
            let nj = nonce_after(nonce, j as int);
            let raw = spec_shake256(xof_input(seed, nj), 3 * m);
            let c2 = pass_result(seed, c, nj, n);
            lemma_accept_prefix(raw, 0, c, n);
            lemma_accept_facts_len(raw, 0, c, n);
            assert(c2.len() > c.len()) by {
                if c2.len() == c.len() {
                    assert(c2 =~= c2.subrange(0, c.len() as int));
                }
            }
            assert(nonce_after(nj, 1) == nonce_after(nonce, (j + 1) as int));
            lemma_fills_within(seed, c2, nonce_after(nj, 1), n, (f - j - 1) as nat, 0);
            let g = (256 * m) as nat;
            let m2 = (n - c2.len()) as nat;
            lemma_idle_passes(seed, c, nonce, n, g, j);
            assert(256 * m2 <= g - j - 1) by (nonlinear_arith)
                requires m2 < m, j < 256, g == 256 * m;
            lemma_expand_more_fuel(seed, c2, nonce_after(nj, 1), n, (256 * m2) as nat, (g - j - 1) as nat);
        }
    }
}

/// Values held never exceed `n`.
proof fn lemma_accept_facts_len(raw: Seq<u8>, i: nat, coeffs: Seq<u16>, n: nat)
    requires
        coeffs.len() <= n,
    ensures
        spec_accept(raw, i, coeffs, n).len() <= n,
    decreases raw.len() - i,
{
    if i + 1 >= raw.len() || coeffs.len() >= n {
    } else if word_at(raw, i as int) < 61445 {
        lemma_accept_facts_len(raw, i + 2, coeffs.push((word_at(raw, i as int) % qm()) as u16), n);
    } else {
        lemma_accept_facts_len(raw, i + 2, coeffs, n);
    }
}

/// The pass cap loses nothing: whenever sampling with any number of passes
/// fills all `n` values, sampling with `pass_cap(n)` passes gives the same
/// values.
pub proof fn lemma_pass_cap_suffices(seed: Seq<u8>, n: nat, f: nat)
    requires
        spec_expand_from(seed, Seq::empty(), 0, n, f).len() >= n,
    ensures
        spec_expand_from(seed, Seq::empty(), 0, n, pass_cap(n)) == spec_expand_from(seed, Seq::empty(), 0, n, f),
{
    let e = Seq::<u16>::empty();
    lemma_fills_within(seed, e, 0, n, f, 0);
    let g = (256 * n) as nat;
    lemma_expand_more_fuel(seed, e, 0, n, g, pass_cap(n));
    if f <= g {
        lemma_expand_more_fuel(seed, e, 0, n, f, g);
    } else {
        lemma_expand_more_fuel(seed, e, 0, n, g, f);
    }
}

/// One pass of rejection sampling over XOF output `raw`: its 16-bit
/// little-endian words are read in order; a word below
/// `61445 = floor(2^16/q)*q` is accepted and appended reduced mod q, until
/// `n` values are held.
pub fn accept_words(raw: &[u8], coeffs: &mut Vec<u16>, n: usize)
    requires
        old(coeffs)@.len() <= n,
    ensures
        final(coeffs)@ == spec_accept(raw@, 0, old(coeffs)@, n as nat),
{
    let q = Q as usize;
    let limit = (65536 / q) * q; // = 61445 for q = 12289
    let ghost start = coeffs@;
    if coeffs.len() >= n {
        return;
    }
    let mut i: usize = 0;
    while raw.len() - i > 1
        invariant_except_break
            coeffs@.len() < n,
            spec_accept(raw@, i as nat, coeffs@, n as nat) == spec_accept(raw@, 0, start, n as nat),
        invariant
            q == 12289,
            limit == 61445,
            i <= raw@.len(),
            coeffs@.len() <= n,
        ensures
            coeffs@ == spec_accept(raw@, 0, start, n as nat),
        decreases raw@.len() - i,
    {
        let val = (raw[i] as usize) + (raw[i + 1] as usize) * 256;
        proof {
            assert(val == word_at(raw@, i as int));
        }
        if val < limit {
            coeffs.push((val % q) as u16);
            if coeffs.len() == n {
                proof {
                    assert(spec_accept(raw@, (i + 2) as nat, coeffs@, n as nat) == coeffs@);
                }
                break;
            }
        }
        i += 2;
    }
}

/// The 16-bit little-endian words of a byte string, in order (a trailing
/// odd byte is no word).
pub open spec fn le_words(raw: Seq<u8>) -> Seq<int> {
    Seq::new((raw.len() / 2) as nat, |t: int| raw[2 * t] + 256 * raw[2 * t + 1])
}

/// A word is accepted when it is below `floor(2^16 / q) * q = 61445`.
pub open spec fn word_below_limit() -> spec_fn(int) -> bool {
    |w: int| w < 61445
}

/// One pass, read against the words it sees: from word `t` on, the values
/// held are those already held followed by the accepted words (mod q),
/// cut off at `n`.
proof fn lemma_accept_words(raw: Seq<u8>, t: nat, c: Seq<u16>, n: nat)
    requires
        c.len() <= n,
        t <= le_words(raw).len(),
    ensures
        ({
            let r = spec_accept(raw, 2 * t, c, n);
            let rest = le_words(raw).subrange(t as int, le_words(raw).len() as int).filter(word_below_limit());
            &&& r.len() == if c.len() + rest.len() < n { (c.len() + rest.len()) as int } else { n as int }
            &&& forall|j: int| 0 <= j < r.len() ==> #[trigger] r[j] as int
                == if j < c.len() { c[j] as int } else { rest[j - c.len()] % 12289 }
        }),
    decreases le_words(raw).len() - t,
{
    let ws = le_words(raw);
    let wl = ws.len() as int;
    let p = word_below_limit();
    let rest = ws.subrange(t as int, wl).filter(p);
    reveal(Seq::filter);
    if 2 * t + 1 >= raw.len() {
        assert(t == wl);
        assert(ws.subrange(t as int, wl) =~= Seq::<int>::empty());
        assert(rest =~= Seq::<int>::empty());
    } else if c.len() >= n {
    } else {
        assert(t < wl);
        let w = ws[t as int];
        assert(word_at(raw, (2 * t) as int) == w);
        let tail = ws.subrange(t + 1int, wl);
        assert(ws.subrange(t as int, wl) =~= seq![w] + tail);
        Seq::filter_distributes_over_add(seq![w], tail, p);
        let rest1 = tail.filter(p);
        assert(seq![w].drop_last() =~= Seq::<int>::empty());
        if w < 61445 {
            assert(seq![w].filter(p) =~= seq![w]);
            assert(rest =~= seq![w] + rest1);
            let c2 = c.push((w % qm()) as u16);
            lemma_accept_words(raw, t + 1, c2, n);
            assert(2 * (t + 1) == 2 * t + 2);
        } else {
            assert(!p(w));
            assert(Seq::<int>::empty().filter(p) =~= Seq::<int>::empty());
            assert(seq![w].filter(p) =~= Seq::<int>::empty());
            assert(rest =~= rest1);
            lemma_accept_words(raw, t + 1, c, n);
            assert(2 * (t + 1) == 2 * t + 2);
        }
    }
}

/// When the first `3n` bytes of SHAKE-256(seed || 0) hold at least `n`
/// accepted words, `a(x)` is made of the first `n` of them, each mod q: one
/// pass of three bytes per coefficient, read in order.
pub proof fn lemma_expand_a_first_pass(seed: Seq<u8>, n: nat)
    requires
        le_words(spec_shake256(seed.push(0u8), 3 * n)).filter(word_below_limit()).len() >= n,
    ensures
        spec_expand_a(seed, n).len() == n,
        forall|i: int| 0 <= i < n ==> #[trigger] spec_expand_a(seed, n)[i]
            == le_words(spec_shake256(seed.push(0u8), 3 * n)).filter(word_below_limit())[i] % 12289,
{
    let raw = spec_shake256(seed.push(0u8), 3 * n);
    let ws = le_words(raw);
    let acc = ws.filter(word_below_limit());
    let e = Seq::<u16>::empty();
    if n > 0 {
        assert(xof_input(seed, 0) == seed.push(0u8));
        assert(ws.subrange(0, ws.len() as int) =~= ws);
        lemma_accept_words(raw, 0, e, n);
        let c1 = spec_accept(raw, 0, e, n);
        assert(c1.len() == n);
        let cap = pass_cap(n);
        assert(cap > 0);
        assert(spec_expand_from(seed, e, 0, n, cap) == spec_expand_from(seed, c1, ((0 + 1) % 256) as u8, n, (cap - 1) as nat));
        assert(spec_expand_from(seed, c1, ((0 + 1) % 256) as u8, n, (cap - 1) as nat) == c1);
        assert forall|i: int| 0 <= i < n implies #[trigger] spec_expand_a(seed, n)[i] == acc[i] % 12289 by {
            assert(c1[i] as int == acc[i] % 12289);
        }
    }
}

/// Uniformly samples the public polynomial a(x) from a seed using
/// NewHope-style rejection sampling: SHAKE-256(seed || nonce) is read in
/// 16-bit little-endian words; a word is accepted only if it is below
/// `floor(65536/q)*q`, then reduced mod q. Each pass requests three bytes per
/// missing coefficient.
pub fn expand_a<const N: usize>(seed: &[u8]) -> (r: Poly<N>)
    requires
        seed@.len() < usize::MAX,
        N <= 0x0fff_ffff,
    ensures
        r.vals() == spec_expand_a(seed@, N as nat),
{
    let q = Q as usize;
    let limit = (65536 / q) * q; // = 61445 for q = 12289
    let mut coeffs: Vec<u16> = Vec::with_capacity(N);
    let mut nonce: u8 = 0;
    let mut passes: u64 = 0;
    let cap: u64 = 256 * (N as u64 + 1);
    let ghost result = spec_expand_from(seed@, Seq::empty(), 0, N as nat, pass_cap(N as nat));
    proof {
        assert(coeffs@ =~= Seq::<u16>::empty());
    }

    while coeffs.len() < N && passes < cap
        invariant
            N <= 0x0fff_ffff,
            cap == pass_cap(N as nat),
            q == 12289,
            limit == 61445,
            passes <= cap,
            coeffs@.len() <= N,
            seed@.len() < usize::MAX,
            forall|k: int| 0 <= k < coeffs@.len() ==> (#[trigger] coeffs@[k] as int) < qm(),
            spec_expand_from(seed@, coeffs@, nonce, N as nat, (cap - passes) as nat) == result,
        decreases cap - passes,
    {
        let need = N - coeffs.len();
        let mut input = slice_to_vec(seed);
        input.push(nonce);
        proof {
            assert(input@ == xof_input(seed@, nonce));
        }
        let raw = shake256(input.as_slice(), need * 3);
        let ghost start = coeffs@;
        let ghost old_nonce = nonce;
        nonce = nonce.wrapping_add(1);
        proof {
            assert(3 * (need as nat) == need * 3);
        }

        accept_words(raw.as_slice(), &mut coeffs, N);
        proof {
            lemma_accept_facts(raw@, 0, start, N as nat);
            let fuel = (cap - passes) as nat;
            assert(spec_expand_from(seed@, start, old_nonce, N as nat, fuel)
                == spec_expand_from(seed@, spec_accept(raw@, 0, start, N as nat), ((old_nonce + 1) % 256) as u8, N as nat, (fuel - 1) as nat));
        }
        passes += 1;
    }
    proof {
        lemma_expand_facts(seed@, Seq::empty(), 0, N as nat, pass_cap(N as nat));
        assert(coeffs@ == result);
    }

    let mut out = Poly::<N>::zero();
    let mut i: usize = 0;
    while i < N
        invariant
            0 <= i <= N,
            result == spec_expand_from(seed@, Seq::empty(), 0, N as nat, pass_cap(N as nat)),
            coeffs@ == result,
            result.len() <= N,
            forall|k: int| 0 <= k < result.len() ==> (#[trigger] result[k] as int) < qm(),
            forall|j: int| 0 <= j < i ==> (#[trigger] out.coeffs@[j]).val() == spec_expand_a(seed@, N as nat)[j],
        decreases N - i,
    {
        let v: u16 = if i < coeffs.len() { coeffs[i] } else { 0 };
        let fe = FieldElement::from_plain(v);
        proof {
            lemma_small_mod(v as nat, 12289);
        }
        let ghost before = out.coeffs@;
        out.coeffs.set(i, fe);
        proof {
            assert forall|k: int| 0 <= k < i + 1 implies (#[trigger] out.coeffs@[k]).val() == spec_expand_a(seed@, N as nat)[k] by {
                if k < i {
                    assert(before[k].val() == spec_expand_a(seed@, N as nat)[k]);
                }
            }
        }
        i += 1;
    }
    assert(out.vals() =~= spec_expand_a(seed@, N as nat));
    out
}

/// The little-endian byte encoding of a coefficient sequence: two bytes per
/// coefficient, low byte first.
pub open spec fn spec_encode_poly(v: Seq<int>) -> Seq<u8> {
    Seq::new(2 * v.len(), |k: int| if k % 2 == 0 { (v[k / 2] % 256) as u8 } else { (v[k / 2] / 256) as u8 })
}

/// The coefficients read back from `2n` little-endian bytes, each reduced mod q.
pub open spec fn spec_decode_poly(data: Seq<u8>, n: nat) -> Seq<int> {
    Seq::new(n, |i: int| (data[2 * i] + 256 * data[2 * i + 1]) % qm())
}

/// Packing is little-endian: for coefficients in `[0, 2^16)`, byte `2i` is
/// the low byte of coefficient `i` and byte `2i + 1` its high byte.
pub proof fn lemma_encode_poly_layout(v: Seq<int>)
    requires
        forall|i: int| 0 <= i < v.len() ==> 0 <= #[trigger] v[i] < 0x10000,
    ensures
        spec_encode_poly(v).len() == 2 * v.len(),
        forall|i: int| 0 <= i < v.len() ==> spec_encode_poly(v)[2 * i] + 256 * spec_encode_poly(v)[2 * i + 1] == #[trigger] v[i],
{
    let e = spec_encode_poly(v);
    assert forall|i: int| 0 <= i < v.len() implies e[2 * i] + 256 * e[2 * i + 1] == #[trigger] v[i] by {
        assert((2 * i) % 2 == 0 && (2 * i) / 2 == i);
        assert((2 * i + 1) % 2 == 1 && (2 * i + 1) / 2 == i);
        let x = v[i];
        lemma_fundamental_div_mod(x, 256);
        assert(x / 256 < 256) by {
            lemma_multiply_divide_lt(x, 256, 256);
        }
        assert(e[2 * i] == (x % 256) as u8);
        assert(e[2 * i + 1] == (x / 256) as u8);
    }
}

/// Decoding an encoding gives the coefficients back, for residues in `[0, q)`.
pub proof fn lemma_encode_decode_poly(v: Seq<int>)
    requires
        forall|i: int| 0 <= i < v.len() ==> 0 <= #[trigger] v[i] < qm(),
    ensures
        spec_decode_poly(spec_encode_poly(v), v.len()) == v,
{
    let e = spec_encode_poly(v);
    assert forall|i: int| 0 <= i < v.len() implies #[trigger] spec_decode_poly(e, v.len())[i] == v[i] by {
        assert((2 * i) % 2 == 0 && (2 * i) / 2 == i);
        assert((2 * i + 1) % 2 == 1 && (2 * i + 1) / 2 == i);
        let x = v[i];
        assert(e[2 * i] == (x % 256) as u8);
        assert(e[2 * i + 1] == (x / 256) as u8);
        assert((x % 256) + 256 * (x / 256) == x) by {
            lemma_fundamental_div_mod(x, 256);
        }
        assert(x / 256 < 256) by {
            lemma_div_is_ordered(x, 65535, 256);
        }
        lemma_small_mod(x as nat, 12289);
    }
    assert(spec_decode_poly(e, v.len()) =~= v);
}

/// Writes the encoding of `p` to `out[off .. off + 2N]`, leaving the rest of `out` as it was.
pub fn encode_poly_at<const N: usize>(p: &Poly<N>, out: &mut [u8], off: usize)
    requires
        off + 2 * N <= old(out)@.len(),
    ensures
        final(out)@.len() == old(out)@.len(),
        final(out)@.subrange(off as int, off + 2 * N) == spec_encode_poly(p.vals()),
        forall|k: int| 0 <= k < old(out)@.len() && !(off <= k < off + 2 * N) ==> #[trigger] final(out)@[k] == old(out)@[k],
{
    let ghost orig = out@;
    let ghost enc = spec_encode_poly(p.vals());
    let len = out.len();
    let mut i: usize = 0;
    while i < N
        invariant
            0 <= i <= N,
            len == orig.len(),
            off + 2 * N <= orig.len(),
            out@.len() == orig.len(),
            enc == spec_encode_poly(p.vals()),
            enc.len() == 2 * N,
            forall|k: int| 0 <= k < 2 * i ==> #[trigger] out@[off + k] == enc[k],
            forall|k: int| 0 <= k < orig.len() && !(off <= k < off + 2 * i) ==> #[trigger] out@[k] == orig[k],
        decreases N - i,
    {
        let v = p.coeffs[i].to_plain();
        let lo = (v & 0xFF) as u8;
        let hi = (v >> 8) as u8;
        proof {
            assert(lo == (v % 256) as u8 && hi == (v / 256) as u8) by (bit_vector)
                requires lo == (v & 0xFF) as u8, hi == (v >> 8) as u8;
            assert((2 * i as int) % 2 == 0 && (2 * i as int) / 2 == i);
            assert((2 * i as int + 1) % 2 == 1 && (2 * i as int + 1) / 2 == i);
            assert(p.vals()[i as int] == v as int);
        }
        out[off + 2 * i] = lo;
        out[off + 2 * i + 1] = hi;
        i += 1;
    }
    assert forall|k: int| 0 <= k < 2 * N implies #[trigger] out@.subrange(off as int, off + 2 * N)[k] == enc[k] by {
        assert(out@[off + k] == enc[k]);
    }
    assert(out@.subrange(off as int, off + 2 * N) =~= enc);
}

/// Packs a polynomial into `2*N` bytes, little-endian per coefficient.
/// Writes into `out`, which must be exactly `2*N` bytes.
pub fn encode_poly<const N: usize>(p: &Poly<N>, out: &mut [u8])
    requires
        old(out)@.len() == 2 * N,
    ensures
        final(out)@ == spec_encode_poly(p.vals()),
{
    encode_poly_at(p, out, 0);
    assert(out@ =~= out@.subrange(0, 2 * N));
}

/// Reads a polynomial from `data[off .. off + 2N]`; coefficients at or above q are reduced mod q.
pub fn decode_poly_at<const N: usize>(data: &[u8], off: usize) -> (r: Poly<N>)
    requires
        off + 2 * N <= data@.len(),
    ensures
        r.vals() == spec_decode_poly(data@.subrange(off as int, off + 2 * N), N as nat),
{
    let ghost d = data@.subrange(off as int, off + 2 * N);
    let len = data.len();
    let mut out = Poly::<N>::zero();
    let mut i: usize = 0;
    while i < N
        invariant
            0 <= i <= N,
            len == data@.len(),
            off + 2 * N <= data@.len(),
            d == data@.subrange(off as int, off + 2 * N),
            forall|j: int| 0 <= j < i ==> (#[trigger] out.coeffs@[j]).val() == spec_decode_poly(d, N as nat)[j],
        decreases N - i,
    {
        let lo = data[off + 2 * i];
        let hi = data[off + 2 * i + 1];
        let v = (lo as u16) | ((hi as u16) << 8);
        proof {
            assert(v == lo + 256 * hi) by (bit_vector)
                requires v == (lo as u16) | ((hi as u16) << 8);
            assert(d[2 * i as int] == lo && d[2 * i + 1] == hi);
        }
        let fe = FieldElement::from_plain(v);
        let ghost before = out.coeffs@;
        out.coeffs.set(i, fe);
        proof {
            assert forall|k: int| 0 <= k < i + 1 implies (#[trigger] out.coeffs@[k]).val() == spec_decode_poly(d, N as nat)[k] by {
                if k < i {
                    assert(before[k].val() == spec_decode_poly(d, N as nat)[k]);
                }
            }
        }
        i += 1;
    }
    assert(out.vals() =~= spec_decode_poly(d, N as nat));
    out
}

/// Inverse of `encode_poly`. Reads `2*N` bytes.
pub fn decode_poly<const N: usize>(data: &[u8]) -> (r: Poly<N>)
    requires
        data@.len() >= 2 * N,
    ensures
        r.vals() == spec_decode_poly(data@, N as nat),
{
    let r = decode_poly_at(data, 0);
    proof {
        let d = data@.subrange(0, 2 * N);
        assert forall|i: int| 0 <= i < N implies #[trigger] spec_decode_poly(d, N as nat)[i] == spec_decode_poly(data@, N as nat)[i] by {
            assert(d[2 * i] == data@[2 * i] && d[2 * i + 1] == data@[2 * i + 1]);
        }
        assert(spec_decode_poly(d, N as nat) =~= spec_decode_poly(data@, N as nat));
    }
    r
}

} // verus!
