//! RE-KEM: Ring-LWE Key Encapsulation Mechanism with the Fujisaki-Okamoto transform.
//!
//! Hash usage:
//!   H(pk)   = SHA3-256(pk)
//!   G(m||H) = SHA3-512(m || H(pk))          -> (k_bar, coins)
//!   H(c)    = SHA3-256(ciphertext)
//!   KDF     = SHAKE-256(k_bar || H(c))      -> 32-byte shared secret
//!
//! The KEM is generic over the ring dimension `N` and the three byte lengths
//! derived from it: `PK = 32 + 2N`, `SK = 2N + PK + 64`, `CT = 4N`.

use vstd::prelude::*;
use vstd::arithmetic::div_mod::*;
use vstd::arithmetic::mul::*;
use vstd::arithmetic::power::*;
use vstd::slice::{slice_subrange, slice_to_vec};

use crate::api::KemError;
use crate::crypto::{ct_eq_bytes, fill_random, sha3_256, sha3_512, shake256, spec_sha3_256, spec_sha3_512, spec_shake256, wipe_bytes};
use crate::field::{FieldElement, Q};
use crate::ntt::{NttContext, Poly};
use crate::ntt_math::{is_pow2, qm, spec_psi};
use crate::ring::{cong, eval, lemma_cong_add, lemma_cong_mul, lemma_cong_sub, lemma_eval_injective, lemma_eval_padd, lemma_eval_product, lemma_eval_psub, lemma_odd_power_root, neg_mul, padd, psub};
use crate::sampling::{lemma_bit_index, lemma_encode_decode_poly, cbd_sample, decode_poly, decode_poly_at, encode_poly_at, expand_a, spec_bit, spec_cbd_sample, spec_decode_poly, spec_encode_poly, spec_expand_a};

verus! {

/// Seed length in bytes (identical for both parameter sets).
pub const SEED_LEN: usize = 32;
/// Encoded polynomial length at `n = 512`: 2 bytes per coefficient.
pub const POLY_LEN: usize = 1024;
/// Public key at `n = 512`: `seed_a || b(x)`.
pub const PK_LEN: usize = 1056;
/// Secret key at `n = 512`: `s(x) || pk || H(pk) || z`.
pub const SK_LEN: usize = 2144;
/// Ciphertext at `n = 512`: `u(x) || v(x)`.
pub const CT_LEN: usize = 2048;
/// Shared secret length in bytes.
pub const SS_LEN: usize = 32;
/// Public key length at `n = 1024`.
pub const PK_LEN_1024: usize = 2080;
/// Secret key length at `n = 1024`.
pub const SK_LEN_1024: usize = 4192;
/// Ciphertext length at `n = 1024`.
pub const CT_LEN_1024: usize = 4096;

/// Amplitude of a 1-bit in the message encoding: `q / 2`.
pub open spec fn half_q() -> int {
    6144
}

/// The message polynomial: bit `i` (MSB-first) of the 32-byte message sits at
/// coefficient `i` with amplitude `q/2`; coefficients from 256 on are zero.
pub open spec fn spec_msg_to_poly(msg: Seq<u8>, n: nat) -> Seq<int> {
    Seq::new(n, |i: int| if i < 256 { half_q() * spec_bit(msg, i) } else { 0 })
}

/// The bit a coefficient `v` in `[0, q)` decodes to: 1 iff its centred
/// magnitude exceeds `q/4 = 3072`.
pub open spec fn decode_bit(v: int) -> int {
    let centred_abs = if v > half_q() { qm() - v } else { v };
    if centred_abs > 3072 { 1 } else { 0 }
}

/// Bit `idx` (MSB-first) of a 32-byte message.
pub fn msg_bit(msg: &[u8; SEED_LEN], idx: usize) -> (r: u8)
    requires
        idx < 256,
    ensures
        r as int == spec_bit(msg@, idx as int),
        r <= 1,
{
    let byte = msg[idx / 8];
    let sh = (7 - (idx % 8)) as u8;
    let r = (byte >> sh) & 1;
    assert(r <= 1) by (bit_vector) requires r == (byte >> sh) & 1;
    r
}

/// Embeds the 256 message bits into a polynomial with amplitude q/2.
/// Branchless: the coefficient is `half * bit`.
pub fn msg_to_poly<const N: usize>(msg: &[u8; SEED_LEN]) -> (r: Poly<N>)
    requires
        256 <= N,
    ensures
        r.vals() == spec_msg_to_poly(msg@, N as nat),
{
    let half = (Q / 2) as u16;
    let mut p = Poly::<N>::zero();
    let mut i: usize = 0;
    assert forall|j: int| 0 <= j < N implies (#[trigger] p.coeffs@[j]).val() == 0 by {
        assert(p.vals()[j] == 0);
    }
    while i < SEED_LEN * 8
        invariant
            256 <= N,
            0 <= i <= 256,
            half == 6144,
            forall|j: int| 0 <= j < i ==> (#[trigger] p.coeffs@[j]).val() == spec_msg_to_poly(msg@, N as nat)[j],
            forall|j: int| i <= j < N ==> (#[trigger] p.coeffs@[j]).val() == 0,
        decreases 256 - i,
    {
        let bit = msg_bit(msg, i) as u16; // 0 or 1
        let v = half.wrapping_mul(bit);
        let fe = FieldElement::from_plain(v);
        proof {
            assert(v == 6144 * bit);
            lemma_small_mod(v as nat, 12289);
        }
        let ghost before = p.coeffs@;
        p.coeffs.set(i, fe);
        proof {
            assert forall|j: int| 0 <= j < i + 1 implies (#[trigger] p.coeffs@[j]).val() == spec_msg_to_poly(msg@, N as nat)[j] by {
                if j < i {
                    assert(before[j].val() == spec_msg_to_poly(msg@, N as nat)[j]);
                }
            }
            assert forall|j: int| i + 1 <= j < N implies (#[trigger] p.coeffs@[j]).val() == 0 by {
                assert(before[j].val() == 0);
            }
        }
        i += 1;
    }
    proof {
        assert forall|j: int| 0 <= j < N implies (#[trigger] p.vals()[j]) == spec_msg_to_poly(msg@, N as nat)[j] by {
            if j >= 256 {
                assert(p.coeffs@[j].val() == 0);
            } else {
                assert(p.coeffs@[j].val() == spec_msg_to_poly(msg@, N as nat)[j]);
            }
        }
    }
    assert(p.vals() =~= spec_msg_to_poly(msg@, N as nat));
    p
}

/// The branchless decision for one coefficient `v` in `[0, q)`: recentre,
/// take the absolute value, compare with `q/4`, all with sign masks.
fn decode_coeff(v: i32) -> (bit: u8)
    requires
        0 <= v < 12289,
    ensures
        bit as int == decode_bit(v as int),
{
    let half_q: i32 = 6144;
    let quarter_q: i32 = 3072;
    let q: i32 = 12289;
    // recentre: centred = v - q if v > half_q, else v
    let d1 = half_q - v;
    let mask = d1 >> 31;
    let qm_ = q & mask;
    proof {
        assert(qm_ == 0 || qm_ == 12289) by (bit_vector)
            requires d1 == 6144 - v, 0 <= v < 12289, mask == d1 >> 31, qm_ == 12289 & mask;
    }
    let centred = v - qm_;
    // branchless abs: abs(x) = (x + sign) ^ sign, sign = x >> 31
    let sign = centred >> 31;
    proof {
        assert(-12289 < centred < 12289 && (sign == 0 || sign == -1)) by (bit_vector)
            requires
                0 <= v < 12289,
                d1 == 6144 - v,
                mask == d1 >> 31,
                qm_ == 12289 & mask,
                centred == v - qm_,
                sign == centred >> 31,
        ;
    }
    let t = centred + sign;
    let abs = t ^ sign;
    proof {
        assert(0 <= abs < 12289) by (bit_vector)
            requires
                0 <= v < 12289,
                d1 == 6144 - v,
                mask == d1 >> 31,
                qm_ == 12289 & mask,
                centred == v - qm_,
                sign == centred >> 31,
                t == centred + sign,
                abs == t ^ sign,
        ;
    }
    // bit = 1 iff abs > quarter_q
    let d2 = quarter_q - abs;
    let bit = ((d2 >> 31) & 1) as u8;
    proof {
        assert(bit == (if 3072 < v && v < 9217 { 1u8 } else { 0u8 })) by (bit_vector)
            requires
                0 <= v < 12289,
                d1 == 6144 - v,
                mask == d1 >> 31,
                qm_ == 12289 & mask,
                centred == v - qm_,
                sign == centred >> 31,
                t == centred + sign,
                abs == t ^ sign,
                d2 == 3072 - abs,
                bit == ((d2 >> 31) & 1) as u8,
        ;
    }
    bit
}

/// Setting one bit of a byte with `|=` changes that bit alone.
proof fn lemma_or_bit(old_byte: u8, b: u8, sh: u8, s2: u8)
    requires
        b <= 1,
        sh < 8,
        s2 < 8,
    ensures
        ((old_byte | (b << sh)) >> s2) & 1 == (if s2 == sh { b | ((old_byte >> s2) & 1) } else { (old_byte >> s2) & 1 }),
{
    assert(((old_byte | (b << sh)) >> s2) & 1 == (if s2 == sh { b | ((old_byte >> s2) & 1) } else { (old_byte >> s2) & 1 })) by (bit_vector)
        requires b <= 1, sh < 8, s2 < 8;
}

/// The message the first 256 coefficients decode to: bit `i` (MSB-first) is
/// the decision for coefficient `i`.
pub open spec fn msg_decodes_to(msg: Seq<u8>, vals: Seq<int>) -> bool {
    &&& msg.len() == 32
    &&& forall|idx: int| 0 <= idx < 256 ==> #[trigger] spec_bit(msg, idx) == decode_bit(vals[idx])
}

/// The message that coefficients decode to (unique by `lemma_msg_decode_unique`).
pub open spec fn spec_poly_to_msg(vals: Seq<int>) -> Seq<u8> {
    choose|m: Seq<u8>| msg_decodes_to(m, vals)
}

/// Recovers the 256 message bits from the (recentred) coefficients: a
/// coefficient is a 1-bit if its centred magnitude exceeds q/4. Only the first
/// `SEED_LEN*8` coefficients are read. Runs with bit masks only; the output is
/// packed MSB-first.
pub fn poly_to_msg<const N: usize>(p: &Poly<N>) -> (r: [u8; SEED_LEN])
    requires
        256 <= N,
    ensures
        msg_decodes_to(r@, p.vals()),
        r@ == spec_poly_to_msg(p.vals()),
{
    let mut out = [0u8; SEED_LEN];
    let mut i: usize = 0;
    assert forall|idx: int| 0 <= idx < 256 implies #[trigger] spec_bit(out@, idx) == 0 by {
        let s2 = (7 - idx % 8) as u8;
        let z = out@[idx / 8];
        assert(z == 0);
        assert((z >> s2) & 1 == 0) by (bit_vector) requires z == 0;
    }
    while i < SEED_LEN * 8
        invariant
            256 <= N,
            0 <= i <= 256,
            forall|idx: int| 0 <= idx < i ==> #[trigger] spec_bit(out@, idx) == decode_bit(p.vals()[idx]),
            forall|idx: int| i <= idx < 256 ==> #[trigger] spec_bit(out@, idx) == 0,
        decreases 256 - i,
    {
        let v = p.coeffs[i].to_plain() as i32; // in [0, q)
        let bit = decode_coeff(v);
        let k = i / 8;
        let sh = (7 - (i % 8)) as u8;
        let old_byte = out[k];
        let new_byte = old_byte | (bit << sh);
        let ghost before = out@;
        out[k] = new_byte;
        proof {
            assert(p.vals()[i as int] == v as int);
            assert forall|idx: int| 0 <= idx < 256 implies #[trigger] spec_bit(out@, idx) == (if idx == i {
                decode_bit(p.vals()[idx])
            } else {
                spec_bit(before, idx)
            }) by {
                let s2 = (7 - idx % 8) as u8;
                if idx / 8 == k {
                    lemma_or_bit(old_byte, bit, sh, s2);
                    if idx == i {
                        assert(s2 == sh);
                        assert(spec_bit(before, idx) == 0);
                        assert((old_byte >> s2) & 1 == 0);
                        assert(bit | 0 == bit) by (bit_vector);
                    } else {
                        assert(s2 != sh);
                    }
                } else {
                    assert(out@[idx / 8] == before[idx / 8]);
                }
            }
        }
        i += 1;
    }
    proof {
        assert(msg_decodes_to(out@, p.vals()));
        lemma_msg_decode_unique(out@, spec_poly_to_msg(p.vals()), p.vals());
    }
    out
}

/// A byte is determined by its eight bits.
proof fn lemma_byte_from_bits(a: u8, b: u8)
    requires
        forall|s: u8| s < 8 ==> #[trigger] ((a >> s) & 1) == ((b >> s) & 1),
    ensures
        a == b,
{
    assert(a == b) by (bit_vector)
        requires
            ((a >> 0u8) & 1) == ((b >> 0u8) & 1) && ((a >> 1u8) & 1) == ((b >> 1u8) & 1)
            && ((a >> 2u8) & 1) == ((b >> 2u8) & 1) && ((a >> 3u8) & 1) == ((b >> 3u8) & 1)
            && ((a >> 4u8) & 1) == ((b >> 4u8) & 1) && ((a >> 5u8) & 1) == ((b >> 5u8) & 1)
            && ((a >> 6u8) & 1) == ((b >> 6u8) & 1) && ((a >> 7u8) & 1) == ((b >> 7u8) & 1);
}

/// At most one 32-byte message decodes from given coefficients.
pub proof fn lemma_msg_decode_unique(m1: Seq<u8>, m2: Seq<u8>, vals: Seq<int>)
    requires
        msg_decodes_to(m1, vals),
        msg_decodes_to(m2, vals),
    ensures
        m1 == m2,
{
    assert forall|j: int| 0 <= j < 32 implies m1[j] == m2[j] by {
        assert forall|s: u8| s < 8 implies #[trigger] ((m1[j] >> s) & 1) == ((m2[j] >> s) & 1) by {
            let idx = 8 * j + (7 - s);
            lemma_bit_index(j, 7 - s);
            assert(spec_bit(m1, idx) == decode_bit(vals[idx]));
            assert(spec_bit(m2, idx) == decode_bit(vals[idx]));
            assert((7 - idx % 8) as u8 == s);
        }
        lemma_byte_from_bits(m1[j], m2[j]);
    }
    assert(m1 =~= m2);
}

/// Deterministic CPA encryption of `msg` under `pk` with `coins`:
/// `u = a*r + e1`, `v = b*r + e2 + encode(msg)`, ciphertext `u || v`.
pub open spec fn spec_pke_encrypt(pk: Seq<u8>, msg: Seq<u8>, coins: Seq<u8>, n: nat) -> Seq<u8> {
    let a = spec_expand_a(pk.subrange(0, 32), n);
    let b = spec_decode_poly(pk.subrange(32, 32 + 2 * n as int), n);
    let r = spec_cbd_sample(coins, 0, n);
    let e1 = spec_cbd_sample(coins, 1, n);
    let e2 = spec_cbd_sample(coins, 2, n);
    let u = padd(neg_mul(a, r), e1);
    let v = padd(padd(neg_mul(b, r), e2), spec_msg_to_poly(msg, n));
    spec_encode_poly(u) + spec_encode_poly(v)
}

/// Deterministic CPA decryption: `w = v - u*s`, decoded bit by bit.
pub open spec fn spec_pke_decrypt(ct: Seq<u8>, s: Seq<int>, n: nat) -> Seq<u8> {
    let u = spec_decode_poly(ct.subrange(0, 2 * n as int), n);
    let v = spec_decode_poly(ct.subrange(2 * n as int, 4 * n as int), n);
    spec_poly_to_msg(psub(v, neg_mul(u, s)))
}

/// The dimensions a KEM instance works with: `n` a power of two in
/// `[256, 2048]`, `PK = 32 + 2n`, `SK = 2n + PK + 64`, `CT = 4n`.
pub open spec fn kem_dims(n: int, pk: int, sk: int, ct: int) -> bool {
    &&& is_pow2(n)
    &&& 256 <= n <= 2048
    &&& pk == 32 + 2 * n
    &&& sk == 2 * n + pk + 64
    &&& ct == 4 * n
}

/// Deterministic CPAPKE encryption. Requires `CT = 4N`.
pub fn pke_encrypt<const N: usize, const CT: usize>(
    ctx: &NttContext<N>,
    pk: &[u8],
    msg: &[u8; SEED_LEN],
    coins: &[u8],
) -> (ct: [u8; CT])
    requires
        is_pow2(N as int),
        256 <= N <= 2048,
        CT == 4 * N,
        pk@.len() >= 32 + 2 * N,
        coins@.len() < usize::MAX,
    ensures
        ct@ == spec_pke_encrypt(pk@, msg@, coins@, N as nat),
{
    let seed_a = slice_subrange(pk, 0, SEED_LEN);
    let b = decode_poly_at::<N>(pk, SEED_LEN);
    let a = expand_a::<N>(seed_a);

    // r, e1, e2 and the message polynomial are secret; wiped before returning.
    let mut r = cbd_sample::<N>(coins, 0);
    let mut e1 = cbd_sample::<N>(coins, 1);
    let mut e2 = cbd_sample::<N>(coins, 2);
    let mut mp = msg_to_poly::<N>(msg);

    let mut ar = ctx.mul(&a, &r);
    let mut br = ctx.mul(&b, &r);
    let mut bre = br.add(&e2);
    let u = ar.add(&e1);
    let v = bre.add(&mp);
    let ghost (rv, e1v, e2v, mv) = (r.vals(), e1.vals(), e2.vals(), mp.vals());
    ar.zeroize();
    br.zeroize();
    bre.zeroize();
    r.zeroize();
    e1.zeroize();
    e2.zeroize();
    mp.zeroize();

    let mut ct = [0u8; CT];
    encode_poly_at::<N>(&u, &mut ct, 0);
    let ghost mid = ct@;
    encode_poly_at::<N>(&v, &mut ct, 2 * N);
    proof {
        let eu = spec_encode_poly(u.vals());
        let ev = spec_encode_poly(v.vals());
        assert forall|k: int| 0 <= k < 4 * N implies #[trigger] ct@[k] == (eu + ev)[k] by {
            if k < 2 * N {
                assert(ct@[k] == mid[k]);
                assert(mid.subrange(0, 2 * N)[k] == eu[k]);
            } else {
                assert(ct@.subrange(2 * N as int, 4 * N as int)[k - 2 * N] == ev[k - 2 * N]);
            }
        }
        assert(ct@ =~= eu + ev);
        assert(u.vals() =~= padd(neg_mul(a.vals(), rv), e1v));
        assert(v.vals() =~= padd(padd(neg_mul(b.vals(), rv), e2v), mv));
    }
    ct
}

/// Deterministic CPAPKE decryption.
pub fn pke_decrypt<const N: usize>(ctx: &NttContext<N>, s: &Poly<N>, ct: &[u8]) -> (m: [u8; SEED_LEN])
    requires
        is_pow2(N as int),
        256 <= N <= 2048,
        ct@.len() >= 4 * N,
    ensures
        m@ == spec_pke_decrypt(ct@, s.vals(), N as nat),
{
    let u = decode_poly_at::<N>(ct, 0);
    let v = decode_poly_at::<N>(ct, 2 * N);
    // u*s and w carry secret information; wiped before returning.
    let mut us = ctx.mul(&u, s);
    let mut w = v.sub(&us);
    proof {
        assert(w.vals() =~= psub(v.vals(), neg_mul(u.vals(), s.vals())));
    }
    let m = poly_to_msg::<N>(&w);
    us.zeroize();
    w.zeroize();
    m
}

/// Copies `src` into `dst[off .. off + src.len()]`, leaving the rest of `dst` as it was.
pub(crate) fn copy_into(dst: &mut [u8], off: usize, src: &[u8])
    requires
        off + src@.len() <= old(dst)@.len(),
    ensures
        final(dst)@.len() == old(dst)@.len(),
        final(dst)@.subrange(off as int, off + src@.len()) == src@,
        forall|k: int| 0 <= k < old(dst)@.len() && !(off <= k < off + src@.len()) ==> #[trigger] final(dst)@[k] == old(dst)@[k],
{
    let ghost orig = dst@;
    let len = dst.len();
    let n = src.len();
    let mut i: usize = 0;
    while i < n
        invariant
            0 <= i <= n,
            n == src@.len(),
            len == orig.len(),
            off + n <= orig.len(),
            dst@.len() == orig.len(),
            forall|k: int| 0 <= k < i ==> #[trigger] dst@[off + k] == src@[k],
            forall|k: int| 0 <= k < orig.len() && !(off <= k < off + i) ==> #[trigger] dst@[k] == orig[k],
        decreases n - i,
    {
        dst[off + i] = src[i];
        i += 1;
    }
    assert forall|k: int| 0 <= k < n implies #[trigger] dst@.subrange(off as int, off + n)[k] == src@[k] by {
        assert(dst@[off + k] == src@[k]);
    }
    assert(dst@.subrange(off as int, off + n) =~= src@);
}

/// The 32 bytes `src[off .. off + 32]` as an array.
fn array32_from(src: &[u8], off: usize) -> (r: [u8; 32])
    requires
        off + 32 <= src@.len(),
    ensures
        r@ == src@.subrange(off as int, off + 32),
{
    let mut r = [0u8; 32];
    let len = src.len();
    let mut i: usize = 0;
    while i < 32
        invariant
            0 <= i <= 32,
            len == src@.len(),
            off + 32 <= src@.len(),
            forall|k: int| 0 <= k < i ==> #[trigger] r@[k] == src@[off + k],
        decreases 32 - i,
    {
        r[i] = src[off + i];
        i += 1;
    }
    assert(r@ =~= src@.subrange(off as int, off + 32));
    r
}

/// `H(pk) = SHA3-256(pk)`.
fn h_pk(pk: &[u8]) -> (r: [u8; 32])
    ensures
        r == spec_sha3_256(pk@),
{
    sha3_256(pk)
}

/// `H(c) = SHA3-256(ciphertext)`.
fn h_ct(ct: &[u8]) -> (r: [u8; 32])
    ensures
        r == spec_sha3_256(ct@),
{
    sha3_256(ct)
}

/// `G(m || H(pk)) = SHA3-512(m || H(pk))`, split into `(k_bar, coins)`.
pub open spec fn spec_g(m: Seq<u8>, hp: Seq<u8>) -> (Seq<u8>, Seq<u8>) {
    let out = spec_sha3_512(m + hp)@;
    (out.subrange(0, 32), out.subrange(32, 64))
}

/// `KDF(k || H(c)) = SHAKE-256(k || H(c))`, 32 bytes.
pub open spec fn spec_kdf(k: Seq<u8>, hc: Seq<u8>) -> Seq<u8> {
    spec_shake256(k + hc, 32)
}

fn g_fn(m: &[u8; SEED_LEN], hp: &[u8; 32]) -> (r: ([u8; 32], [u8; 32]))
    ensures
        (r.0@, r.1@) == spec_g(m@, hp@),
{
    let mut input = slice_to_vec(m.as_slice());
    input.extend_from_slice(hp.as_slice());
    proof {
        assert(input@ =~= m@ + hp@);
    }
    let mut out = sha3_512(input.as_slice());
    let k_bar = array32_from(out.as_slice(), 0);
    let coins = array32_from(out.as_slice(), 32);
    // the message, k_bar and the coins are secret
    wipe_bytes(input.as_mut_slice());
    wipe_bytes(&mut out);
    (k_bar, coins)
}

fn kdf(seed: &[u8; 32], hc: &[u8; 32]) -> (r: [u8; SS_LEN])
    ensures
        r@ == spec_kdf(seed@, hc@),
{
    let mut input = slice_to_vec(seed.as_slice());
    input.extend_from_slice(hc.as_slice());
    proof {
        assert(input@ =~= seed@ + hc@);
    }
    let mut out = shake256(input.as_slice(), SS_LEN);
    let ss = array32_from(out.as_slice(), 0);
    proof {
        assert(out@.subrange(0, 32) =~= out@);
    }
    // the key material and the derived secret are secret
    wipe_bytes(input.as_mut_slice());
    wipe_bytes(out.as_mut_slice());
    ss
}

/// Key generation from explicit seeds: `b = a*s + e`, `pk = seed_a || b`,
/// `sk = s || pk || H(pk) || z`.
pub open spec fn spec_keygen(n: nat, seed_a: Seq<u8>, noise_seed: Seq<u8>, z: Seq<u8>) -> (Seq<u8>, Seq<u8>) {
    let a = spec_expand_a(seed_a, n);
    let s = spec_cbd_sample(noise_seed, 0, n);
    let e = spec_cbd_sample(noise_seed, 1, n);
    let b = padd(neg_mul(a, s), e);
    let pk = seed_a + spec_encode_poly(b);
    let sk = spec_encode_poly(s) + pk + spec_sha3_256(pk)@ + z;
    (pk, sk)
}

/// Encapsulation with an explicit message `m`.
pub open spec fn spec_encaps(n: nat, pk: Seq<u8>, m: Seq<u8>) -> (Seq<u8>, Seq<u8>) {
    let g = spec_g(m, spec_sha3_256(pk)@);
    let ct = spec_pke_encrypt(pk, m, g.1, n);
    (ct, spec_kdf(g.0, spec_sha3_256(ct)@))
}

/// Decapsulation with implicit rejection: decrypt, re-derive the coins,
/// re-encrypt; on a match the secret comes from `k_bar'`, otherwise from `z`.
pub open spec fn spec_decaps(n: nat, sk: Seq<u8>, ct: Seq<u8>) -> Seq<u8> {
    let pk_end: int = 4 * (n as int) + 32;
    let s = spec_decode_poly(sk.subrange(0, 2 * n as int), n);
    let pk = sk.subrange(2 * n as int, pk_end);
    let hp = sk.subrange(pk_end, pk_end + 32);
    let z = sk.subrange(pk_end + 32, pk_end + 64);
    let m2 = spec_pke_decrypt(ct, s, n);
    let g = spec_g(m2, hp);
    let ct2 = spec_pke_encrypt(pk, m2, g.1, n);
    let hc = spec_sha3_256(ct)@;
    if ct2 == ct {
        spec_kdf(g.0, hc)
    } else {
        spec_kdf(z, hc)
    }
}

/// The RE-KEM instance (holds precomputed NTT tables; cheap to construct once).
///
/// `N` is the ring dimension; `PK`, `SK` and `CT` are the derived byte lengths.
/// Construct via the `ReKem` / `ReKem1024` aliases so the relation is
/// always consistent.
pub struct KemGeneric<const N: usize, const PK: usize, const SK: usize, const CT: usize> {
    ctx: NttContext<N>,
}

/// RE-KEM at `n = 512` (NewHope-512 parameter regime). The default set.
pub type ReKem = KemGeneric<512, PK_LEN, SK_LEN, CT_LEN>;

/// RE-KEM at `n = 1024`.
pub type ReKem1024 = KemGeneric<1024, PK_LEN_1024, SK_LEN_1024, CT_LEN_1024>;

impl Default for KemGeneric<512, PK_LEN, SK_LEN, CT_LEN> {
    /// The `n = 512` instance.
    fn default() -> (r: Self)
        ensures
            r.context().holds_twiddles(),
    {
        Self::new()
    }
}

impl Default for KemGeneric<1024, PK_LEN_1024, SK_LEN_1024, CT_LEN_1024> {
    /// The `n = 1024` instance.
    fn default() -> (r: Self)
        ensures
            r.context().holds_twiddles(),
    {
        Self::new()
    }
}

impl<const N: usize, const PK: usize, const SK: usize, const CT: usize> KemGeneric<N, PK, SK, CT> {
    /// Builds the instance; the dimension must admit a primitive `2N`-th root
    /// of unity mod q, i.e. divide `(q - 1) / 2`.
    pub fn new() -> (r: Self)
        requires
            0 < N,
            6144int % (N as int) == 0,
        ensures
            r.context().holds_twiddles(),
    {
        KemGeneric { ctx: NttContext::<N>::new() }
    }

    /// The transform context this instance multiplies with.
    pub closed spec fn context(self) -> NttContext<N> {
        self.ctx
    }

    /// The ring dimension this instance works in.
    pub fn dimension(&self) -> (r: usize)
        ensures
            r == N,
    {
        N
    }

    /// Checks `PK = 32 + 2N`, `SK = 2N + PK + 64`, `CT = 4N`.
    pub fn sizes_are_consistent(&self) -> (r: bool)
        ensures
            r == (PK == SEED_LEN + 2 * N && SK == 2 * N + PK + 32 + SEED_LEN && CT == 4 * N),
    {
        let n = N as u128;
        let pk = PK as u128;
        PK as u128 == 32 + 2 * n && SK as u128 == 2 * n + pk + 64 && CT as u128 == 4 * n
    }

    /// Deterministic key generation from explicit seeds (for test vectors).
    pub fn keygen_derand(
        &self,
        seed_a: &[u8; SEED_LEN],
        noise_seed: &[u8; SEED_LEN],
        z: &[u8; SEED_LEN],
    ) -> (r: ([u8; PK], [u8; SK]))
        requires
            kem_dims(N as int, PK as int, SK as int, CT as int),
        ensures
            (r.0@, r.1@) == spec_keygen(N as nat, seed_a@, noise_seed@, z@),
    {
        let a = expand_a::<N>(seed_a);
        let mut s = cbd_sample::<N>(noise_seed, 0);
        let mut e = cbd_sample::<N>(noise_seed, 1);
        let mut a_s = self.ctx.mul(&a, &s);
        let b = a_s.add(&e);
        a_s.zeroize();

        let mut pk = [0u8; PK];
        copy_into(&mut pk, 0, seed_a);
        let ghost pk1 = pk@;
        encode_poly_at::<N>(&b, &mut pk, SEED_LEN);
        let ghost eb = spec_encode_poly(b.vals());
        proof {
            assert forall|k: int| 0 <= k < PK implies #[trigger] pk@[k] == (seed_a@ + eb)[k] by {
                if k < 32 {
                    assert(pk@[k] == pk1[k]);
                    assert(pk1.subrange(0, 32)[k] == seed_a@[k]);
                } else {
                    assert(pk@.subrange(32, 32 + 2 * N)[k - 32] == eb[k - 32]);
                }
            }
            assert(pk@ =~= seed_a@ + eb);
            assert(b.vals() =~= padd(neg_mul(a.vals(), s.vals()), e.vals()));
        }

        let hp = h_pk(&pk);

        let mut sk = [0u8; SK];
        let ghost es = spec_encode_poly(s.vals());
        encode_poly_at::<N>(&s, &mut sk, 0);
        let ghost sk1 = sk@;
        copy_into(&mut sk, 2 * N, &pk);
        let ghost sk2 = sk@;
        copy_into(&mut sk, 2 * N + PK, &hp);
        let ghost sk3 = sk@;
        copy_into(&mut sk, 2 * N + PK + 32, z);
        proof {
            let full = es + pk@ + hp@ + z@;
            assert forall|k: int| 0 <= k < SK implies #[trigger] sk@[k] == full[k] by {
                if k < 2 * N {
                    assert(sk@[k] == sk3[k] && sk3[k] == sk2[k] && sk2[k] == sk1[k]);
                    assert(sk1.subrange(0, 2 * N as int)[k] == es[k]);
                } else if k < 2 * N + PK {
                    assert(sk@[k] == sk3[k] && sk3[k] == sk2[k]);
                    assert(sk2.subrange(2 * N as int, 2 * N + PK)[k - 2 * N] == pk@[k - 2 * N]);
                } else if k < 2 * N + PK + 32 {
                    assert(sk@[k] == sk3[k]);
                    assert(sk3.subrange(2 * N + PK, 2 * N + PK + 32)[k - 2 * N - PK] == hp@[k - 2 * N - PK]);
                } else {
                    assert(sk@.subrange(2 * N + PK + 32, 2 * N + PK + 64)[k - 2 * N - PK - 32] == z@[k - 2 * N - PK - 32]);
                }
            }
            assert(sk@ =~= full);
        }
        s.zeroize();
        e.zeroize();
        (pk, sk)
    }

    /// Key generation with fresh randomness from the operating system.
    pub fn keygen(&self) -> (r: Result<([u8; PK], [u8; SK]), KemError>)
        requires
            kem_dims(N as int, PK as int, SK as int, CT as int),
        ensures
            match r {
                Ok((pk, sk)) => exists|seed_a: Seq<u8>, noise_seed: Seq<u8>, z: Seq<u8>|
                    seed_a.len() == 32 && noise_seed.len() == 32 && z.len() == 32
                    && (pk@, sk@) == #[trigger] spec_keygen(N as nat, seed_a, noise_seed, z),
                Err(e) => e == KemError::Randomness,
            },
    {
        let mut buf = [0u8; 96];
        if fill_random(&mut buf).is_err() {
            return Err(KemError::Randomness);
        }
        let mut seed_a = array32_from(&buf, 0);
        let mut noise_seed = array32_from(&buf, 32);
        let mut z = array32_from(&buf, 64);
        let r = self.keygen_derand(&seed_a, &noise_seed, &z);
        proof {
            assert(spec_keygen(N as nat, seed_a@, noise_seed@, z@) == (r.0@, r.1@));
        }
        wipe_bytes(&mut buf);
        wipe_bytes(&mut seed_a);
        wipe_bytes(&mut noise_seed);
        wipe_bytes(&mut z);
        Ok(r)
    }

    /// Encapsulation with a fresh random message.
    pub fn encaps(&self, pk: &[u8; PK]) -> (r: Result<([u8; CT], [u8; SS_LEN]), KemError>)
        requires
            kem_dims(N as int, PK as int, SK as int, CT as int),
        ensures
            match r {
                Ok((ct, ss)) => exists|m: Seq<u8>| m.len() == 32 && (ct@, ss@) == #[trigger] spec_encaps(N as nat, pk@, m),
                Err(e) => e == KemError::Randomness,
            },
    {
        let mut m = [0u8; SEED_LEN];
        if fill_random(&mut m).is_err() {
            return Err(KemError::Randomness);
        }
        let r = self.encaps_derand(pk, &m);
        proof {
            assert(spec_encaps(N as nat, pk@, m@) == (r.0@, r.1@));
        }
        wipe_bytes(&mut m);
        Ok(r)
    }

    /// Deterministic encapsulation with an explicit message (for test vectors).
    pub fn encaps_derand(&self, pk: &[u8; PK], m: &[u8; SEED_LEN]) -> (r: ([u8; CT], [u8; SS_LEN]))
        requires
            kem_dims(N as int, PK as int, SK as int, CT as int),
        ensures
            (r.0@, r.1@) == spec_encaps(N as nat, pk@, m@),
    {
        let hp = h_pk(pk);
        // k_bar and the encapsulation coins are secret; wiped before returning.
        let (mut k_bar, mut coins) = g_fn(m, &hp);
        let ct = pke_encrypt::<N, CT>(&self.ctx, pk, m, &coins);
        let hc = h_ct(&ct);
        let ss = kdf(&k_bar, &hc);
        wipe_bytes(&mut k_bar);
        wipe_bytes(&mut coins);
        (ct, ss)
    }

    /// Decapsulation with implicit rejection (never fails; returns a
    /// pseudorandom secret derived from `z` on invalid ciphertexts).
    pub fn decaps(&self, sk: &[u8; SK], ct: &[u8; CT]) -> (ss: [u8; SS_LEN])
        requires
            kem_dims(N as int, PK as int, SK as int, CT as int),
        ensures
            ss@ == spec_decaps(N as nat, sk@, ct@),
    {
        let mut s = decode_poly_at::<N>(sk, 0);

        let mut pk = [0u8; PK];
        copy_into(&mut pk, 0, slice_subrange(sk.as_slice(), 2 * N, 2 * N + PK));
        let hp = array32_from(sk, 2 * N + PK);
        let mut z = array32_from(sk, 2 * N + PK + 32);
        proof {
            assert(pk@ =~= pk@.subrange(0, PK as int));
        }

        // 1. candidate plaintext (secret, wiped before returning)
        let mut m_prime = pke_decrypt::<N>(&self.ctx, &s, ct);

        // 2. re-derive the encapsulation coins
        let (mut k_bar_prime, mut coins_prime) = g_fn(&m_prime, &hp);

        // 3. re-encrypt
        let ct_prime = pke_encrypt::<N, CT>(&self.ctx, &pk, &m_prime, &coins_prime);

        // 4. constant-time comparison (implicit rejection)
        let eq = ct_eq_bytes(ct, &ct_prime);
        let fail: u8 = eq ^ 1;
        proof {
            assert(eq == 1 || eq == 0);
            assert((eq == 1 ==> fail == 0) && (eq == 0 ==> fail == 1)) by (bit_vector)
                requires fail == eq ^ 1;
        }

        // 5. shared secret: success or rejection branch
        let hc = h_ct(ct);
        let mut ss_success = kdf(&k_bar_prime, &hc);
        let mut ss_fail = kdf(&z, &hc);

        let mut ss = [0u8; SS_LEN];
        let mask = 0u8.wrapping_sub(fail); // 0xFF if fail, 0x00 otherwise
        proof {
            assert(fail == 1 ==> mask == 0xff);
            assert(fail == 0 ==> mask == 0);
        }
        let mut i: usize = 0;
        while i < SS_LEN
            invariant
                0 <= i <= 32,
                fail == 1 ==> mask == 0xff,
                fail == 0 ==> mask == 0,
                fail == 0 || fail == 1,
                forall|k: int| 0 <= k < i ==> #[trigger] ss@[k] == (if fail == 1 { ss_fail@[k] } else { ss_success@[k] }),
            decreases 32 - i,
        {
            let f = ss_fail[i];
            let t = ss_success[i];
            let v = (f & mask) | (t & !mask);
            proof {
                assert((mask == 0xff ==> v == f) && (mask == 0 ==> v == t)) by (bit_vector)
                    requires v == (f & mask) | (t & !mask);
            }
            ss[i] = v;
            i += 1;
        }
        proof {
            let pk_end: int = 4 * (N as int) + 32;
            assert(sk@.subrange(2 * N as int, pk_end) =~= pk@);
            assert(fail == 0 <==> ct_prime@ == ct@);
            if fail == 1 {
                assert(ss@ =~= ss_fail@);
            } else {
                assert(ss@ =~= ss_success@);
            }
        }
        s.zeroize();
        wipe_bytes(&mut m_prime);
        wipe_bytes(&mut k_bar_prime);
        wipe_bytes(&mut coins_prime);
        wipe_bytes(&mut ss_success);
        wipe_bytes(&mut ss_fail);
        wipe_bytes(&mut z);
        ss
    }
}

/// A coefficient in `[0, q)` as its centred representative in `(-q/2, q/2]`.
pub open spec fn centred(v: int) -> int {
    if v > half_q() {
        v - qm()
    } else {
        v
    }
}

/// The decryption noise `e*r + e2 - e1*s` left over when a ciphertext made
/// with `coins` is decrypted under the key noise `s`, `e`.
pub open spec fn spec_pke_noise(s: Seq<int>, e: Seq<int>, coins: Seq<u8>, n: nat) -> Seq<int> {
    let r = spec_cbd_sample(coins, 0, n);
    let e1 = spec_cbd_sample(coins, 1, n);
    let e2 = spec_cbd_sample(coins, 2, n);
    psub(padd(neg_mul(e, r), e2), neg_mul(e1, s))
}

/// The noise on each of the 256 message coefficients stays strictly within
/// `q/4` of zero.
pub open spec fn noise_within_quarter(d: Seq<int>) -> bool {
    forall|i: int| 0 <= i < 256 ==> -3072 < #[trigger] centred(d[i]) < 3072
}

/// A message bit survives additive noise smaller than `q/4`.
proof fn lemma_decode_noisy_bit(bit: int, d: int)
    requires
        bit == 0 || bit == 1,
        0 <= d < qm(),
        -3072 < centred(d) < 3072,
    ensures
        decode_bit((d + half_q() * bit) % qm()) == bit,
{
    if bit == 0 {
        lemma_small_mod(d as nat, 12289);
    } else if d <= half_q() {
        lemma_small_mod((d + 6144) as nat, 12289);
    } else {
        lemma_mod_sub_multiples_vanish(d + 6144, 12289);
        lemma_small_mod((d + 6144 - 12289) as nat, 12289);
    }
}

/// The algebra of decryption: with `b = a*s + e`, `u = a*r + e1` and
/// `v = b*r + e2 + mm`, the difference `v - u*s` is `mm` plus the noise
/// `e*r + e2 - e1*s`, coefficient by coefficient mod q.
proof fn lemma_decryption_identity(a: Seq<int>, s: Seq<int>, e: Seq<int>, r: Seq<int>, e1: Seq<int>, e2: Seq<int>, mm: Seq<int>)
    requires
        is_pow2(a.len() as int),
        6144int % (a.len() as int) == 0,
        s.len() == a.len(),
        e.len() == a.len(),
        r.len() == a.len(),
        e1.len() == a.len(),
        e2.len() == a.len(),
        mm.len() == a.len(),
    ensures
        psub(padd(padd(neg_mul(padd(neg_mul(a, s), e), r), e2), mm), neg_mul(padd(neg_mul(a, r), e1), s))
            == padd(psub(padd(neg_mul(e, r), e2), neg_mul(e1, s)), mm),
{
    let n = a.len();
    let b = padd(neg_mul(a, s), e);
    let u = padd(neg_mul(a, r), e1);
    let v = padd(padd(neg_mul(b, r), e2), mm);
    let w = psub(v, neg_mul(u, s));
    let d = psub(padd(neg_mul(e, r), e2), neg_mul(e1, s));
    let target = padd(d, mm);
    assert forall|t: int| 0 <= t < n implies #[trigger] cong(eval(w, pow(spec_psi(n), (2 * t + 1) as nat)), eval(target, pow(spec_psi(n), (2 * t + 1) as nat))) by {
        let z = pow(spec_psi(n), (2 * t + 1) as nat);
        lemma_odd_power_root(n, t as nat);
        let ea = eval(a, z);
        let es = eval(s, z);
        let ee = eval(e, z);
        let er = eval(r, z);
        let ee1 = eval(e1, z);
        let ee2 = eval(e2, z);
        let em = eval(mm, z);
        // b, u, v, w
        lemma_eval_product(a, s, z);
        lemma_eval_padd(neg_mul(a, s), e, z);
        lemma_cong_add(eval(neg_mul(a, s), z), ea * es, ee, ee);
        let eb = eval(b, z);
        assert(cong(eb, ea * es + ee));
        lemma_eval_product(a, r, z);
        lemma_eval_padd(neg_mul(a, r), e1, z);
        lemma_cong_add(eval(neg_mul(a, r), z), ea * er, ee1, ee1);
        let eu = eval(u, z);
        assert(cong(eu, ea * er + ee1));
        lemma_eval_product(b, r, z);
        lemma_cong_mul(eb, ea * es + ee, er, er);
        lemma_eval_padd(neg_mul(b, r), e2, z);
        lemma_cong_add(eval(neg_mul(b, r), z), (ea * es + ee) * er, ee2, ee2);
        lemma_eval_padd(padd(neg_mul(b, r), e2), mm, z);
        lemma_cong_add(eval(padd(neg_mul(b, r), e2), z), (ea * es + ee) * er + ee2, em, em);
        let ev = eval(v, z);
        assert(cong(ev, (ea * es + ee) * er + ee2 + em));
        lemma_eval_product(u, s, z);
        lemma_cong_mul(eu, ea * er + ee1, es, es);
        lemma_eval_psub(v, neg_mul(u, s), z);
        lemma_cong_sub(ev, (ea * es + ee) * er + ee2 + em, eval(neg_mul(u, s), z), (ea * er + ee1) * es);
        assert((ea * es + ee) * er + ee2 + em - (ea * er + ee1) * es == ee * er + ee2 - ee1 * es + em) by (nonlinear_arith);
        assert(cong(eval(w, z), ee * er + ee2 - ee1 * es + em));
        // the noise and the target
        lemma_eval_product(e, r, z);
        lemma_eval_padd(neg_mul(e, r), e2, z);
        lemma_cong_add(eval(neg_mul(e, r), z), ee * er, ee2, ee2);
        lemma_eval_product(e1, s, z);
        lemma_eval_psub(padd(neg_mul(e, r), e2), neg_mul(e1, s), z);
        lemma_cong_sub(eval(padd(neg_mul(e, r), e2), z), ee * er + ee2, eval(neg_mul(e1, s), z), ee1 * es);
        lemma_eval_padd(d, mm, z);
        lemma_cong_add(eval(d, z), ee * er + ee2 - ee1 * es, em, em);
    }
    lemma_eval_injective(w, target);
}

/// CPA correctness: a ciphertext made under `pk = seed_a || encode(a*s + e)`
/// decrypts under `s` to the message it carries, whenever the decryption
/// noise `e*r + e2 - e1*s` stays within `q/4` on the message coefficients.
pub proof fn lemma_pke_decrypt_encrypt(n: nat, seed_a: Seq<u8>, s: Seq<int>, e: Seq<int>, msg: Seq<u8>, coins: Seq<u8>)
    requires
        is_pow2(n as int),
        256 <= n <= 2048,
        seed_a.len() == 32,
        s.len() == n,
        e.len() == n,
        msg.len() == 32,
        noise_within_quarter(spec_pke_noise(s, e, coins, n)),
    ensures
        spec_pke_decrypt(
            spec_pke_encrypt(seed_a + spec_encode_poly(padd(neg_mul(spec_expand_a(seed_a, n), s), e)), msg, coins, n),
            s,
            n,
        ) == msg,
{
    let a = spec_expand_a(seed_a, n);
    let b0 = padd(neg_mul(a, s), e);
    let pk = seed_a + spec_encode_poly(b0);
    let r = spec_cbd_sample(coins, 0, n);
    let e1 = spec_cbd_sample(coins, 1, n);
    let e2 = spec_cbd_sample(coins, 2, n);
    let mm = spec_msg_to_poly(msg, n);
    assert(6144int % (n as int) == 0) by {
        lemma_pow2_divides_6144(n as int);
    }
    // the public key reads back as (seed_a, b0)
    assert(pk.subrange(0, 32) =~= seed_a);
    assert(pk.subrange(32, 32 + 2 * n as int) =~= spec_encode_poly(b0));
    lemma_encode_decode_poly(b0);
    let u = padd(neg_mul(a, r), e1);
    let v = padd(padd(neg_mul(b0, r), e2), mm);
    let ct = spec_pke_encrypt(pk, msg, coins, n);
    assert(ct == spec_encode_poly(u) + spec_encode_poly(v));
    // the ciphertext reads back as (u, v)
    assert(ct.subrange(0, 2 * n as int) =~= spec_encode_poly(u));
    assert(ct.subrange(2 * n as int, 4 * n as int) =~= spec_encode_poly(v));
    lemma_encode_decode_poly(u);
    lemma_encode_decode_poly(v);
    let w = psub(v, neg_mul(u, s));
    let d = spec_pke_noise(s, e, coins, n);
    lemma_decryption_identity(a, s, e, r, e1, e2, mm);
    assert(w == padd(d, mm));
    // each message coefficient decodes to its bit
    assert forall|idx: int| 0 <= idx < 256 implies #[trigger] spec_bit(msg, idx) == decode_bit(w[idx]) by {
        let byte = msg[idx / 8];
        let sh = (7 - idx % 8) as u8;
        assert(((byte >> sh) & 1) <= 1) by (bit_vector);
        let bit = spec_bit(msg, idx);
        assert(mm[idx] == half_q() * bit);
        assert(centred(d[idx]) > -3072 && centred(d[idx]) < 3072);
        lemma_decode_noisy_bit(bit, d[idx]);
    }
    assert(msg_decodes_to(msg, w));
    lemma_msg_decode_unique(msg, spec_poly_to_msg(w), w);
}

/// Key generation: `a = expand_a(seed_a)`, `s` and `e` are the noise for
/// nonces 0 and 1 of `noise_seed`, the public key is `seed_a || encode(a*s + e)`
/// and the secret key is `encode(s) || pk || SHA3-256(pk) || z`.
pub proof fn lemma_keygen_layout(n: nat, seed_a: Seq<u8>, noise_seed: Seq<u8>, z: Seq<u8>)
    ensures
        ({
            let s = spec_cbd_sample(noise_seed, 0, n);
            let e = spec_cbd_sample(noise_seed, 1, n);
            let pk = seed_a + spec_encode_poly(padd(neg_mul(spec_expand_a(seed_a, n), s), e));
            &&& spec_keygen(n, seed_a, noise_seed, z).0 == pk
            &&& spec_keygen(n, seed_a, noise_seed, z).1 == spec_encode_poly(s) + pk + spec_sha3_256(pk)@ + z
        }),
{
}

/// Encapsulation with message `m`: `(k_bar, coins) = SHA3-512(m || SHA3-256(pk))`,
/// the ciphertext is the CPA encryption of `m` with `coins`, and the shared
/// secret is the first 32 bytes of SHAKE-256(k_bar || SHA3-256(ct)): it binds
/// the ciphertext.
pub proof fn lemma_encaps_secret(n: nat, pk: Seq<u8>, m: Seq<u8>)
    ensures
        spec_encaps(n, pk, m).0 == spec_pke_encrypt(pk, m, spec_sha3_512(m + spec_sha3_256(pk)@)@.subrange(32, 64), n),
        spec_encaps(n, pk, m).1 == spec_shake256(
            spec_sha3_512(m + spec_sha3_256(pk)@)@.subrange(0, 32) + spec_sha3_256(spec_encaps(n, pk, m).0)@,
            32,
        ),
        spec_sha3_512(m + spec_sha3_256(pk)@)@.subrange(0, 32).len() + spec_sha3_256(spec_encaps(n, pk, m).0)@.len() == 64,
{
}

/// Decapsulation: with `m'` the CPA decryption of `ct` and `hp`, `z` read
/// from the secret key, the secret is SHAKE-256(k || SHA3-256(ct)), 32 bytes,
/// where `k` is the first half of SHA3-512(m' || hp) when re-encrypting `m'`
/// with the second half gives `ct` back, and `z` otherwise.
pub proof fn lemma_decaps_secret(n: nat, sk: Seq<u8>, ct: Seq<u8>)
    ensures
        ({
            let pk_end: int = 4 * (n as int) + 32;
            let s = spec_decode_poly(sk.subrange(0, 2 * n as int), n);
            let pk = sk.subrange(2 * n as int, pk_end);
            let hp = sk.subrange(pk_end, pk_end + 32);
            let z = sk.subrange(pk_end + 32, pk_end + 64);
            let m2 = spec_pke_decrypt(ct, s, n);
            let g = spec_sha3_512(m2 + hp)@;
            let k = if spec_pke_encrypt(pk, m2, g.subrange(32, 64), n) == ct { g.subrange(0, 32) } else { z };
            spec_decaps(n, sk, ct) == spec_shake256(k + spec_sha3_256(ct)@, 32)
        }),
{
}

/// Decoding the embedding of a message gives the message back.
pub proof fn lemma_msg_roundtrip(msg: Seq<u8>, n: nat)
    requires
        msg.len() == 32,
        256 <= n,
    ensures
        spec_poly_to_msg(spec_msg_to_poly(msg, n)) == msg,
{
    let mm = spec_msg_to_poly(msg, n);
    assert forall|idx: int| 0 <= idx < 256 implies #[trigger] spec_bit(msg, idx) == decode_bit(mm[idx]) by {
        let byte = msg[idx / 8];
        let sh = (7 - idx % 8) as u8;
        assert(((byte >> sh) & 1) <= 1) by (bit_vector);
        let bit = spec_bit(msg, idx);
        lemma_decode_noisy_bit(bit, 0);
        assert(0 + half_q() * bit == mm[idx]);
        lemma_small_mod(mm[idx] as nat, 12289);
    }
    assert(msg_decodes_to(msg, mm));
    lemma_msg_decode_unique(msg, spec_poly_to_msg(mm), mm);
}

/// A power of two divides every larger power of two.
proof fn lemma_pow2_divides(n: int, m: int)
    requires
        is_pow2(n),
        is_pow2(m),
        n <= m,
    ensures
        m % n == 0,
    decreases n,
{
    if n > 1 {
        assert(n % 2 == 0 && is_pow2(n / 2));
        assert(m % 2 == 0 && is_pow2(m / 2));
        lemma_pow2_divides(n / 2, m / 2);
        let c = (m / 2) / (n / 2);
        lemma_fundamental_div_mod(m / 2, n / 2);
        assert(m == c * n) by (nonlinear_arith)
            requires m / 2 == (n / 2) * c, m == 2 * (m / 2), n == 2 * (n / 2);
        lemma_mod_multiples_basic(c, n);
    }
}

/// A power of two up to 2048 divides `6144 = 3 * 2^11`.
proof fn lemma_pow2_divides_6144(n: int)
    requires
        is_pow2(n),
        n <= 2048,
    ensures
        6144int % n == 0,
{
    reveal_with_fuel(is_pow2, 12);
    lemma_pow2_divides(n, 2048);
    let c: int = 2048int / n;
    lemma_fundamental_div_mod(2048, n);
    assert(6144 == (3 * c) * n) by (nonlinear_arith)
        requires 2048 == n * c;
    lemma_mod_multiples_basic(3 * c, n);
}

/// Decapsulating an honestly encapsulated ciphertext under the matching
/// secret key yields the sender's shared secret, whenever the decryption
/// noise `e*r + e2 - e1*s` (key noise from `noise_seed`, encryption coins
/// from `G(m || H(pk))`) stays within `q/4` on the message coefficients.
/// The noise is bounded only probabilistically; outside the bound the
/// re-encryption check fails and the receiver gets the `z`-derived secret.
pub proof fn lemma_decaps_of_encaps(n: nat, seed_a: Seq<u8>, noise_seed: Seq<u8>, z: Seq<u8>, m: Seq<u8>)
    requires
        is_pow2(n as int),
        256 <= n <= 2048,
        seed_a.len() == 32,
        z.len() == 32,
        m.len() == 32,
        noise_within_quarter(spec_pke_noise(
            spec_cbd_sample(noise_seed, 0, n),
            spec_cbd_sample(noise_seed, 1, n),
            spec_g(m, spec_sha3_256(spec_keygen(n, seed_a, noise_seed, z).0)@).1,
            n,
        )),
    ensures
        spec_decaps(n, spec_keygen(n, seed_a, noise_seed, z).1, spec_encaps(n, spec_keygen(n, seed_a, noise_seed, z).0, m).0)
            == spec_encaps(n, spec_keygen(n, seed_a, noise_seed, z).0, m).1,
{
    let (pk, sk) = spec_keygen(n, seed_a, noise_seed, z);
    let (ct, ss) = spec_encaps(n, pk, m);
    let s = spec_cbd_sample(noise_seed, 0, n);
    let e = spec_cbd_sample(noise_seed, 1, n);
    lemma_pke_decrypt_encrypt(n, seed_a, s, e, m, spec_g(m, spec_sha3_256(pk)@).1);
    let es = spec_encode_poly(s);
    let hp = spec_sha3_256(pk)@;
    let pk_end: int = 4 * (n as int) + 32;
    assert(es.len() == 2 * n);
    assert(pk.len() == 32 + 2 * n);
    assert(sk == es + pk + hp + z);
    assert(sk.subrange(0, 2 * n as int) =~= es);
    assert(sk.subrange(2 * n as int, pk_end) =~= pk);
    assert(sk.subrange(pk_end, pk_end + 32) =~= hp);
    assert(sk.subrange(pk_end + 32, pk_end + 64) =~= z);
    assert forall|i: int| 0 <= i < s.len() implies 0 <= #[trigger] s[i] < qm() by {}
    lemma_encode_decode_poly(s);
}

/// The byte sizes of the two parameter sets follow from `n`: the constants
/// are the sizes that `Params` derives.
pub proof fn lemma_sizes_match_params()
    ensures
        PK_LEN == crate::params::spec_newhope_512().spec_pk_len(),
        SK_LEN == crate::params::spec_newhope_512().spec_sk_len(),
        CT_LEN == crate::params::spec_newhope_512().spec_ct_len(),
        POLY_LEN == crate::params::spec_newhope_512().spec_poly_len(),
        SS_LEN == crate::params::spec_newhope_512().ss_len,
        SEED_LEN == crate::params::spec_newhope_512().seed_len,
        PK_LEN_1024 == crate::params::spec_level5_1024().spec_pk_len(),
        SK_LEN_1024 == crate::params::spec_level5_1024().spec_sk_len(),
        CT_LEN_1024 == crate::params::spec_level5_1024().spec_ct_len(),
        kem_dims(512, PK_LEN as int, SK_LEN as int, CT_LEN as int),
        kem_dims(1024, PK_LEN_1024 as int, SK_LEN_1024 as int, CT_LEN_1024 as int),
{
    reveal_with_fuel(is_pow2, 12);
}

} // verus!
