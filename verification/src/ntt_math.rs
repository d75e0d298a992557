//! The mathematics of the radix-2 transform: strided DFT sums, the
//! bit-reversal order, and the butterfly identity that one stage applies.

use vstd::prelude::*;
use vstd::arithmetic::div_mod::*;
use vstd::arithmetic::mul::*;
use vstd::arithmetic::power::*;

verus! {

/// The modulus as a mathematical integer.
pub open spec fn qm() -> int {
    12289
}

/// `n` is a power of two (1, 2, 4, ...).
pub open spec fn is_pow2(n: int) -> bool
    decreases n,
{
    if n <= 0 {
        false
    } else if n == 1 {
        true
    } else {
        n % 2 == 0 && is_pow2(n / 2)
    }
}

/// The strided DFT sum `sum_{m < len} x[r + s*m] * w^(m*k)`, over the integers.
pub open spec fn dsum(x: Seq<int>, r: int, s: int, w: int, k: nat, len: nat) -> int
    decreases len,
{
    if len == 0 {
        0
    } else {
        dsum(x, r, s, w, k, (len - 1) as nat) + x[r + s * (len - 1)] * pow(w, ((len - 1) * k) as nat)
    }
}

/// The DFT of `x` (length `n`) with root `w`, at frequency `k`, reduced mod q.
pub open spec fn dft(x: Seq<int>, w: int, k: nat) -> int {
    dsum(x, 0, 1, w, k, x.len()) % qm()
}

/// Bit reversal of `b` within a range of size `s` (a power of two).
pub open spec fn rev_in(b: int, s: int) -> int
    decreases s,
{
    if s <= 1 {
        0
    } else {
        (b % 2) * (s / 2) + rev_in(b / 2, s / 2)
    }
}

pub proof fn lemma_rev_in_bound(b: int, s: int)
    requires
        is_pow2(s),
        b >= 0,
    ensures
        0 <= rev_in(b, s) < s,
    decreases s,
{
    if s > 1 {
        assert(s % 2 == 0 && is_pow2(s / 2));
        lemma_rev_in_bound(b / 2, s / 2);
        let bit = b % 2;
        assert(bit * (s / 2) <= s / 2) by (nonlinear_arith)
            requires 0 <= bit <= 1, s / 2 >= 0;
    }
}

/// Even and odd sub-blocks of a block of size `2s` in bit-reversed order.
pub proof fn lemma_rev_in_children(b: int, s: int)
    requires
        s >= 1,
        b >= 0,
    ensures
        rev_in(2 * b, 2 * s) == rev_in(b, s),
        rev_in(2 * b + 1, 2 * s) == s + rev_in(b, s),
{
    assert((2 * b) / 2 == b);
    assert((2 * b + 1) / 2 == b);
    assert((2 * b) % 2 == 0);
    assert((2 * b + 1) % 2 == 1);
    assert((2 * s) / 2 == s);
}

/// Splitting a strided sum of even length into its even and odd halves.
pub proof fn lemma_dsum_split(x: Seq<int>, r: int, s: int, w: int, k: nat, h: nat)
    ensures
        dsum(x, r, s, w, k, 2 * h) == dsum(x, r, 2 * s, w * w, k, h) + pow(w, k) * dsum(x, r + s, 2 * s, w * w, k, h),
    decreases h,
{
    if h > 0 {
        let g = (h - 1) as nat;
        lemma_dsum_split(x, r, s, w, k, g);
        let e0 = dsum(x, r, 2 * s, w * w, k, g);
        let o0 = dsum(x, r + s, 2 * s, w * w, k, g);
        let gk = (g * k) as nat;
        assert(g * k >= 0) by (nonlinear_arith);
        assert(((2 * g) * k) as nat == 2 * gk) by (nonlinear_arith) requires gk == g * k;
        assert(((2 * g + 1) * k) as nat == k + 2 * gk) by (nonlinear_arith) requires gk == g * k;
        assert(s * (2 * g) == (2 * s) * g) by (nonlinear_arith);
        assert(r + s * (2 * g + 1) == (r + s) + (2 * s) * g) by (nonlinear_arith);
        // powers: w^(2gk) = (w*w)^(gk), w^((2g+1)k) = w^k * (w*w)^(gk)
        lemma_square_is_pow2(w);
        lemma_pow_multiplies(w, 2, gk);
        lemma_pow_adds(w, k, 2 * gk);
        let p = pow(w * w, gk);
        assert(pow(w, 2 * gk) == p);
        assert(pow(w, k + 2 * gk) == pow(w, k) * p);
        // unfold the sums one and two steps
        assert(2 * h == 2 * g + 2);
        assert(dsum(x, r, s, w, k, (2 * g + 1) as nat) == dsum(x, r, s, w, k, 2 * g) + x[r + s * (2 * g)] * pow(w, ((2 * g) * k) as nat));
        assert(dsum(x, r, s, w, k, 2 * h) == dsum(x, r, s, w, k, (2 * g + 1) as nat) + x[r + s * (2 * g + 1)] * pow(w, ((2 * g + 1) * k) as nat));
        assert(dsum(x, r, 2 * s, w * w, k, h) == e0 + x[r + (2 * s) * g] * p);
        assert(dsum(x, r + s, 2 * s, w * w, k, h) == o0 + x[(r + s) + (2 * s) * g] * p);
        let a = x[r + (2 * s) * g];
        let b = x[(r + s) + (2 * s) * g];
        assert(pow(w, k) * (o0 + b * p) == pow(w, k) * o0 + b * (pow(w, k) * p)) by (nonlinear_arith);
    }
}

/// Shifting the frequency by a period of the root leaves the sum unchanged mod q.
pub proof fn lemma_dsum_period(x: Seq<int>, r: int, s: int, v: int, k: nat, per: nat, len: nat)
    requires
        pow(v, per) % qm() == 1,
    ensures
        dsum(x, r, s, v, k + per, len) % qm() == dsum(x, r, s, v, k, len) % qm(),
    decreases len,
{
    if len > 0 {
        let m = (len - 1) as nat;
        lemma_dsum_period(x, r, s, v, k, per, m);
        assert(m * (k + per) == m * k + per * m) by (nonlinear_arith);
        assert(m * k >= 0 && per * m >= 0) by (nonlinear_arith);
        let mk = (m * k) as nat;
        let pm = (per * m) as nat;
        lemma_pow_adds(v, mk, pm);
        lemma_pow_multiplies(v, per, m);
        // (v^per)^m = 1 (mod q)
        lemma_pow_mod_noop(pow(v, per), m, qm());
        lemma1_pow(m);
        assert(pow(pow(v, per), m) % qm() == 1);
        let t = x[r + s * m];
        let big = pow(v, mk) * pow(v, pm);
        assert(t * big == (t * pow(v, mk)) * pow(v, pm)) by (nonlinear_arith)
            requires big == pow(v, mk) * pow(v, pm);
        lemma_mul_mod_noop_right(t * pow(v, mk), pow(v, pm), qm());
        assert((t * pow(v, mk)) * 1 == t * pow(v, mk));
        lemma_add_mod_noop(dsum(x, r, s, v, k + per, m), t * big, qm());
        lemma_add_mod_noop(dsum(x, r, s, v, k, m), t * pow(v, mk), qm());
    }
}

/// `(a + b*c) mod q` only depends on the residues of `a`, `b`, `c`.
pub proof fn lemma_mod_mul_add(a: int, b: int, c: int)
    ensures
        (a + b * c) % qm() == (a % qm() + ((b % qm()) * (c % qm())) % qm()) % qm(),
{
    lemma_mul_mod_noop(b, c, qm());
    lemma_add_mod_noop(a, b * c, qm());
    lemma_mod_twice(a, qm());
}

/// One butterfly: the transform of a block of size `2L` from the transforms of
/// its even-indexed and odd-indexed halves.
pub proof fn lemma_butterfly(x: Seq<int>, r: int, s2: nat, root: int, l: nat, j: nat, e_mod: int, o_mod: int, wj: int)
    requires
        j < l,
        e_mod == dsum(x, r, (2 * s2) as int, pow(root, 2 * s2), j, l) % qm(),
        o_mod == dsum(x, r + s2, (2 * s2) as int, pow(root, 2 * s2), j, l) % qm(),
        wj == pow(pow(root, s2), j) % qm(),
        pow(pow(root, s2), l) % qm() == qm() - 1,
    ensures
        (e_mod + (o_mod * wj) % qm()) % qm() == dsum(x, r, s2 as int, pow(root, s2), j, 2 * l) % qm(),
        (e_mod + qm() - (o_mod * wj) % qm()) % qm() == dsum(x, r, s2 as int, pow(root, s2), j + l, 2 * l) % qm(),
{
    let q = qm();
    let w = pow(root, s2);
    lemma_pow_adds(root, s2, s2);
    assert(pow(root, 2 * s2) == w * w);
    let v = w * w;
    // first half
    lemma_dsum_split(x, r, s2 as int, w, j, l);
    let e0 = dsum(x, r, (2 * s2) as int, v, j, l);
    let o0 = dsum(x, r + s2, (2 * s2) as int, v, j, l);
    lemma_mod_mul_add(e0, pow(w, j), o0);
    lemma_mul_is_commutative(wj, o_mod);
    // the period of v is l: v^l = (w^l)^2 = 1 (mod q)
    lemma_square_is_pow2(w);
    lemma_pow_multiplies(w, 2, l);
    lemma_pow_adds(w, l, l);
    assert(pow(v, l) == pow(w, l) * pow(w, l));
    lemma_mul_mod_noop(pow(w, l), pow(w, l), q);
    assert((12288int * 12288int) % 12289 == 1);
    assert(pow(v, l) % q == 1);
    lemma_dsum_period(x, r, (2 * s2) as int, v, j, l, l);
    lemma_dsum_period(x, r + s2, (2 * s2) as int, v, j, l, l);
    // second half
    lemma_dsum_split(x, r, s2 as int, w, j + l, l);
    let e1 = dsum(x, r, (2 * s2) as int, v, j + l, l);
    let o1 = dsum(x, r + s2, (2 * s2) as int, v, j + l, l);
    lemma_mod_mul_add(e1, pow(w, j + l), o1);
    lemma_pow_adds(w, j, l);
    lemma_mul_mod_noop(pow(w, j), pow(w, l), q);
    // w^(j+l) = -w^j (mod q)
    let wjl = pow(w, j + l) % q;
    assert(wjl == (wj * (q - 1)) % q);
    let t = (o_mod * wj) % q;
    assert(0 <= t < q);
    assert((o_mod * wjl) % q == (o_mod * ((wj * (q - 1)) % q)) % q);
    lemma_mul_mod_noop_right(o_mod, wj * (q - 1), q);
    assert(o_mod * (wj * (q - 1)) == (o_mod * wj) * q - o_mod * wj) by (nonlinear_arith);
    lemma_mod_multiples_vanish(o_mod * wj, -(o_mod * wj), q);
    assert((o_mod * wjl) % q == (-(o_mod * wj)) % q);
    lemma_sub_mod_noop(0, o_mod * wj, q);
    assert((o_mod * wjl) % q == (0 - t) % q);
    lemma_mod_twice(o1, q);
    lemma_mul_is_commutative(wjl, o_mod);
    assert((e1 + pow(w, j + l) * o1) % q == (e_mod + ((0 - t) % q)) % q);
    lemma_add_mod_noop(e_mod, 0 - t, q);
    lemma_mod_twice(e_mod, q);
    lemma_mod_add_multiples_vanish(e_mod - t, q);
}

/// Residues of a coefficient array, as integers.
pub open spec fn to_ints(a: Seq<u16>) -> Seq<int> {
    a.map_values(|v: u16| v as int)
}

/// The value a stage of block size `lvl` (stride `st = n / lvl`) leaves at offset
/// `j` of block `b`: the size-`lvl` transform of the subsequence of `x` that the
/// bit-reversed order places in that block.
pub open spec fn stage_val(x: Seq<int>, root: int, lvl: int, st: int, b: int, j: int) -> int {
    dsum(x, rev_in(b, st), st, pow(root, st as nat), j as nat, lvl as nat) % qm()
}

/// Offset `j` of block `b` holds its stage value.
pub open spec fn at_level(a: Seq<u16>, x: Seq<int>, root: int, lvl: int, st: int, b: int, j: int) -> bool {
    a[b * lvl + j] as int == stage_val(x, root, lvl, st, b, j)
}

/// Block positions: an earlier block ends before a later one starts.
pub proof fn lemma_block_order(b1: int, j1: int, b2: int, len: int)
    requires
        0 <= b1 < b2,
        0 <= j1 < len,
    ensures
        b1 * len + j1 < b2 * len,
{
    assert(b1 * len + j1 < b2 * len) by (nonlinear_arith)
        requires 0 <= b1 < b2, 0 <= j1 < len;
}

/// Powers of `-1 = q - 1`.
pub proof fn lemma_pow_minus_one(e: nat)
    ensures
        pow(qm() - 1, e) % qm() == if e % 2 == 0 { 1int } else { qm() - 1 },
    decreases e,
{
    if e == 0 {
        lemma_pow0(qm() - 1);
    } else {
        lemma_pow_minus_one((e - 1) as nat);
        lemma_pow_adds(qm() - 1, 1, (e - 1) as nat);
        lemma_pow1(qm() - 1);
        lemma_mul_mod_noop_right(qm() - 1, pow(qm() - 1, (e - 1) as nat), qm());
        assert((12288int * 12288int) % 12289 == 1);
        assert((12288int * 1) % 12289 == 12288);
    }
}

/// `x` with its `i`-th entry multiplied by `z^i`, reduced mod q.
pub open spec fn twist(x: Seq<int>, z: int) -> Seq<int> {
    Seq::new(x.len(), |i: int| (x[i] * pow(z, i as nat)) % qm())
}

/// The whole transform of `x` with root `w`.
pub open spec fn dft_seq(x: Seq<int>, w: int) -> Seq<int> {
    Seq::new(x.len(), |k: int| dft(x, w, k as nat))
}

/// Entry-wise product mod q.
pub open spec fn pointwise(x: Seq<int>, y: Seq<int>) -> Seq<int> {
    Seq::new(x.len(), |k: int| (x[k] * y[k]) % qm())
}

/// Every entry multiplied by `c`, reduced mod q.
pub open spec fn scaled(x: Seq<int>, c: int) -> Seq<int> {
    Seq::new(x.len(), |k: int| (x[k] * c) % qm())
}

/// The primitive `2n`-th root of unity used for dimension `n`:
/// `11^((q-1)/(2n)) mod q`, 11 being the least quadratic non-residue.
pub open spec fn spec_psi(n: nat) -> int {
    pow(11, (6144int / (n as int)) as nat) % 12289
}

/// `psi^(q-2)`, the inverse of psi by Fermat.
pub open spec fn spec_psi_inv(n: nat) -> int {
    pow(spec_psi(n), 12287) % qm()
}

/// `omega = psi^2`, a primitive `n`-th root of unity.
pub open spec fn spec_omega(n: nat) -> int {
    pow(spec_psi(n), 2) % qm()
}

/// `omega^(q-2)`.
pub open spec fn spec_omega_inv(n: nat) -> int {
    pow(spec_omega(n), 12287) % qm()
}

/// `n^(q-2)`.
pub open spec fn spec_n_inv(n: nat) -> int {
    pow(n as int, 12287) % qm()
}

/// The product that the transform pipeline computes: twist both inputs by
/// psi^i, transform with omega, multiply pointwise, transform back with
/// omega^-1, scale by n^-1, untwist by psi^-i.
pub open spec fn ntt_product(a: Seq<int>, b: Seq<int>) -> Seq<int> {
    let n = a.len();
    let ah = dft_seq(twist(a, spec_psi(n)), spec_omega(n));
    let bh = dft_seq(twist(b, spec_psi(n)), spec_omega(n));
    let c = scaled(dft_seq(pointwise(ah, bh), spec_omega_inv(n)), spec_n_inv(n));
    twist(c, spec_psi_inv(n))
}

} // verus!
