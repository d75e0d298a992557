//! Negacyclic Number-Theoretic Transform over Z_q, q = 12289.
//!
//! Ring: Z_q[X] / (X^n + 1). Multiplication is done by
//!   1. twisting each coefficient with psi^i
//!   2. forward NTT with omega = psi^2
//!   3. pointwise product
//!   4. inverse NTT with omega^-1, scaled by n^-1
//!   5. untwisting with psi^-i

use vstd::prelude::*;
use vstd::arithmetic::div_mod::*;
use vstd::arithmetic::mul::*;
use vstd::arithmetic::power::*;

use crate::field::{lemma_val_range, FieldElement, Q};
use crate::ring::{lemma_transform_product, neg_mul};
use crate::ntt_math::{at_level, dft_seq, lemma_pow_minus_one, ntt_product, pointwise, scaled, spec_n_inv, spec_omega, spec_omega_inv, spec_psi, spec_psi_inv, twist, dft, dsum, is_pow2, lemma_block_order, lemma_butterfly, lemma_rev_in_bound, lemma_rev_in_children, qm, rev_in, stage_val, to_ints};

verus! {

/// Number of coefficients in the default parameter set.
pub const N: usize = 512;

/// A polynomial with `N` coefficients in Montgomery form.
#[derive(Clone, Debug, PartialEq, Eq)]
pub struct Poly<const N: usize> {
    pub coeffs: [FieldElement; N],
}

impl<const N: usize> Poly<N> {
    /// The coefficients as residues in `[0, q)`.
    pub open spec fn vals(self) -> Seq<int> {
        self.coeffs@.map_values(|c: FieldElement| c.val())
    }

    /// The all-zero polynomial.
    pub fn zero() -> (r: Poly<N>)
        ensures
            r.vals() == Seq::new(N as nat, |i: int| 0int),
    {
        let z = FieldElement::zero();
        let coeffs = [z; N];
        proof {
            vstd::array::axiom_spec_array_fill_for_copy_type::<FieldElement, N>(z);
        }
        let r = Poly { coeffs };
        assert forall|i: int| 0 <= i < N implies #[trigger] r.vals()[i] == 0int by {
            assert(r.coeffs@[i] == z);
            assert(r.vals()[i] == r.coeffs@[i].val());
        }
        assert(r.vals() =~= Seq::new(N as nat, |i: int| 0int));
        r
    }

    /// Wipes every coefficient, so that secret polynomials (s, e, r, the
    /// decrypted message candidate) do not linger in memory.
    pub fn zeroize(&mut self)
        ensures
            final(self).vals() == Seq::new(N as nat, |i: int| 0int),
    {
        let mut i: usize = 0;
        while i < N
            invariant
                0 <= i <= N,
                forall|j: int| 0 <= j < i ==> (#[trigger] self.coeffs@[j]).val() == 0,
            decreases N - i,
        {
            let ghost before = self.coeffs@;
            let mut c = self.coeffs[i];
            c.zeroize();
            self.coeffs[i] = c;
            proof {
                assert forall|j: int| 0 <= j < i + 1 implies (#[trigger] self.coeffs@[j]).val() == 0 by {
                    if j < i {
                        assert(before[j].val() == 0);
                    }
                }
            }
            i += 1;
        }
        assert(self.vals() =~= Seq::new(N as nat, |i: int| 0int));
    }

    /// Coefficient-wise sum.
    pub fn add(&self, other: &Poly<N>) -> (r: Poly<N>)
        ensures
            r.vals() == Seq::new(N as nat, |i: int| (self.vals()[i] + other.vals()[i]) % (Q as int)),
    {
        let mut out = Poly::zero();
        for i in 0..N
            invariant
                forall|j: int| 0 <= j < i ==> #[trigger] out.coeffs@[j].val() == (self.coeffs@[j].val() + other.coeffs@[j].val()) % (Q as int),
        {
            out.coeffs[i] = self.coeffs[i].add(other.coeffs[i]);
        }
        assert(out.vals() =~= Seq::new(N as nat, |i: int| (self.vals()[i] + other.vals()[i]) % (Q as int)));
        out
    }

    /// Coefficient-wise difference.
    pub fn sub(&self, other: &Poly<N>) -> (r: Poly<N>)
        ensures
            r.vals() == Seq::new(N as nat, |i: int| (self.vals()[i] - other.vals()[i]) % (Q as int)),
    {
        let mut out = Poly::zero();
        for i in 0..N
            invariant
                forall|j: int| 0 <= j < i ==> #[trigger] out.coeffs@[j].val() == (self.coeffs@[j].val() - other.coeffs@[j].val()) % (Q as int),
        {
            out.coeffs[i] = self.coeffs[i].sub(other.coeffs[i]);
        }
        assert(out.vals() =~= Seq::new(N as nat, |i: int| (self.vals()[i] - other.vals()[i]) % (Q as int)));
        out
    }

    /// Multiply by a scalar field element.
    pub fn scale(&self, k: FieldElement) -> (r: Poly<N>)
        ensures
            r.vals() == Seq::new(N as nat, |i: int| (self.vals()[i] * k.val()) % (Q as int)),
    {
        let mut out = Poly::zero();
        for i in 0..N
            invariant
                forall|j: int| 0 <= j < i ==> #[trigger] out.coeffs@[j].val() == (self.coeffs@[j].val() * k.val()) % (Q as int),
        {
            out.coeffs[i] = self.coeffs[i].mul(k);
        }
        assert(out.vals() =~= Seq::new(N as nat, |i: int| (self.vals()[i] * k.val()) % (Q as int)));
        out
    }
}

/// One square-and-multiply step preserves `result * b^e (mod m)`.
proof fn lemma_square_multiply_step(result: int, b: int, e: nat, m: int)
    requires
        m > 0,
    ensures
        e % 2 == 1 ==> (((result * b) % m) * pow((b * b) % m, e / 2)) % m == (result * pow(b, e)) % m,
        e % 2 == 0 ==> (result * pow((b * b) % m, e / 2)) % m == (result * pow(b, e)) % m,
{
    lemma_pow_mod_noop(b * b, e / 2, m);
    lemma_square_is_pow2(b);
    lemma_pow_multiplies(b, 2, e / 2);
    let p = pow(b * b, e / 2);
    assert(pow(b * b, e / 2) == pow(b, 2 * (e / 2)));
    if e % 2 == 1 {
        lemma_pow_adds(b, 1, 2 * (e / 2));
        lemma_pow1(b);
        assert(pow(b, e) == b * p);
        lemma_mul_mod_noop_left(result * b, pow((b * b) % m, e / 2), m);
        lemma_mul_mod_noop_right(result * b, pow((b * b) % m, e / 2), m);
        lemma_mul_mod_noop_right(result * b, p, m);
        assert((result * b) * p == result * (b * p)) by (nonlinear_arith);
    } else {
        assert(pow(b, e) == p);
        lemma_mul_mod_noop_right(result, pow((b * b) % m, e / 2), m);
        lemma_mul_mod_noop_right(result, p, m);
    }
}

/// Modular exponentiation by square-and-multiply.
pub fn pow_mod(base: u32, exp: u32, m: u32) -> (r: u32)
    requires
        m > 0,
    ensures
        r == (if exp == 0 { 1int } else { pow(base as int, exp as nat) % (m as int) }),
{
    let mut result: u64 = 1;
    let mut b = (base as u64) % (m as u64);
    let mut e = exp;
    let mm = m as u64;
    proof {
        lemma_pow_mod_noop(base as int, exp as nat, m as int);
        lemma_mul_mod_noop_left(1, pow(b as int, e as nat), m as int);
    }
    while e > 0
        invariant
            mm == m,
            m > 0,
            result < mm || (result == 1 && (e > 0 || exp == 0)),
            e <= exp,
            exp == 0 ==> result == 1,
            b < mm,
            (result * pow(b as int, e as nat)) % (m as int) == pow(base as int, exp as nat) % (m as int),
        decreases e,
    {
        proof {
            lemma_square_multiply_step(result as int, b as int, e as nat, m as int);
            assert(b * b <= (mm - 1) * (mm - 1)) by (nonlinear_arith) requires b < mm;
            assert(result * b <= 0xffff_ffff * (mm - 1)) by (nonlinear_arith) requires b < mm, result <= 0xffff_ffff;
            assert((mm - 1) * (mm - 1) < 0x1_0000_0000 * 0x1_0000_0000) by (nonlinear_arith) requires mm <= 0xffff_ffff;
            assert(0xffff_ffff * (mm - 1) < 0x1_0000_0000 * 0x1_0000_0000) by (nonlinear_arith) requires mm <= 0xffff_ffff;
        }
        let ghost e_prev = e;
        if e & 1 == 1 {
            result = (result * b) % mm;
        }
        b = (b * b) % mm;
        proof {
            assert((e_prev & 1 == 1) == (e_prev % 2 == 1)) by (bit_vector);
        }
        e >>= 1;
        proof {
            assert(e == e_prev / 2) by (bit_vector) requires e == e_prev >> 1;
        }
    }
    proof {
        lemma_pow0(b as int);
        if exp > 0 {
            assert(result < mm);
            assert(result * 1 == result);
            lemma_small_mod(result as nat, m as nat);
        }
    }
    result as u32
}

/// `2^k`.
spec fn exp2(k: nat) -> nat
    decreases k,
{
    if k == 0 {
        1
    } else {
        2 * exp2((k - 1) as nat)
    }
}

/// `v` squared `k` times, mod q.
spec fn square_chain(v: int, k: nat) -> int
    decreases k,
{
    if k == 0 {
        v
    } else {
        square_chain((v * v) % 12289, (k - 1) as nat)
    }
}

/// `g^(e * 2^k) mod q` is `g^e mod q` squared `k` times.
proof fn lemma_square_chain(g: int, e: nat, k: nat)
    ensures
        pow(g, e * exp2(k)) % 12289 == square_chain(pow(g, e) % 12289, k),
    decreases k,
{
    if k == 0 {
        assert(exp2(0) == 1);
        assert(e * exp2(0) == e);
    } else {
        let j = (k - 1) as nat;
        lemma_square_chain(g, 2 * e, j);
        lemma_pow_adds(g, e, e);
        assert((e + e) as nat == 2 * e);
        lemma_mul_mod_noop(pow(g, e), pow(g, e), 12289);
        let v = pow(g, e) % 12289;
        assert(square_chain(v, k) == square_chain((v * v) % 12289, j));
        assert(e * exp2(k) == (2 * e) * exp2(j)) by (nonlinear_arith)
            requires exp2(k) == 2 * exp2(j);
    }
}

/// `g^6144 mod q` for a base `g`: `g^3` squared eleven times.
proof fn lemma_pow6144(g: int)
    ensures
        pow(g, 6144) % 12289 == square_chain(pow(g, 3) % 12289, 11),
{
    lemma_square_chain(g, 3, 11);
    reveal_with_fuel(exp2, 12);
}

/// One squaring step of the chain.
proof fn lemma_square_step(v: int, w: int, k: nat)
    requires
        (v * v) % 12289 == w,
        k > 0,
    ensures
        square_chain(v, k) == square_chain(w, (k - 1) as nat),
{
}

/// `2^6144 mod q`.
proof fn lemma_base_2()
    ensures
        pow(2, 6144) % 12289 == 1,
{
    reveal_with_fuel(pow, 4);
    assert(pow(2, 3) == 8);
    lemma_square_step(8, 64, 11);
    lemma_square_step(64, 4096, 10);
    lemma_square_step(4096, 2731, 9);
    lemma_square_step(2731, 11227, 8);
    lemma_square_step(11227, 9545, 7);
    lemma_square_step(9545, 8668, 6);
    lemma_square_step(8668, 11567, 5);
    lemma_square_step(11567, 5146, 4);
    lemma_square_step(5146, 10810, 3);
    lemma_square_step(10810, 12288, 2);
    lemma_square_step(12288, 1, 1);
    lemma_pow6144(2);
}

/// `3^6144 mod q`.
proof fn lemma_base_3()
    ensures
        pow(3, 6144) % 12289 == 1,
{
    reveal_with_fuel(pow, 4);
    assert(pow(3, 3) == 27);
    lemma_square_step(27, 729, 11);
    lemma_square_step(729, 3014, 10);
    lemma_square_step(3014, 2625, 9);
    lemma_square_step(2625, 8785, 8);
    lemma_square_step(8785, 1305, 7);
    lemma_square_step(1305, 7143, 6);
    lemma_square_step(7143, 10810, 5);
    lemma_square_step(10810, 12288, 4);
    lemma_square_step(12288, 1, 3);
    lemma_square_step(1, 1, 2);
    lemma_square_step(1, 1, 1);
    lemma_pow6144(3);
}

/// `5^6144 mod q`.
proof fn lemma_base_5()
    ensures
        pow(5, 6144) % 12289 == 1,
{
    reveal_with_fuel(pow, 4);
    assert(pow(5, 3) == 125);
    lemma_square_step(125, 3336, 11);
    lemma_square_step(3336, 7351, 10);
    lemma_square_step(7351, 2468, 9);
    lemma_square_step(2468, 7969, 8);
    lemma_square_step(7969, 7698, 7);
    lemma_square_step(7698, 1646, 6);
    lemma_square_step(1646, 5736, 5);
    lemma_square_step(5736, 4043, 4);
    lemma_square_step(4043, 1479, 3);
    lemma_square_step(1479, 12288, 2);
    lemma_square_step(12288, 1, 1);
    lemma_pow6144(5);
}

/// `7^6144 mod q`.
proof fn lemma_base_7()
    ensures
        pow(7, 6144) % 12289 == 1,
{
    reveal_with_fuel(pow, 4);
    assert(pow(7, 3) == 343);
    lemma_square_step(343, 7048, 11);
    lemma_square_step(7048, 2166, 10);
    lemma_square_step(2166, 9447, 9);
    lemma_square_step(9447, 3091, 8);
    lemma_square_step(3091, 5728, 7);
    lemma_square_step(5728, 10643, 6);
    lemma_square_step(10643, 5736, 5);
    lemma_square_step(5736, 4043, 4);
    lemma_square_step(4043, 1479, 3);
    lemma_square_step(1479, 12288, 2);
    lemma_square_step(12288, 1, 1);
    lemma_pow6144(7);
}

/// `11^6144 mod q`.
proof fn lemma_base_11()
    ensures
        pow(11, 6144) % 12289 == 12288,
{
    reveal_with_fuel(pow, 4);
    assert(pow(11, 3) == 1331);
    lemma_square_step(1331, 1945, 11);
    lemma_square_step(1945, 10302, 10);
    lemma_square_step(10302, 3400, 9);
    lemma_square_step(3400, 8340, 8);
    lemma_square_step(8340, 12149, 7);
    lemma_square_step(12149, 7311, 6);
    lemma_square_step(7311, 5860, 5);
    lemma_square_step(5860, 4134, 4);
    lemma_square_step(4134, 8246, 3);
    lemma_square_step(8246, 1479, 2);
    lemma_square_step(1479, 12288, 1);
    lemma_pow6144(11);
}

/// `g^6144 mod q` for the prime bases up to 11.
proof fn lemma_prime_bases()
    ensures
        pow(2, 6144) % 12289 == 1,
        pow(3, 6144) % 12289 == 1,
        pow(5, 6144) % 12289 == 1,
        pow(7, 6144) % 12289 == 1,
        pow(11, 6144) % 12289 == 12288,
{
    lemma_base_2();
    lemma_base_3();
    lemma_base_5();
    lemma_base_7();
    lemma_base_11();
}

/// `(x y)^6144 = x^6144 y^6144 (mod q)`.
proof fn lemma_pow6144_product(x: int, y: int)
    ensures
        pow(x * y, 6144) % 12289 == ((pow(x, 6144) % 12289) * (pow(y, 6144) % 12289)) % 12289,
{
    lemma_pow_distributes(x, y, 6144);
    lemma_mul_mod_noop(pow(x, 6144), pow(y, 6144), 12289);
}

/// The residues 2..=10 are quadratic residues mod q and 11 is the least non-residue.
pub(crate) proof fn lemma_least_non_residue()
    ensures
        forall|g: int| 2 <= g < 11 ==> #[trigger] pow(g, 6144) % 12289 == 1,
        pow(11, 6144) % 12289 == 12288,
{
    lemma_prime_bases();
    lemma_pow6144_product(2, 2);
    lemma_pow6144_product(2, 3);
    lemma_pow6144_product(2, 4);
    lemma_pow6144_product(3, 3);
    lemma_pow6144_product(2, 5);
    assert forall|g: int| 2 <= g < 11 implies #[trigger] pow(g, 6144) % 12289 == 1 by {
        if g == 2 {} else if g == 3 {} else if g == 4 {} else if g == 5 {} else if g == 6 {}
        else if g == 7 {} else if g == 8 {} else if g == 9 {} else {}
    }
}

/// `psi^n = -1 (mod q)` for every admissible dimension.
pub proof fn lemma_psi_root(n: nat)
    requires
        0 < n,
        6144int % (n as int) == 0,
    ensures
        pow(spec_psi(n), n) % qm() == qm() - 1,
{
    let k = (6144int / (n as int)) as nat;
    assert(k * n == 6144) by {
        lemma_fundamental_div_mod(6144, n as int);
        lemma_mul_is_commutative(k as int, n as int);
    }
    lemma_pow_mod_noop(pow(11, k), n, 12289);
    lemma_pow_multiplies(11, k, n);
    lemma_least_non_residue();
}

/// Finds a primitive 2n-th root of unity psi with psi^n = -1 (mod q): the first
/// quadratic non-residue g gives psi = g^((q-1)/(2n)).
fn find_primitive_root_2n(q: u32, n: u32) -> (r: u16)
    requires
        q == Q,
        0 < n,
        6144int % (n as int) == 0,
    ensures
        r == spec_psi(n as nat),
        pow(r as int, n as nat) % (Q as int) == Q - 1,
{
    proof {
        lemma_least_non_residue();
        if n > 6144 {
            lemma_small_mod(6144, n as nat);
        }
    }
    let mut g: u32 = 2;
    loop
        invariant
            q == Q,
            0 < n,
            6144int % (n as int) == 0,
            2 <= g <= 11,
            n <= 6144,
            forall|h: int| 2 <= h < 11 ==> #[trigger] pow(h, 6144) % 12289 == 1,
            pow(11, 6144) % 12289 == 12288,
        decreases 11 - g,
    {
        // g must be a quadratic non-residue
        let half = (q - 1) / 2;
        let t = pow_mod(g, half, q);
        proof {
            assert(half == 6144);
            if g < 11 {
                assert(pow(g as int, 6144) % 12289 == 1);
            }
        }
        if t == q - 1 {
            let k_exec = (q - 1) / (2 * n);
            let cand = pow_mod(g, k_exec, q);
            proof {
                assert(g == 11);
                let k = (6144int / (n as int)) as nat;
                assert(k_exec == k) by {
                    lemma_div_denominator(12288, 2, n as int);
                }
                assert(k * n == 6144) by {
                    lemma_fundamental_div_mod(6144, n as int);
                    lemma_mul_is_commutative(k as int, n as int);
                }
                assert(k > 0) by (nonlinear_arith)
                    requires k * n == 6144;
                lemma_pow_mod_noop(pow(11, k), n as nat, 12289);
                lemma_pow_multiplies(11, k, n as nat);
                assert(cand == spec_psi(n as nat));
            }
            let t2 = pow_mod(cand, n, q);
            proof {
                assert(t2 == q - 1);
            }
            if t2 == q - 1 {
                return cand as u16;
            }
        }
        g = g + 1;
    }
}

/// Bit reversal of `p` within `[0, n)`, `n` a power of two.
fn bit_reverse(p: usize, n: usize) -> (r: usize)
    requires
        is_pow2(n as int),
        p < n,
    ensures
        r as int == rev_in(p as int, n as int),
        r < n,
{
    let mut acc: usize = 0;
    let mut b = p;
    let mut s = n;
    proof {
        lemma_rev_in_bound(p as int, n as int);
    }
    while s > 1
        invariant
            is_pow2(s as int),
            rev_in(p as int, n as int) == acc + rev_in(b as int, s as int),
            rev_in(p as int, n as int) < n,
            0 <= rev_in(b as int, s as int),
        decreases s,
    {
        proof {
            assert(is_pow2(s as int / 2));
            lemma_rev_in_bound(b as int / 2, s as int / 2);
            assert(rev_in(b as int, s as int) == (b as int % 2) * (s as int / 2) + rev_in(b as int / 2, s as int / 2));
            let bit = b % 2;
            assert(bit * (s / 2) <= s / 2) by (nonlinear_arith)
                requires bit <= 1;
        }
        acc = acc + (b % 2) * (s / 2);
        b = b / 2;
        s = s / 2;
    }
    acc
}

/// Precomputed twiddle factors for the negacyclic NTT.
pub struct NttContext<const N: usize> {
    /// psi^i mod q, used for twisting.
    psi_powers: [u16; N],
    /// psi^-i mod q, used for untwisting.
    psi_inv_powers: [u16; N],
    /// psi, a primitive 2n-th root of unity (psi^n = -1).
    psi: u16,
    /// omega = psi^2, a primitive n-th root of unity.
    omega: u16,
    omega_inv: u16,
    n_inv: u16,
}

impl<const N: usize> NttContext<N> {
    /// The tables hold the powers of the dimension's roots.
    #[verifier::type_invariant]
    spec fn wf(self) -> bool {
        self.holds_twiddles()
    }

    /// The context is the one for dimension `N`: psi is the primitive
    /// `2N`-th root `spec_psi(N)`, omega = psi^2, omega^-1, n^-1 are the
    /// values for `N`, and the tables hold `psi^i` and `psi^-i` mod q for
    /// every `i < N`.
    pub closed spec fn holds_twiddles(self) -> bool {
        &&& 0 < N
        &&& 6144int % (N as int) == 0
        &&& self.psi as int == spec_psi(N as nat)
        &&& self.omega as int == spec_omega(N as nat)
        &&& self.omega_inv as int == spec_omega_inv(N as nat)
        &&& self.n_inv as int == spec_n_inv(N as nat)
        &&& forall|i: int| 0 <= i < N ==> #[trigger] self.psi_powers@[i] as int == pow(spec_psi(N as nat), i as nat) % qm()
        &&& forall|i: int| 0 <= i < N ==> #[trigger] self.psi_inv_powers@[i] as int == pow(spec_psi_inv(N as nat), i as nat) % qm()
    }

    /// Builds the context (deterministic, no secret input). The dimension must
    /// divide `(q - 1) / 2` so that a primitive `2n`-th root of unity exists.
    pub fn new() -> (r: NttContext<N>)
        requires
            0 < N,
            6144int % (N as int) == 0,
        ensures
            r.holds_twiddles(),
    {
        proof {
            if N > 6144 {
                lemma_small_mod(6144, N as nat);
            }
        }
        let psi = find_primitive_root_2n(Q, N as u32);
        let psi_inv = pow_mod(psi as u32, Q - 2, Q) as u16; // Fermat inverse
        let omega = pow_mod(psi as u32, 2, Q) as u16;
        let omega_inv = pow_mod(omega as u32, Q - 2, Q) as u16;
        let n_inv = pow_mod(N as u32, Q - 2, Q) as u16;
        proof {
            lemma_pow_mod_noop(spec_psi(N as nat) * 1, 0, qm());
        }

        let mut psi_powers = [0u16; N];
        let mut psi_inv_powers = [0u16; N];
        let mut cur: u64 = 1;
        let mut i: usize = 0;
        proof {
            lemma_pow0(psi as int);
        }
        while i < N
            invariant
                0 <= i <= N,
                psi as int == spec_psi(N as nat),
                (psi as int) < qm(),
                cur as int == pow(psi as int, i as nat) % qm(),
                forall|j: int| 0 <= j < i ==> #[trigger] psi_powers@[j] as int == pow(spec_psi(N as nat), j as nat) % qm(),
            decreases N - i,
        {
            psi_powers.set(i, cur as u16);
            proof {
                assert((cur as int) * (psi as int) < 12289 * 12289) by (nonlinear_arith)
                    requires (cur as int) < 12289, (psi as int) < 12289;
                lemma_pow_adds(psi as int, i as nat, 1);
                lemma_pow1(psi as int);
                lemma_mul_mod_noop_left(pow(psi as int, i as nat), psi as int, qm());
            }
            cur = (cur * psi as u64) % Q as u64;
            i = i + 1;
        }
        cur = 1;
        i = 0;
        proof {
            lemma_pow0(psi_inv as int);
        }
        while i < N
            invariant
                0 <= i <= N,
                psi_inv as int == spec_psi_inv(N as nat),
                (psi_inv as int) < qm(),
                cur as int == pow(psi_inv as int, i as nat) % qm(),
                forall|j: int| 0 <= j < i ==> #[trigger] psi_inv_powers@[j] as int == pow(spec_psi_inv(N as nat), j as nat) % qm(),
            decreases N - i,
        {
            psi_inv_powers.set(i, cur as u16);
            proof {
                assert((cur as int) * (psi_inv as int) < 12289 * 12289) by (nonlinear_arith)
                    requires (cur as int) < 12289, (psi_inv as int) < 12289;
                lemma_pow_adds(psi_inv as int, i as nat, 1);
                lemma_pow1(psi_inv as int);
                lemma_mul_mod_noop_left(pow(psi_inv as int, i as nat), psi_inv as int, qm());
            }
            cur = (cur * psi_inv as u64) % Q as u64;
            i = i + 1;
        }

        NttContext { psi_powers, psi_inv_powers, psi, omega, omega_inv, n_inv }
    }

    /// The primitive `2n`-th root of unity in use.
    pub fn psi(&self) -> (r: u16)
        ensures
            r as int == spec_psi(N as nat),
            pow(r as int, N as nat) % qm() == qm() - 1,
    {
        proof {
            use_type_invariant(self);
            lemma_psi_root(N as nat);
        }
        self.psi
    }

    /// Negacyclic polynomial multiplication mod (X^n + 1), by the transform pipeline.
    pub fn mul(&self, a: &Poly<N>, b: &Poly<N>) -> (r: Poly<N>)
        requires
            is_pow2(N as int),
        ensures
            r.vals() == neg_mul(a.vals(), b.vals()),
    {
        proof {
            use_type_invariant(self);
            if N > 6144 {
                lemma_small_mod(6144, N as nat);
            }
        }
        let ghost n = N as nat;
        let qq: u64 = Q as u64;
        let mut a_tw = [0u16; N];
        let mut b_tw = [0u16; N];

        // 1. Twist
        let mut i: usize = 0;
        while i < N
            invariant
                0 <= i <= N,
                qq == 12289,
                forall|j: int| 0 <= j < N ==> #[trigger] self.psi_powers@[j] as int == pow(spec_psi(N as nat), j as nat) % qm(),
                forall|j: int| 0 <= j < i ==> #[trigger] a_tw@[j] as int == twist(a.vals(), spec_psi(N as nat))[j],
                forall|j: int| 0 <= j < i ==> #[trigger] b_tw@[j] as int == twist(b.vals(), spec_psi(N as nat))[j],
            decreases N - i,
        {
            let av = a.coeffs[i].to_plain() as u64;
            let bv = b.coeffs[i].to_plain() as u64;
            let pw = self.psi_powers[i] as u64;
            proof {
                assert(av * pw < 12289 * 12289) by (nonlinear_arith) requires av < 12289, pw < 12289;
                assert(bv * pw < 12289 * 12289) by (nonlinear_arith) requires bv < 12289, pw < 12289;
                lemma_mul_mod_noop_right(av as int, pow(spec_psi(N as nat), i as nat), qm());
                lemma_mul_mod_noop_right(bv as int, pow(spec_psi(N as nat), i as nat), qm());
            }
            a_tw.set(i, ((av * pw) % qq) as u16);
            b_tw.set(i, ((bv * pw) % qq) as u16);
            i = i + 1;
        }
        let ghost ta = twist(a.vals(), spec_psi(n));
        let ghost tb = twist(b.vals(), spec_psi(n));
        assert(to_ints(a_tw@) =~= ta);
        assert(to_ints(b_tw@) =~= tb);
        proof {
            if N >= 2 {
                // omega^(n/2) = psi^n = -1, and the same for omega^-1
                lemma_pow_mod_noop(pow(spec_psi(n), 2), (N / 2) as nat, qm());
                lemma_pow_multiplies(spec_psi(n), 2, (N / 2) as nat);
                assert(2 * ((N / 2) as nat) == N) by {
                    assert(N % 2 == 0);
                }
                lemma_psi_root(n);
                assert(pow(spec_omega(n), (N / 2) as nat) % qm() == qm() - 1);
                lemma_pow_mod_noop(pow(spec_omega(n), 12287), (N / 2) as nat, qm());
                lemma_pow_multiplies(spec_omega(n), 12287, (N / 2) as nat);
                lemma_pow_multiplies(spec_omega(n), (N / 2) as nat, 12287);
                lemma_mul_is_commutative(12287, (N / 2) as int);
                lemma_pow_mod_noop(pow(spec_omega(n), (N / 2) as nat), 12287, qm());
                lemma_pow_minus_one(12287);
                assert(pow(spec_omega_inv(n), (N / 2) as nat) % qm() == qm() - 1);
            }
        }

        // 2. Forward NTT
        self.ntt_plain(&mut a_tw, self.omega);
        self.ntt_plain(&mut b_tw, self.omega);
        let ghost ah = dft_seq(ta, spec_omega(n));
        let ghost bh = dft_seq(tb, spec_omega(n));

        // 3. Pointwise product
        let mut c_hat = [0u16; N];
        i = 0;
        while i < N
            invariant
                0 <= i <= N,
                qq == 12289,
                ta.len() == N && tb.len() == N,
                ah.len() == N && bh.len() == N,
                n == N,
                forall|j: int| 0 <= j < N ==> (#[trigger] a_tw@[j] as int) == ah[j],
                forall|j: int| 0 <= j < N ==> (#[trigger] b_tw@[j] as int) == bh[j],
                forall|j: int| 0 <= j < i ==> (#[trigger] c_hat@[j] as int) == pointwise(ah, bh)[j],
                forall|j: int| 0 <= j < N ==> (#[trigger] c_hat@[j] as int) < qm(),
            decreases N - i,
        {
            let x = a_tw[i] as u64;
            let y = b_tw[i] as u64;
            proof {
                assert(x * y < 65536 * 65536) by (nonlinear_arith) requires x < 65536, y < 65536;
            }
            let ghost before = c_hat@;
            c_hat.set(i, ((x * y) % qq) as u16);
            proof {
                assert(x as int == ah[i as int] && y as int == bh[i as int]);
                assert(c_hat@[i as int] as int == pointwise(ah, bh)[i as int]);
                assert forall|j: int| 0 <= j < i + 1 implies (#[trigger] c_hat@[j] as int) == pointwise(ah, bh)[j] by {
                    if j < i {
                        assert((before[j] as int) == pointwise(ah, bh)[j]);
                    }
                }
            }
            i = i + 1;
        }
        let ghost ph = pointwise(ah, bh);
        assert(to_ints(c_hat@) =~= ph);

        // 4. Inverse NTT + scale by n^-1
        self.ntt_plain(&mut c_hat, self.omega_inv);
        let ghost ch = dft_seq(ph, spec_omega_inv(n));
        i = 0;
        while i < N
            invariant
                0 <= i <= N,
                qq == 12289,
                ph.len() == N,
                ch.len() == N,
                n == N,
                (self.n_inv as int) == spec_n_inv(n),
                (self.n_inv as int) < qm(),
                forall|j: int| i <= j < N ==> (#[trigger] c_hat@[j] as int) == ch[j],
                forall|j: int| 0 <= j < i ==> (#[trigger] c_hat@[j] as int) == scaled(ch, spec_n_inv(n))[j],
            decreases N - i,
        {
            let x = c_hat[i] as u64;
            let y = self.n_inv as u64;
            proof {
                assert(x * y < 65536 * 65536) by (nonlinear_arith) requires x < 65536, y < 65536;
            }
            let ghost before = c_hat@;
            c_hat.set(i, ((x * y) % qq) as u16);
            proof {
                assert(x as int == ch[i as int]);
                assert(ch.len() == N);
                assert(c_hat@[i as int] as int == scaled(ch, spec_n_inv(n))[i as int]);
                assert forall|j: int| 0 <= j < i + 1 implies (#[trigger] c_hat@[j] as int) == scaled(ch, spec_n_inv(n))[j] by {
                    if j < i {
                        assert((before[j] as int) == scaled(ch, spec_n_inv(n))[j]);
                    }
                }
                assert forall|j: int| i + 1 <= j < N implies (#[trigger] c_hat@[j] as int) == ch[j] by {
                    assert((before[j] as int) == ch[j]);
                }
            }
            i = i + 1;
        }
        let ghost cs = scaled(ch, spec_n_inv(n));

        // 5. Untwist
        let mut out = Poly::zero();
        i = 0;
        while i < N
            invariant
                0 <= i <= N,
                qq == 12289,
                cs.len() == N,
                n == N,
                forall|j: int| 0 <= j < N ==> #[trigger] self.psi_inv_powers@[j] as int == pow(spec_psi_inv(N as nat), j as nat) % qm(),
                forall|j: int| 0 <= j < N ==> (#[trigger] c_hat@[j] as int) == cs[j],
                forall|j: int| 0 <= j < i ==> (#[trigger] out.coeffs@[j]).val() == twist(cs, spec_psi_inv(n))[j],
            decreases N - i,
        {
            let x = c_hat[i] as u64;
            let y = self.psi_inv_powers[i] as u64;
            proof {
                assert(x * y < 65536 * 65536) by (nonlinear_arith) requires x < 65536, y < 65536;
                lemma_mul_mod_noop_right(x as int, pow(spec_psi_inv(n), i as nat), qm());
            }
            let v = ((x * y) % qq) as u16;
            let fe = FieldElement::from_plain(v);
            proof {
                lemma_small_mod(v as nat, 12289);
            }
            let ghost before = out.coeffs@;
            out.coeffs.set(i, fe);
            proof {
                assert(x as int == cs[i as int]);
                assert(out.coeffs@[i as int].val() == twist(cs, spec_psi_inv(n))[i as int]);
                assert forall|j: int| 0 <= j < i + 1 implies (#[trigger] out.coeffs@[j]).val() == twist(cs, spec_psi_inv(n))[j] by {
                    if j < i {
                        assert(before[j].val() == twist(cs, spec_psi_inv(n))[j]);
                    }
                }
            }
            i = i + 1;
        }
        assert(out.vals() =~= ntt_product(a.vals(), b.vals()));
        proof {
            lemma_transform_product(a.vals(), b.vals());
        }
        out
    }
    /// In-place radix-2 Cooley-Tukey NTT: the inputs are put in bit-reversed
    /// order, then blocks of doubling size are combined by butterflies.
    fn ntt_plain(&self, a: &mut [u16; N], root: u16)
        requires
            is_pow2(N as int),
            1 <= N <= 6144,
            (root as int) < qm(),
            N >= 2 ==> pow(root as int, (N / 2) as nat) % qm() == qm() - 1,
            forall|i: int| 0 <= i < N ==> (#[trigger] old(a)@[i] as int) < qm(),
        ensures
            forall|k: int| 0 <= k < N ==> (#[trigger] final(a)@[k] as int) == dft(to_ints(old(a)@), root as int, k as nat),
    {
        let ghost x = to_ints(a@);
        let ghost n = N as int;
        let ghost rt = root as int;
        let qq: u64 = Q as u64;
        // bit-reversal permutation
        let src: [u16; N] = *a;
        let mut p: usize = 0;
        while p < N
            invariant
                0 <= p <= N,
                n == N,
                is_pow2(N as int),
                x == to_ints(src@),
                forall|i: int| 0 <= i < N ==> (#[trigger] src@[i] as int) < qm(),
                forall|j: int| 0 <= j < p ==> (#[trigger] a@[j] as int) == x[rev_in(j, n)],
                forall|j: int| 0 <= j < N ==> (#[trigger] a@[j] as int) < qm(),
            decreases N - p,
        {
            let rp = bit_reverse(p, N);
            assert(x[rp as int] == src@[rp as int] as int);
            let ghost a_before = a@;
            let val = src[rp];
            a.set(p, val);
            proof {
                assert(a@[p as int] == val);
                assert(val == src@[rp as int]);
                assert(rp as int == rev_in(p as int, n));
                assert forall|j: int| 0 <= j < p + 1 implies (#[trigger] a@[j] as int) == x[rev_in(j, n)] by {
                    if j < p {
                        assert((a_before[j] as int) == x[rev_in(j, n)]);
                    }
                }
                assert forall|j: int| 0 <= j < N implies (#[trigger] a@[j] as int) < qm() by {
                    assert((a_before[j] as int) < qm());
                }
            }
            p = p + 1;
        }
        // stage of block size 1: every entry holds its own (trivial) transform
        assert forall|b: int, j: int| 0 <= b < n && 0 <= j < 1 implies #[trigger] at_level(a@, x, rt, 1, n, b, j) by {
            lemma_rev_in_bound(b, n);
            lemma_pow0(pow(rt, n as nat));
            assert(j == 0);
            assert(b * 1 + j == b);
            assert(dsum(x, rev_in(b, n), n, pow(rt, n as nat), 0, 0) == 0);
            assert(n * 0 == 0);
            assert(dsum(x, rev_in(b, n), n, pow(rt, n as nat), 0, 1) == x[rev_in(b, n)]);
            lemma_small_mod(x[rev_in(b, n)] as nat, qm() as nat);
        }
        let mut length: usize = 2;
        let ghost mut lvl: int = 1;
        let ghost mut st: int = n;
        while length <= N
            invariant
                is_pow2(N as int),
                1 <= N <= 6144,
                n == N,
                rt == root,
                (root as int) < qm(),
                N >= 2 ==> pow(rt, (N / 2) as nat) % qm() == qm() - 1,
                x.len() == N,
                qq == 12289,
                length == 2 * lvl,
                lvl >= 1,
                is_pow2(st),
                st * lvl == n,
                forall|j: int| 0 <= j < N ==> (#[trigger] a@[j] as int) < qm(),
                forall|b: int, j: int| 0 <= b < st && 0 <= j < lvl ==> #[trigger] at_level(a@, x, rt, lvl, st, b, j),
            decreases N - lvl,
        {
            let ghost s2: int = st / 2;
            proof {
                assert(2 <= N);
                assert(st >= 2) by {
                    if st < 2 {
                        assert(st == 1);
                    }
                }
                assert(st % 2 == 0 && is_pow2(st / 2));
                assert(s2 * length == n) by (nonlinear_arith)
                    requires st == 2 * s2, length == 2 * lvl, st * lvl == n;
                assert(s2 >= 1);
            }
            let step = N / length;
            proof {
                lemma_div_multiples_vanish(s2, length as int);
                lemma_mul_is_commutative(s2, length as int);
                assert(step == s2);
            }
            let wlen: u64 = pow_mod(root as u32, step as u32, Q) as u64;
            let half = length / 2;
            let mut i: usize = 0;
            let ghost mut bb: int = 0;
            proof {
                // w^lvl = root^(n/2) = -1
                lemma_pow_multiplies(rt, s2 as nat, lvl as nat);
                assert(s2 * lvl == n / 2) by (nonlinear_arith)
                    requires s2 * (2 * lvl) == n, lvl >= 1;
                assert((N / 2) as nat == (s2 * lvl) as nat);
            }
            while i < N
                invariant
                    is_pow2(N as int),
                    2 <= N <= 6144,
                    n == N,
                    rt == root,
                    x.len() == N,
                    qq == 12289,
                    length == 2 * lvl,
                    half == lvl,
                    lvl >= 1,
                    st == 2 * s2,
                    s2 >= 1,
                    s2 * length == n,
                    wlen == pow(rt, s2 as nat) % qm(),
                    pow(pow(rt, s2 as nat), lvl as nat) % qm() == qm() - 1,
                    i == bb * length,
                    0 <= bb <= s2,
                    forall|j: int| 0 <= j < N ==> (#[trigger] a@[j] as int) < qm(),
                    forall|b: int, j: int| 0 <= b < bb && 0 <= j < length ==> #[trigger] at_level(a@, x, rt, length as int, s2, b, j),
                    forall|c: int, j: int| 2 * bb <= c < st && 0 <= j < lvl ==> #[trigger] at_level(a@, x, rt, lvl, st, c, j),
                decreases N - i,
            {
                proof {
                    assert(bb < s2) by {
                        if bb >= s2 {
                            assert(bb * length >= s2 * length) by (nonlinear_arith)
                                requires bb >= s2, length >= 0;
                        }
                    }
                    assert(i + length <= N) by (nonlinear_arith)
                        requires i == bb * length, bb < s2, s2 * length == n, n == N;
                }
                let ghost a0 = a@;
                let ghost r = rev_in(bb, s2);
                proof {
                    assert forall|j: int| 0 <= j < lvl implies
                        #[trigger] a0[i + j] as int == dsum(x, r, st, pow(rt, st as nat), j as nat, lvl as nat) % qm()
                        && a0[i + half + j] as int == dsum(x, r + s2, st, pow(rt, st as nat), j as nat, lvl as nat) % qm() by {
                        assert(at_level(a0, x, rt, lvl, st, 2 * bb, j));
                        assert(at_level(a0, x, rt, lvl, st, 2 * bb + 1, j));
                        assert((2 * bb) * lvl + j == i + j) by (nonlinear_arith)
                            requires i == bb * length, length == 2 * lvl;
                        assert((2 * bb + 1) * lvl + j == i + half + j) by (nonlinear_arith)
                            requires i == bb * length, length == 2 * lvl, half == lvl;
                        lemma_rev_in_children(bb, s2);
                    }
                }
                let mut w: u64 = 1;
                let mut k: usize = 0;
                proof {
                    lemma_pow0(wlen as int);
                }
                while k < half
                    invariant
                        2 <= N <= 6144,
                        x.len() == N,
                        rt == root,
                        qq == 12289,
                        length == 2 * lvl,
                        half == lvl,
                        lvl >= 1,
                        st == 2 * s2,
                        s2 >= 1,
                        i + length <= N,
                        wlen == pow(rt, s2 as nat) % qm(),
                        pow(pow(rt, s2 as nat), lvl as nat) % qm() == qm() - 1,
                        w == pow(wlen as int, k as nat) % qm(),
                        0 <= k <= half,
                        a@.len() == a0.len(),
                        forall|j: int| 0 <= j < N ==> (#[trigger] a@[j] as int) < qm(),
                        forall|p: int| 0 <= p < N && (p < i || p >= i + length) ==> #[trigger] a@[p] == a0[p],
                        forall|j: int| k <= j < half ==> #[trigger] a@[i + j] == a0[i + j],
                        forall|j: int| k <= j < half ==> #[trigger] a@[i + half + j] == a0[i + half + j],
                        forall|j: int| 0 <= j < lvl ==>
                            #[trigger] a0[i + j] as int == dsum(x, r, st, pow(rt, st as nat), j as nat, lvl as nat) % qm()
                            && a0[i + half + j] as int == dsum(x, r + s2, st, pow(rt, st as nat), j as nat, lvl as nat) % qm(),
                        forall|j: int| 0 <= j < k ==>
                            (#[trigger] a@[i + j] as int) == dsum(x, r, s2, pow(rt, s2 as nat), j as nat, length as nat) % qm(),
                        forall|j: int| 0 <= j < k ==>
                            (#[trigger] a@[i + half + j] as int) == dsum(x, r, s2, pow(rt, s2 as nat), (j + lvl) as nat, length as nat) % qm(),
                    decreases half - k,
                {
                    proof {
                        let ak = a@[i + k + half];
                        assert((ak as u64) * w < 0x1_0000_0000) by (nonlinear_arith)
                            requires (ak as int) < 12289, (w as int) < 12289;
                        assert(w * wlen < 0x1_0000_0000) by (nonlinear_arith)
                            requires (wlen as int) < 12289, (w as int) < 12289;
                    }
                    let u = a[i + k] as u64;
                    let v = ((a[i + k + half] as u64) * w) % qq;
                    let sum = u + v;
                    let diff = u + qq - v;
                    proof {
                        assert(a@[i + k] == a0[i + k]);
                        assert(a@[i + half + k] == a0[i + half + k]);
                        lemma_pow_mod_noop(pow(rt, s2 as nat), k as nat, qm());
                        assert(st == 2 * s2);
                        lemma_butterfly(x, r, s2 as nat, rt, lvl as nat, k as nat, u as int, a0[i + half + k] as int, w as int);
                    }
                    let ghost a_before = a@;
                    a.set(i + k, (sum % qq) as u16);
                    a.set(i + k + half, (diff % qq) as u16);
                    proof {
                        assert forall|j: int| k + 1 <= j < half implies #[trigger] a@[i + j] == a0[i + j] by {
                            assert(a_before[i + j] == a0[i + j]);
                        }
                        assert forall|j: int| k + 1 <= j < half implies #[trigger] a@[i + half + j] == a0[i + half + j] by {
                            assert(a_before[i + half + j] == a0[i + half + j]);
                        }
                        assert forall|j: int| 0 <= j < k + 1 implies
                            (#[trigger] a@[i + j] as int) == dsum(x, r, s2, pow(rt, s2 as nat), j as nat, length as nat) % qm() by {
                            if j < k {
                                assert(a_before[i + j] as int == dsum(x, r, s2, pow(rt, s2 as nat), j as nat, length as nat) % qm());
                            }
                        }
                        assert forall|j: int| 0 <= j < k + 1 implies
                            (#[trigger] a@[i + half + j] as int) == dsum(x, r, s2, pow(rt, s2 as nat), (j + lvl) as nat, length as nat) % qm() by {
                            if j < k {
                                assert(a_before[i + half + j] as int == dsum(x, r, s2, pow(rt, s2 as nat), (j + lvl) as nat, length as nat) % qm());
                            }
                        }
                        assert forall|p: int| 0 <= p < N && (p < i || p >= i + length) implies #[trigger] a@[p] == a0[p] by {
                            assert(a_before[p] == a0[p]);
                        }
                        assert forall|j: int| 0 <= j < N implies (#[trigger] a@[j] as int) < qm() by {
                            assert((a_before[j] as int) < qm());
                        }
                    }
                    proof {
                        lemma_pow_adds(wlen as int, k as nat, 1);
                        lemma_pow1(wlen as int);
                        lemma_mul_mod_noop_left(pow(wlen as int, k as nat), wlen as int, qm());
                        lemma_mul_is_commutative(pow(wlen as int, k as nat), wlen as int);
                    }
                    w = (w * wlen) % qq;
                    k = k + 1;
                }
                proof {
                    assert forall|b: int, j: int| 0 <= b < bb + 1 && 0 <= j < length implies #[trigger] at_level(a@, x, rt, length as int, s2, b, j) by {
                        if b < bb {
                            lemma_block_order(b, j, bb, length as int);
                            assert(at_level(a0, x, rt, length as int, s2, b, j));
                        } else {
                            assert(b * length + j == i + j);
                            if j < half {
                                assert(a@[i + j] as int == dsum(x, r, s2, pow(rt, s2 as nat), j as nat, length as nat) % qm());
                            } else {
                                let j2 = j - half;
                                assert(a@[i + half + j2] as int == dsum(x, r, s2, pow(rt, s2 as nat), (j2 + lvl) as nat, length as nat) % qm());
                                assert(i + half + j2 == i + j);
                            }
                        }
                    }
                    assert forall|c: int, j: int| 2 * (bb + 1) <= c < st && 0 <= j < lvl implies #[trigger] at_level(a@, x, rt, lvl, st, c, j) by {
                        assert(at_level(a0, x, rt, lvl, st, c, j));
                        assert(c * lvl + j >= i + length) by (nonlinear_arith)
                            requires c >= 2 * (bb + 1), j >= 0, i == bb * length, length == 2 * lvl, lvl >= 1;
                        assert(c * lvl + j < N) by (nonlinear_arith)
                            requires c < st, j < lvl, st == 2 * s2, s2 * length == N, length == 2 * lvl, lvl >= 1;
                    }
                    assert((bb + 1) * length == i + length) by (nonlinear_arith)
                        requires i == bb * length;
                }
                i = i + length;
                proof {
                    bb = bb + 1;
                }
            }
            proof {
                assert(bb == s2) by {
                    if bb < s2 {
                        assert(bb * length < s2 * length) by (nonlinear_arith)
                            requires bb < s2, length > 0;
                    }
                }
                lvl = length as int;
                st = s2;
                assert(st * lvl == n);
            }
            length = length * 2;
        }
        proof {
            assert(st == 1) by {
                if st != 1 {
                    assert(st >= 2);
                    assert(st * lvl >= 2 * lvl) by (nonlinear_arith)
                        requires st >= 2, lvl >= 1;
                }
            }
            assert(lvl == n);
            assert forall|k: int| 0 <= k < N implies (#[trigger] a@[k] as int) == dft(to_ints(old(a)@), root as int, k as nat) by {
                assert(at_level(a@, x, rt, lvl, st, 0, k));
                lemma_pow1(rt);
                assert(rev_in(0, 1) == 0);
                assert(x.len() == N);
            }
        }
    }
}

} // verus!
