//! Multiplication in `Z_q[X]/(X^n + 1)` and why the transform computes it:
//! finite sums, polynomial evaluation at the odd powers of `psi`, and the
//! orthogonality of the powers of `omega`.

use vstd::prelude::*;
use vstd::arithmetic::div_mod::*;
use vstd::arithmetic::mul::*;
use vstd::arithmetic::power::*;

use crate::ntt::{lemma_least_non_residue, lemma_psi_root};
use crate::ntt_math::{dft, dft_seq, dsum, is_pow2, lemma_pow_minus_one, ntt_product, pointwise, qm, scaled, spec_n_inv, spec_omega, spec_omega_inv, spec_psi, spec_psi_inv, twist};

verus! {

/// `f(0) + f(1) + ... + f(n - 1)`.
pub open spec fn sum(f: spec_fn(int) -> int, n: nat) -> int
    decreases n,
{
    if n == 0 {
        0
    } else {
        sum(f, (n - 1) as nat) + f(n - 1)
    }
}

/// Sums of functions that agree on `[0, n)` agree.
pub proof fn lemma_sum_ext(f: spec_fn(int) -> int, g: spec_fn(int) -> int, n: nat)
    requires
        forall|i: int| 0 <= i < n ==> #[trigger] f(i) == g(i),
    ensures
        sum(f, n) == sum(g, n),
    decreases n,
{
    if n > 0 {
        lemma_sum_ext(f, g, (n - 1) as nat);
    }
}

/// Sums of functions that agree mod q on `[0, n)` agree mod q.
pub proof fn lemma_sum_congruent(f: spec_fn(int) -> int, g: spec_fn(int) -> int, n: nat)
    requires
        forall|i: int| 0 <= i < n ==> #[trigger] f(i) % qm() == g(i) % qm(),
    ensures
        sum(f, n) % qm() == sum(g, n) % qm(),
    decreases n,
{
    if n > 0 {
        let m = (n - 1) as nat;
        lemma_sum_congruent(f, g, m);
        lemma_add_mod_noop(sum(f, m), f(m as int), qm());
        lemma_add_mod_noop(sum(g, m), g(m as int), qm());
    }
}

/// A sum of zeros.
pub proof fn lemma_sum_zero(f: spec_fn(int) -> int, n: nat)
    requires
        forall|i: int| 0 <= i < n ==> #[trigger] f(i) == 0,
    ensures
        sum(f, n) == 0,
    decreases n,
{
    if n > 0 {
        lemma_sum_zero(f, (n - 1) as nat);
    }
}

/// A sum with a single nonzero term.
pub proof fn lemma_sum_single(f: spec_fn(int) -> int, n: nat, k: int)
    requires
        0 <= k < n,
        forall|i: int| 0 <= i < n && i != k ==> #[trigger] f(i) == 0,
    ensures
        sum(f, n) == f(k),
    decreases n,
{
    let m = (n - 1) as nat;
    if k == m {
        lemma_sum_zero(f, m);
    } else {
        lemma_sum_single(f, m, k);
    }
}

/// Termwise addition.
pub proof fn lemma_sum_add(f: spec_fn(int) -> int, g: spec_fn(int) -> int, n: nat)
    ensures
        sum(|i: int| f(i) + g(i), n) == sum(f, n) + sum(g, n),
    decreases n,
{
    if n > 0 {
        lemma_sum_add(f, g, (n - 1) as nat);
    }
}

/// A constant factor comes out of a sum.
pub proof fn lemma_sum_scale(f: spec_fn(int) -> int, c: int, n: nat)
    ensures
        sum(|i: int| c * f(i), n) == c * sum(f, n),
    decreases n,
{
    if n > 0 {
        let m = (n - 1) as nat;
        lemma_sum_scale(f, c, m);
        lemma_mul_is_distributive_add(c, sum(f, m), f(m as int));
    }
}

/// Splitting a sum after its first `m` terms.
pub proof fn lemma_sum_split(f: spec_fn(int) -> int, m: nat, n: nat)
    ensures
        sum(f, m + n) == sum(f, m) + sum(|i: int| f(i + m), n),
    decreases n,
{
    if n > 0 {
        lemma_sum_split(f, m, (n - 1) as nat);
        assert((m + n - 1) as nat == (m + (n - 1)) as nat);
    }
}

/// The order of a double sum can be exchanged.
pub proof fn lemma_sum_swap(g: spec_fn(int, int) -> int, m: nat, n: nat)
    ensures
        sum(|i: int| sum(|j: int| g(i, j), n), m) == sum(|j: int| sum(|i: int| g(i, j), m), n),
    decreases m,
{
    if m == 0 {
        lemma_sum_zero(|j: int| sum(|i: int| g(i, j), 0), n);
    } else {
        let k = (m - 1) as nat;
        lemma_sum_swap(g, k, n);
        let inner = |j: int| sum(|i: int| g(i, j), k);
        let last = |j: int| g(k as int, j);
        lemma_sum_add(inner, last, n);
        lemma_sum_ext(
            |j: int| inner(j) + last(j),
            |j: int| sum(|i: int| g(i, j), m),
            n,
        );
    }
}

/// `-y` and `y * (q - 1)` agree mod q.
pub proof fn lemma_times_minus_one(y: int)
    ensures
        (y * (qm() - 1)) % qm() == (-y) % qm(),
{
    assert(y * (qm() - 1) == -y + y * qm()) by (nonlinear_arith);
    lemma_mod_multiples_vanish(y, -y, qm());
}

/// The powers of a root `z` with `z^n = -1` (n a power of two) are orthogonal:
/// for `d` not a multiple of `n`, `sum_{t < n} z^(2td) = 0 (mod q)`.
pub proof fn lemma_orthogonal(z: int, n: nat, d: nat)
    requires
        is_pow2(n as int),
        pow(z, n) % qm() == qm() - 1,
        d % n != 0,
    ensures
        sum(|t: int| pow(z, (2 * t * d) as nat), n) % qm() == 0,
    decreases n,
{
    let f = |t: int| pow(z, (2 * t * d) as nat);
    if n == 1 {
        assert(d % 1 == 0);
    } else {
        let h = (n / 2) as nat;
        assert(n == 2 * h && is_pow2(h as int));
        lemma_sum_split(f, h, h);
        let g = |t: int| f(t + h);
        // z^(nd) is (-1)^d
        lemma_pow_multiplies(z, n, d);
        lemma_pow_mod_noop(pow(z, n), d, qm());
        lemma_pow_minus_one(d);
        let sgn = pow(z, (n * d) as nat);
        assert forall|t: int| 0 <= t < h implies #[trigger] g(t) == f(t) * sgn by {
            assert(2 * (t + h) * d == 2 * t * d + n * d) by (nonlinear_arith)
                requires n == 2 * h;
            assert(2 * t * d >= 0 && n * d >= 0) by (nonlinear_arith)
                requires t >= 0;
            lemma_pow_adds(z, (2 * t * d) as nat, (n * d) as nat);
        }
        if d % 2 == 1 {
            assert(sgn % qm() == qm() - 1);
            assert forall|t: int| 0 <= t < h implies #[trigger] g(t) % qm() == (-1 * f(t)) % qm() by {
                lemma_mul_mod_noop_right(f(t), sgn, qm());
                lemma_times_minus_one(f(t));
            }
            lemma_sum_congruent(g, |t: int| -1 * f(t), h);
            lemma_sum_scale(f, -1, h);
            lemma_add_mod_noop(sum(f, h), sum(g, h), qm());
            lemma_add_mod_noop(sum(f, h), -1 * sum(f, h), qm());
        } else {
            assert(sgn % qm() == 1);
            assert forall|t: int| 0 <= t < h implies #[trigger] g(t) % qm() == f(t) % qm() by {
                lemma_mul_mod_noop_right(f(t), sgn, qm());
            }
            lemma_sum_congruent(g, f, h);
            // the even case reduces to the root z^2 of half the order
            let e = (d / 2) as nat;
            assert(d == 2 * e);
            if e % h == 0 {
                let m: int = e as int / h as int;
                lemma_fundamental_div_mod(e as int, h as int);
                assert(d == m * n) by (nonlinear_arith)
                    requires d == 2 * e, e == h * m, n == 2 * h;
                lemma_mod_multiples_basic(m, n as int);
            }
            let z2 = z * z;
            lemma_square_is_pow2(z);
            lemma_pow_multiplies(z, 2, h);
            assert(pow(z2, h) == pow(z, n));
            lemma_orthogonal(z2, h, e);
            let f2 = |t: int| pow(z2, (2 * t * e) as nat);
            assert forall|t: int| 0 <= t < h implies #[trigger] f(t) == f2(t) by {
                assert(2 * t * d == 2 * (2 * t * e)) by (nonlinear_arith)
                    requires d == 2 * e;
                assert(2 * t * e >= 0) by (nonlinear_arith)
                    requires t >= 0;
                lemma_pow_multiplies(z, 2, (2 * t * e) as nat);
            }
            lemma_sum_ext(f, f2, h);
            lemma_add_mod_noop(sum(f, h), sum(g, h), qm());
        }
    }
}

/// The polynomial with coefficients `a` evaluated at `x`: `sum_i a_i x^i`.
pub open spec fn eval(a: Seq<int>, x: int) -> int {
    sum(|i: int| a[i] * pow(x, i as nat), a.len())
}

/// Term `i` of coefficient `k` of the product mod `X^n + 1`: `a_i b_(k-i)`
/// when `i <= k`, and `-a_i b_(k+n-i)` (a product that wrapped past `X^n`)
/// otherwise.
pub open spec fn neg_term(a: Seq<int>, b: Seq<int>, k: int, i: int) -> int {
    if i <= k {
        a[i] * b[k - i]
    } else {
        -(a[i] * b[k + a.len() - i])
    }
}

/// Coefficient `k` of the product mod `X^n + 1`, over the integers.
pub open spec fn neg_coeff(a: Seq<int>, b: Seq<int>, k: int) -> int {
    sum(|i: int| neg_term(a, b, k, i), a.len())
}

/// The product of `a` and `b` in `Z_q[X]/(X^n + 1)`, coefficients in `[0, q)`.
pub open spec fn neg_mul(a: Seq<int>, b: Seq<int>) -> Seq<int> {
    Seq::new(a.len(), |k: int| neg_coeff(a, b, k) % qm())
}

/// One row of the product: the terms that involve `a_i`, weighted by `x^k`,
/// add up to `a_i x^i b(x)` when `x^n = -1`.
proof fn lemma_row(a: Seq<int>, b: Seq<int>, x: int, i: int)
    requires
        a.len() == b.len(),
        0 <= i < a.len(),
        pow(x, a.len()) % qm() == qm() - 1,
    ensures
        sum(|k: int| neg_term(a, b, k, i) * pow(x, k as nat), a.len()) % qm()
            == (a[i] * pow(x, i as nat) * eval(b, x)) % qm(),
{
    let n = a.len();
    let q = qm();
    let g = |k: int| neg_term(a, b, k, i) * pow(x, k as nat);
    let bx = |j: int| b[j] * pow(x, j as nat);
    let c = a[i] * pow(x, i as nat);
    let m = (n - i) as nat;
    let iu = i as nat;
    lemma_sum_split(g, iu, m);
    assert(iu + m == n);
    // the terms with k >= i: a_i b_(k-i) x^k
    let g_hi = |k: int| g(k + iu);
    assert forall|k: int| 0 <= k < m implies #[trigger] g_hi(k) == c * bx(k) by {
        lemma_pow_adds(x, k as nat, iu);
        assert((k + iu) as nat == (k as nat + iu) as nat);
        assert(a[i] * b[k] * (pow(x, k as nat) * pow(x, iu)) == (a[i] * pow(x, iu)) * (b[k] * pow(x, k as nat))) by (nonlinear_arith);
    }
    lemma_sum_ext(g_hi, |k: int| c * bx(k), m);
    lemma_sum_scale(bx, c, m);
    // the wrapped terms with k < i: -a_i b_(k+n-i) x^k = a_i x^i * b_j x^j, j = k + n - i
    let bx_hi = |k: int| bx(k + m);
    assert forall|k: int| 0 <= k < iu implies #[trigger] g(k) % q == (c * bx_hi(k)) % q by {
        let j = k + m;
        let t = a[i] * b[j] * pow(x, k as nat);
        lemma_pow_adds(x, iu, j as nat);
        lemma_pow_adds(x, k as nat, n);
        assert((iu + j) as nat == (k as nat + n) as nat);
        assert(c * bx_hi(k) == t * pow(x, n)) by (nonlinear_arith)
            requires
                c == a[i] * pow(x, iu),
                bx_hi(k) == b[j] * pow(x, j as nat),
                t == a[i] * b[j] * pow(x, k as nat),
                pow(x, iu) * pow(x, j as nat) == pow(x, k as nat) * pow(x, n);
        lemma_mul_mod_noop_right(t, pow(x, n), q);
        lemma_times_minus_one(t);
        assert(g(k) == -t) by (nonlinear_arith)
            requires g(k) == -(a[i] * b[j]) * pow(x, k as nat), t == a[i] * b[j] * pow(x, k as nat);
    }
    lemma_sum_congruent(g, |k: int| c * bx_hi(k), iu);
    lemma_sum_scale(bx_hi, c, iu);
    // b(x) splits the same way
    lemma_sum_split(bx, m, iu);
    lemma_sum_ext(|k: int| bx(k + m), bx_hi, iu);
    assert(m + iu == n);
    assert(eval(b, x) == sum(bx, n));
    lemma_mul_is_distributive_add(c, sum(bx, m), sum(bx_hi, iu));
    lemma_add_mod_noop(sum(g, iu), sum(g_hi, m), q);
    lemma_add_mod_noop(c * sum(bx_hi, iu), c * sum(bx, m), q);
}

/// Evaluation at a point with `x^n = -1` turns the product mod `X^n + 1`
/// into the product of values.
pub proof fn lemma_eval_product(a: Seq<int>, b: Seq<int>, x: int)
    requires
        a.len() == b.len(),
        pow(x, a.len()) % qm() == qm() - 1,
    ensures
        eval(neg_mul(a, b), x) % qm() == (eval(a, x) * eval(b, x)) % qm(),
{
    let n = a.len();
    let q = qm();
    let c = neg_mul(a, b);
    let g2 = |k: int, i: int| neg_term(a, b, k, i) * pow(x, k as nat);
    // reduce the coefficients away
    let ck = |k: int| c[k] * pow(x, k as nat);
    let rows = |k: int| sum(|i: int| g2(k, i), n);
    assert forall|k: int| 0 <= k < n implies #[trigger] ck(k) % q == rows(k) % q by {
        let p = pow(x, k as nat);
        let f = |i: int| neg_term(a, b, k, i);
        lemma_mul_mod_noop_left(neg_coeff(a, b, k), p, q);
        lemma_sum_scale(f, p, n);
        assert forall|i: int| 0 <= i < n implies #[trigger] g2(k, i) == p * f(i) by {
            lemma_mul_is_commutative(p, neg_term(a, b, k, i));
        }
        lemma_sum_ext(|i: int| g2(k, i), |i: int| p * f(i), n);
        lemma_mul_is_commutative(neg_coeff(a, b, k), p);
        assert(neg_coeff(a, b, k) == sum(f, n));
    }
    lemma_sum_congruent(ck, rows, n);
    assert(eval(c, x) == sum(ck, n));
    // exchange the sums and use one row at a time
    lemma_sum_swap(g2, n, n);
    let cols = |i: int| sum(|k: int| g2(k, i), n);
    let ax = |i: int| a[i] * pow(x, i as nat);
    let target = |i: int| eval(b, x) * ax(i);
    assert forall|i: int| 0 <= i < n implies #[trigger] cols(i) % q == target(i) % q by {
        lemma_row(a, b, x, i);
        lemma_sum_ext(|k: int| g2(k, i), |k: int| neg_term(a, b, k, i) * pow(x, k as nat), n);
        lemma_mul_is_commutative(ax(i), eval(b, x));
    }
    lemma_sum_congruent(cols, target, n);
    lemma_sum_scale(ax, eval(b, x), n);
    assert(eval(a, x) == sum(ax, n));
    lemma_mul_is_commutative(eval(a, x), eval(b, x));
}

/// The unit-stride DFT sum as a plain sum.
proof fn lemma_dsum_is_sum(x: Seq<int>, w: int, k: nat, len: nat)
    ensures
        dsum(x, 0, 1, w, k, len) == sum(|m: int| x[m] * pow(w, (m * k) as nat), len),
    decreases len,
{
    if len > 0 {
        lemma_dsum_is_sum(x, w, k, (len - 1) as nat);
    }
}

/// `psi^(q-1) = 1`: the order of psi divides `2n`, which divides `q - 1`.
proof fn lemma_psi_fermat(n: nat)
    requires
        0 < n,
        6144int % (n as int) == 0,
    ensures
        pow(spec_psi(n), 12288) % qm() == 1,
{
    let psi = spec_psi(n);
    lemma_psi_root(n);
    let e = (6144int / (n as int)) as nat;
    lemma_fundamental_div_mod(6144, n as int);
    assert(n * (2 * e) == 12288) by (nonlinear_arith)
        requires n * e == 6144;
    lemma_pow_multiplies(psi, n, 2 * e);
    lemma_pow_mod_noop(pow(psi, n), 2 * e, qm());
    lemma_pow_minus_one(2 * e);
}

/// `psi^k * psi_inv^k = 1 (mod q)`.
proof fn lemma_psi_inverse(n: nat, k: nat)
    requires
        0 < n,
        6144int % (n as int) == 0,
    ensures
        (pow(spec_psi(n), k) * pow(spec_psi_inv(n), k)) % qm() == 1,
{
    let psi = spec_psi(n);
    let q = qm();
    lemma_psi_fermat(n);
    lemma_pow_mod_noop(pow(psi, 12287), k, q);
    lemma_pow_multiplies(psi, 12287, k);
    lemma_mul_mod_noop_right(pow(psi, k), pow(spec_psi_inv(n), k), q);
    lemma_mul_mod_noop_right(pow(psi, k), pow(psi, 12287 * k), q);
    lemma_pow_adds(psi, k, 12287 * k);
    assert(k + 12287 * k == 12288 * k);
    lemma_pow_multiplies(psi, 12288, k);
    lemma_pow_mod_noop(pow(psi, 12288), k, q);
    lemma1_pow(k);
}

/// `m^(q-1) = 1 (mod q)` for a power of two `m`.
proof fn lemma_pow2_fermat(m: int)
    requires
        is_pow2(m),
    ensures
        pow(m, 12288) % qm() == 1,
    decreases m,
{
    if m == 1 {
        lemma1_pow(12288);
    } else {
        let h = m / 2;
        assert(m == 2 * h && is_pow2(h));
        lemma_pow2_fermat(h);
        lemma_least_non_residue();
        assert(pow(2, 6144) % qm() == 1);
        lemma_pow_multiplies(2, 6144, 2);
        lemma_pow_mod_noop(pow(2, 6144), 2, qm());
        lemma1_pow(2);
        assert(pow(2, 12288) % qm() == 1);
        lemma_pow_distributes(2, h, 12288);
        lemma_mul_mod_noop(pow(2, 12288), pow(h, 12288), qm());
    }
}

/// `n * n_inv = 1 (mod q)` for a power of two `n`.
proof fn lemma_n_inverse(n: nat)
    requires
        is_pow2(n as int),
    ensures
        (n * spec_n_inv(n)) % qm() == 1,
{
    lemma_pow2_fermat(n as int);
    lemma_pow1(n as int);
    lemma_pow_adds(n as int, 1, 12287);
    lemma_mul_mod_noop_right(n as int, pow(n as int, 12287), qm());
}

/// Powers of omega are even powers of psi, mod q.
proof fn lemma_omega_pow(n: nat, j: nat)
    ensures
        pow(spec_omega(n), j) % qm() == pow(spec_psi(n), 2 * j) % qm(),
        pow(spec_omega_inv(n), j) % qm() == pow(spec_psi(n), 24574 * j) % qm(),
{
    let psi = spec_psi(n);
    let q = qm();
    lemma_pow_mod_noop(pow(psi, 2), j, q);
    lemma_pow_multiplies(psi, 2, j);
    lemma_pow_mod_noop(pow(spec_omega(n), 12287), j, q);
    lemma_pow_multiplies(spec_omega(n), 12287, j);
    lemma_pow_mod_noop(pow(psi, 2), 12287 * j, q);
    lemma_pow_multiplies(psi, 2, 12287 * j);
    assert(2 * (12287 * j) == 24574 * j) by (nonlinear_arith);
}

/// Frequency `t` of the twisted forward transform is the value of the
/// polynomial at the odd power `psi^(2t+1)`.
proof fn lemma_forward(a: Seq<int>, psi: int, t: nat)
    ensures
        dft(twist(a, psi), pow(psi, 2) % qm(), t) == eval(a, pow(psi, 2 * t + 1)) % qm(),
{
    let q = qm();
    let n = a.len();
    let tw = twist(a, psi);
    let w = pow(psi, 2) % q;
    let x = pow(psi, 2 * t + 1);
    lemma_dsum_is_sum(tw, w, t, n);
    let f = |m: int| tw[m] * pow(w, (m * t) as nat);
    let g = |m: int| a[m] * pow(x, m as nat);
    assert forall|m: int| 0 <= m < n implies #[trigger] f(m) % q == g(m) % q by {
        let mt = (m * t) as nat;
        assert(m * t >= 0) by (nonlinear_arith)
            requires m >= 0;
        let am = a[m] * pow(psi, m as nat);
        lemma_mul_mod_noop_left(am, pow(w, mt), q);
        lemma_mul_mod_noop_right(am, pow(w, mt), q);
        lemma_pow_mod_noop(pow(psi, 2), mt, q);
        lemma_pow_multiplies(psi, 2, mt);
        lemma_mul_mod_noop_right(am, pow(psi, 2 * mt), q);
        lemma_pow_adds(psi, m as nat, 2 * mt);
        assert(m + 2 * (m * t) == (2 * t + 1) * m) by (nonlinear_arith);
        assert((m as nat + 2 * mt) as nat == ((2 * t + 1) * m) as nat);
        lemma_pow_multiplies(psi, 2 * t + 1, m as nat);
        assert(am * pow(psi, 2 * mt) == a[m] * (pow(psi, m as nat) * pow(psi, 2 * mt))) by (nonlinear_arith)
            requires am == a[m] * pow(psi, m as nat);
    }
    lemma_sum_congruent(f, g, n);
}

/// A sum of `n` copies of `c`.
pub proof fn lemma_sum_const(c: int, n: nat)
    ensures
        sum(|t: int| c, n) == c * n,
    decreases n,
{
    lemma_mul_basics(c);
    if n > 0 {
        lemma_sum_const(c, (n - 1) as nat);
        lemma_mul_is_distributive_add(c, (n - 1) as int, 1);
        assert((n - 1) as int + 1 == n);
    }
}

/// Multiplying by two factors that are 1 mod q changes nothing mod q.
proof fn lemma_mul_units(x: int, y: int, z: int)
    requires
        y % qm() == 1,
        z % qm() == 1,
    ensures
        (x * y * z) % qm() == x % qm(),
{
    lemma_mul_mod_noop_right(x, y, qm());
    lemma_mul_mod_noop_right(x * y, z, qm());
    lemma_mul_mod_noop_right(x, 1, qm());
}

/// The sum over `t` of `psi^(2t(i + (q-2)k))` is `n` when `i = k` and 0
/// otherwise (mod q).
proof fn lemma_inner_sum(n: nat, k: nat, i: nat)
    requires
        is_pow2(n as int),
        6144int % (n as int) == 0,
        i < n,
        k < n,
    ensures
        sum(|t: int| pow(spec_psi(n), (2 * t * (i + 12287 * k)) as nat), n) % qm()
            == if i == k { n as int } else { 0 },
{
    let psi = spec_psi(n);
    let q = qm();
    let d = (i + 12287 * k) as nat;
    let f = |t: int| pow(psi, (2 * t * d) as nat);
    lemma_psi_root(n);
    lemma_fundamental_div_mod(6144, n as int);
    let e = (6144int / (n as int)) as nat;
    assert(n * e == 6144);
    if i == k {
        lemma_psi_fermat(n);
        assert forall|t: int| 0 <= t < n implies #[trigger] f(t) % q == 1int % q by {
            assert(2 * t * d == 12288 * (2 * t * k)) by (nonlinear_arith)
                requires d == i + 12287 * k, i == k;
            assert(2 * t * k >= 0) by (nonlinear_arith)
                requires t >= 0;
            lemma_pow_multiplies(psi, 12288, (2 * t * k) as nat);
            lemma_pow_mod_noop(pow(psi, 12288), (2 * t * k) as nat, q);
            lemma1_pow((2 * t * k) as nat);
        }
        lemma_sum_congruent(f, |t: int| 1int, n);
        lemma_sum_const(1, n);
        assert(n <= 6144) by {
            lemma_mod_is_zero(6144, n);
        }
    } else {
        // d = (i - k) + n * (2ek), and 0 < |i - k| < n
        assert(d == (i - k) + n * (2 * e * k)) by (nonlinear_arith)
            requires d == i + 12287 * k, n * e == 6144;
        lemma_mod_multiples_vanish((2 * e * k) as int, i - k, n as int);
        lemma_mul_is_commutative(n as int, (2 * e * k) as int);
        if i > k {
            lemma_small_mod((i - k) as nat, n);
        } else {
            lemma_mod_add_multiples_vanish(i - k, n as int);
            lemma_small_mod((i - k + n) as nat, n);
        }
        lemma_orthogonal(psi, n, d);
    }
}

/// The inverse transform undoes the evaluation at the odd powers of psi:
/// scaled by `n^-1` and untwisted by `psi^-k`, frequency `k` of the inverse
/// transform of the values `c(psi^(2t+1))` is `c_k` (mod q).
proof fn lemma_inverse(c: Seq<int>, p: Seq<int>, n: nat, k: nat)
    requires
        is_pow2(n as int),
        6144int % (n as int) == 0,
        c.len() == n,
        p.len() == n,
        k < n,
        forall|t: int| 0 <= t < n ==> #[trigger] p[t] % qm() == eval(c, pow(spec_psi(n), (2 * t + 1) as nat)) % qm(),
    ensures
        (((dft(p, spec_omega_inv(n), k) * spec_n_inv(n)) % qm()) * pow(spec_psi_inv(n), k)) % qm() == c[k as int] % qm(),
{
    let q = qm();
    let psi = spec_psi(n);
    let wi = spec_omega_inv(n);
    let x = |t: int| pow(psi, (2 * t + 1) as nat);
    let w = |t: int| pow(wi, (t * k) as nat);
    // the inverse transform as a sum over t of c(x_t) * w_t
    lemma_dsum_is_sum(p, wi, k, n);
    let fp = |t: int| p[t] * pow(wi, (t * k) as nat);
    let fe = |t: int| eval(c, x(t)) * w(t);
    assert forall|t: int| 0 <= t < n implies #[trigger] fp(t) % q == fe(t) % q by {
        lemma_mul_mod_noop_left(p[t], w(t), q);
        lemma_mul_mod_noop_left(eval(c, x(t)), w(t), q);
    }
    lemma_sum_congruent(fp, fe, n);
    // expand c(x_t) and exchange the sums
    let g = |t: int, i: int| w(t) * (c[i] * pow(x(t), i as nat));
    assert forall|t: int| 0 <= t < n implies #[trigger] fe(t) == sum(|i: int| g(t, i), n) by {
        let ct = |i: int| c[i] * pow(x(t), i as nat);
        lemma_sum_scale(ct, w(t), n);
        lemma_sum_ext(|i: int| w(t) * ct(i), |i: int| g(t, i), n);
        assert(eval(c, x(t)) == sum(ct, n));
        lemma_mul_is_commutative(eval(c, x(t)), w(t));
    }
    lemma_sum_ext(fe, |t: int| sum(|i: int| g(t, i), n), n);
    lemma_sum_swap(g, n, n);
    let cols = |i: int| sum(|t: int| g(t, i), n);
    // each column is c_i psi^i times an orthogonality sum
    let single = |i: int| if i == k { c[i] * pow(psi, i as nat) * n } else { 0 };
    assert forall|i: int| 0 <= i < n implies #[trigger] cols(i) % q == single(i) % q by {
        let d = (i + 12287 * k) as nat;
        let cc = c[i] * pow(psi, i as nat);
        let orth = |t: int| pow(psi, (2 * t * d) as nat);
        assert forall|t: int| 0 <= t < n implies #[trigger] g(t, i) % q == (cc * orth(t)) % q by {
            let tk = (t * k) as nat;
            assert(t * k >= 0) by (nonlinear_arith)
                requires t >= 0;
            lemma_omega_pow(n, tk);
            lemma_mul_mod_noop_left(w(t), c[i] * pow(x(t), i as nat), q);
            lemma_mul_mod_noop_left(pow(psi, 24574 * tk), c[i] * pow(x(t), i as nat), q);
            lemma_pow_multiplies(psi, (2 * t + 1) as nat, i as nat);
            assert((2 * t + 1) * i == i + 2 * t * i) by (nonlinear_arith);
            assert(2 * t * i >= 0) by (nonlinear_arith)
                requires t >= 0, i >= 0;
            lemma_pow_adds(psi, i as nat, (2 * t * i) as nat);
            lemma_pow_adds(psi, 24574 * tk, (2 * t * i) as nat);
            assert(24574 * tk + 2 * t * i == 2 * t * d) by (nonlinear_arith)
                requires tk == t * k, d == i + 12287 * k;
            assert(pow(psi, 24574 * tk) * (c[i] * (pow(psi, i as nat) * pow(psi, (2 * t * i) as nat)))
                == cc * (pow(psi, 24574 * tk) * pow(psi, (2 * t * i) as nat))) by (nonlinear_arith)
                requires cc == c[i] * pow(psi, i as nat);
        }
        lemma_sum_congruent(|t: int| g(t, i), |t: int| cc * orth(t), n);
        lemma_sum_scale(orth, cc, n);
        lemma_inner_sum(n, k, i as nat);
        lemma_mul_mod_noop_right(cc, sum(orth, n), q);
        if i != k {
            lemma_mul_basics(cc);
        }
    }
    lemma_sum_congruent(cols, single, n);
    lemma_sum_single(single, n, k as int);
    // scale by n^-1 and untwist by psi^-k
    let v = c[k as int] * pow(psi, k) * n;
    let s = dft(p, wi, k);
    assert(s % q == v % q) by {
        lemma_mod_twice(sum(fp, n), q);
    }
    let ni = spec_n_inv(n);
    let pk = pow(spec_psi_inv(n), k);
    lemma_mul_mod_noop_left(s * ni, pk, q);
    lemma_mul_mod_noop_left(s, ni * pk, q);
    lemma_mul_mod_noop_left(v, ni * pk, q);
    lemma_mul_is_associative(s, ni, pk);
    lemma_mul_is_associative(v, ni, pk);
    assert(v * ni * pk == c[k as int] * (n * ni) * (pow(psi, k) * pk)) by (nonlinear_arith)
        requires v == c[k as int] * pow(psi, k) * n;
    lemma_n_inverse(n);
    lemma_psi_inverse(n, k);
    lemma_mul_units(c[k as int], n * ni, pow(psi, k) * pk);
}

/// The transform pipeline multiplies in `Z_q[X]/(X^n + 1)`: twisting by
/// psi^i, transforming with omega, multiplying pointwise, transforming back
/// with omega^-1, scaling by n^-1 and untwisting by psi^-i gives exactly the
/// negacyclic product, for every power-of-two dimension `n` dividing
/// `(q - 1) / 2`.
pub proof fn lemma_transform_product(a: Seq<int>, b: Seq<int>)
    requires
        a.len() == b.len(),
        is_pow2(a.len() as int),
        6144int % (a.len() as int) == 0,
    ensures
        ntt_product(a, b) == neg_mul(a, b),
{
    let n = a.len();
    let q = qm();
    let psi = spec_psi(n);
    let c = neg_mul(a, b);
    let ah = dft_seq(twist(a, psi), spec_omega(n));
    let bh = dft_seq(twist(b, psi), spec_omega(n));
    let p = pointwise(ah, bh);
    lemma_psi_root(n);
    assert forall|t: int| 0 <= t < n implies #[trigger] p[t] % q == eval(c, pow(psi, (2 * t + 1) as nat)) % q by {
        let tn = t as nat;
        let x = pow(psi, (2 * t + 1) as nat);
        lemma_forward(a, psi, tn);
        lemma_forward(b, psi, tn);
        assert(ah[t] == eval(a, x) % q);
        assert(bh[t] == eval(b, x) % q);
        lemma_mod_twice(ah[t] * bh[t], q);
        lemma_mul_mod_noop(eval(a, x), eval(b, x), q);
        // x^n = psi^(n(2t+1)) = (-1)^(2t+1) = -1
        lemma_pow_multiplies(psi, (2 * t + 1) as nat, n);
        lemma_pow_multiplies(psi, n, (2 * t + 1) as nat);
        lemma_mul_is_commutative((2 * t + 1) as int, n as int);
        lemma_pow_mod_noop(pow(psi, n), (2 * t + 1) as nat, q);
        lemma_pow_minus_one((2 * t + 1) as nat);
        lemma_eval_product(a, b, x);
    }
    assert forall|k: int| 0 <= k < n implies #[trigger] ntt_product(a, b)[k] == c[k] by {
        lemma_inverse(c, p, n, k as nat);
        lemma_small_mod(c[k] as nat, q as nat);
    }
    assert(ntt_product(a, b) =~= c);
}

/// Coefficient-wise sum mod q.
pub open spec fn padd(x: Seq<int>, y: Seq<int>) -> Seq<int> {
    Seq::new(x.len(), |i: int| (x[i] + y[i]) % qm())
}

/// Coefficient-wise difference mod q.
pub open spec fn psub(x: Seq<int>, y: Seq<int>) -> Seq<int> {
    Seq::new(x.len(), |i: int| (x[i] - y[i]) % qm())
}

/// `x` and `y` agree mod q.
pub open spec fn cong(x: int, y: int) -> bool {
    x % qm() == y % qm()
}

/// Congruences add.
pub proof fn lemma_cong_add(x1: int, y1: int, x2: int, y2: int)
    requires
        cong(x1, y1),
        cong(x2, y2),
    ensures
        cong(x1 + x2, y1 + y2),
{
    lemma_add_mod_noop(x1, x2, qm());
    lemma_add_mod_noop(y1, y2, qm());
}

/// Congruences subtract.
pub proof fn lemma_cong_sub(x1: int, y1: int, x2: int, y2: int)
    requires
        cong(x1, y1),
        cong(x2, y2),
    ensures
        cong(x1 - x2, y1 - y2),
{
    lemma_sub_mod_noop(x1, x2, qm());
    lemma_sub_mod_noop(y1, y2, qm());
}

/// Congruences multiply.
pub proof fn lemma_cong_mul(x1: int, y1: int, x2: int, y2: int)
    requires
        cong(x1, y1),
        cong(x2, y2),
    ensures
        cong(x1 * x2, y1 * y2),
{
    lemma_mul_mod_noop(x1, x2, qm());
    lemma_mul_mod_noop(y1, y2, qm());
}

/// Evaluation turns coefficient-wise sums into sums.
pub proof fn lemma_eval_padd(x: Seq<int>, y: Seq<int>, z: int)
    requires
        x.len() == y.len(),
    ensures
        cong(eval(padd(x, y), z), eval(x, z) + eval(y, z)),
{
    let n = x.len();
    let q = qm();
    let s = padd(x, y);
    let fs = |i: int| s[i] * pow(z, i as nat);
    let fx = |i: int| x[i] * pow(z, i as nat);
    let fy = |i: int| y[i] * pow(z, i as nat);
    assert forall|i: int| 0 <= i < n implies #[trigger] fs(i) % q == (fx(i) + fy(i)) % q by {
        lemma_mul_mod_noop_left(x[i] + y[i], pow(z, i as nat), q);
        lemma_mul_is_distributive_add_other_way(pow(z, i as nat), x[i], y[i]);
    }
    lemma_sum_congruent(fs, |i: int| fx(i) + fy(i), n);
    lemma_sum_add(fx, fy, n);
    assert(eval(s, z) == sum(fs, n));
}

/// Evaluation turns coefficient-wise differences into differences.
pub proof fn lemma_eval_psub(x: Seq<int>, y: Seq<int>, z: int)
    requires
        x.len() == y.len(),
    ensures
        cong(eval(psub(x, y), z), eval(x, z) - eval(y, z)),
{
    let n = x.len();
    let q = qm();
    let s = psub(x, y);
    let fs = |i: int| s[i] * pow(z, i as nat);
    let fx = |i: int| x[i] * pow(z, i as nat);
    let fy = |i: int| y[i] * pow(z, i as nat);
    let fny = |i: int| -1 * fy(i);
    assert forall|i: int| 0 <= i < n implies #[trigger] fs(i) % q == (fx(i) + fny(i)) % q by {
        lemma_mul_mod_noop_left(x[i] - y[i], pow(z, i as nat), q);
        lemma_mul_is_distributive_sub_other_way(pow(z, i as nat), x[i], y[i]);
    }
    lemma_sum_congruent(fs, |i: int| fx(i) + fny(i), n);
    lemma_sum_add(fx, fny, n);
    lemma_sum_scale(fy, -1, n);
    assert(eval(s, z) == sum(fs, n));
}

/// The evaluation points `psi^(2t+1)` are roots of `X^n + 1`.
pub proof fn lemma_odd_power_root(n: nat, t: nat)
    requires
        0 < n,
        6144int % (n as int) == 0,
    ensures
        pow(pow(spec_psi(n), 2 * t + 1), n) % qm() == qm() - 1,
{
    let psi = spec_psi(n);
    lemma_psi_root(n);
    lemma_pow_multiplies(psi, 2 * t + 1, n);
    lemma_pow_multiplies(psi, n, 2 * t + 1);
    lemma_mul_is_commutative((2 * t + 1) as int, n as int);
    lemma_pow_mod_noop(pow(psi, n), 2 * t + 1, qm());
    lemma_pow_minus_one(2 * t + 1);
}

/// A polynomial with coefficients in `[0, q)` is determined by its values at
/// the `n` points `psi^(2t+1)`.
pub proof fn lemma_eval_injective(x: Seq<int>, y: Seq<int>)
    requires
        x.len() == y.len(),
        is_pow2(x.len() as int),
        6144int % (x.len() as int) == 0,
        forall|i: int| 0 <= i < x.len() ==> 0 <= #[trigger] x[i] < qm(),
        forall|i: int| 0 <= i < y.len() ==> 0 <= #[trigger] y[i] < qm(),
        forall|t: int| 0 <= t < x.len() ==> #[trigger] cong(eval(x, pow(spec_psi(x.len()), (2 * t + 1) as nat)), eval(y, pow(spec_psi(x.len()), (2 * t + 1) as nat))),
    ensures
        x == y,
{
    let n = x.len();
    let q = qm();
    let p = Seq::new(n, |t: int| eval(x, pow(spec_psi(n), (2 * t + 1) as nat)) % q);
    assert forall|t: int| 0 <= t < n implies #[trigger] p[t] % q == eval(y, pow(spec_psi(n), (2 * t + 1) as nat)) % q by {
        lemma_mod_twice(eval(x, pow(spec_psi(n), (2 * t + 1) as nat)), q);
        assert(cong(eval(x, pow(spec_psi(n), (2 * t + 1) as nat)), eval(y, pow(spec_psi(n), (2 * t + 1) as nat))));
    }
    assert forall|t: int| 0 <= t < n implies #[trigger] p[t] % q == eval(x, pow(spec_psi(n), (2 * t + 1) as nat)) % q by {
        lemma_mod_twice(eval(x, pow(spec_psi(n), (2 * t + 1) as nat)), q);
    }
    assert forall|k: int| 0 <= k < n implies x[k] == y[k] by {
        lemma_inverse(x, p, n, k as nat);
        lemma_inverse(y, p, n, k as nat);
        lemma_small_mod(x[k] as nat, q as nat);
        lemma_small_mod(y[k] as nat, q as nat);
    }
    assert(x =~= y);
}

} // verus!
