use re_kem_core::field::{FieldElement, Q};
use re_kem_core::ntt::{pow_mod, NttContext, Poly};

const N: usize = 512;

/// Naive schoolbook negacyclic multiplication for cross-checking.
fn naive_mul(a: &[u16; N], b: &[u16; N]) -> [u16; N] {
    let mut out = [0u32; N];
    for i in 0..N {
        for j in 0..N {
            let prod = (a[i] as u32) * (b[j] as u32);
            let k = i + j;
            if k < N {
                out[k] = (out[k] + prod) % Q;
            } else {
                let idx = k - N;
                out[idx] = (out[idx] + Q - (prod % Q)) % Q;
            }
        }
    }
    let mut res = [0u16; N];
    for i in 0..N {
        res[i] = out[i] as u16;
    }
    res
}

#[test]
fn psi_is_primitive_2n_root() {
    let ctx = NttContext::<N>::new();
    let psi = ctx.psi() as u32;
    // psi^n == -1 mod q  <=>  psi^(2n) == 1
    assert_eq!(pow_mod(psi, 2 * N as u32, Q), 1);
    assert_eq!(pow_mod(psi, N as u32, Q), Q - 1);
}

#[test]
fn ntt_multiplication_matches_naive() {
    let ctx = NttContext::<N>::new();
    let mut a_raw = [0u16; N];
    let mut b_raw = [0u16; N];
    for i in 0..N {
        a_raw[i] = ((i * 37 + 11) % Q as usize) as u16;
        b_raw[i] = ((i * 91 + 7) % Q as usize) as u16;
    }
    let mut a = Poly::<N>::zero();
    let mut b = Poly::<N>::zero();
    for i in 0..N {
        a.coeffs[i] = FieldElement::from_plain(a_raw[i]);
        b.coeffs[i] = FieldElement::from_plain(b_raw[i]);
    }

    let got = ctx.mul(&a, &b);
    let expected = naive_mul(&a_raw, &b_raw);
    for i in 0..N {
        assert_eq!(
            got.coeffs[i].to_plain(),
            expected[i],
            "mismatch at coefficient {i}"
        );
    }
}

#[test]
fn multiplication_with_negacyclic_wrap() {
    // X^(n-1) * X = X^n = -1  (mod X^n + 1)
    let ctx = NttContext::<N>::new();
    let mut a = Poly::<N>::zero();
    let mut b = Poly::<N>::zero();
    a.coeffs[N - 1] = FieldElement::from_plain(1);
    b.coeffs[1] = FieldElement::from_plain(1);

    let c = ctx.mul(&a, &b);
    assert_eq!(c.coeffs[0].to_plain(), Q as u16 - 1, "X^n must wrap to -1");
    for i in 1..N {
        assert_eq!(c.coeffs[i].to_plain(), 0);
    }
}
