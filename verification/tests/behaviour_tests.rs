use re_kem_core::api::{Kem, KemError, ReKem1024Kem, ReKemKem, Registry};
use re_kem_core::crypto::{ct_eq_bytes, fill_random, sha3_256, sha3_512, shake256, wipe_bytes};
use re_kem_core::field::{ct_reduce_once, montgomery_mul_raw, montgomery_reduce, FieldElement, Q, R_MOD_Q};
use re_kem_core::kem::{msg_to_poly, pke_decrypt, pke_encrypt, poly_to_msg, ReKem, ReKem1024, SEED_LEN};
use re_kem_core::ntt::{pow_mod, NttContext, Poly};
use re_kem_core::params::{active, level5_1024, newhope_512};
use re_kem_core::sampling::{accept_words, cbd_from_bytes, cbd_sample, decode_poly, encode_poly, expand_a};
use re_kem_core::version::{Algorithm, Envelope, VersionError};

fn hex(bytes: &[u8]) -> String {
    bytes.iter().map(|b| format!("{b:02x}")).collect()
}

fn naive_mul<const N: usize>(a: &[u16], b: &[u16]) -> Vec<u16> {
    let mut out = vec![0u32; N];
    for i in 0..N {
        for j in 0..N {
            let prod = (a[i] as u32) * (b[j] as u32) % Q;
            let k = i + j;
            if k < N {
                out[k] = (out[k] + prod) % Q;
            } else {
                out[k - N] = (out[k - N] + Q - prod) % Q;
            }
        }
    }
    out.into_iter().map(|v| v as u16).collect()
}

// ---- field ---------------------------------------------------------------

#[test]
fn from_plain_reduces_values_at_or_above_q() {
    assert_eq!(FieldElement::from_plain(12289 + 7).to_plain(), 7);
    assert_eq!(FieldElement::from_plain(65535).to_plain(), (65535u32 % Q) as u16);
    assert_eq!(FieldElement::zero().to_plain(), 0);
}

#[test]
fn reduction_helpers_give_exact_residues() {
    assert_eq!(ct_reduce_once(0), 0);
    assert_eq!(ct_reduce_once(12288), 12288);
    assert_eq!(ct_reduce_once(12289), 0);
    assert_eq!(ct_reduce_once(2 * 12289 - 1), 12288);
    // R mod q reduces to 1: R * R^-1 = 1
    assert_eq!(montgomery_reduce(R_MOD_Q), 1);
    assert_eq!(montgomery_reduce(0), 0);
    // (a * b * R^-1) mod q with a = R mod q gives b
    assert_eq!(montgomery_mul_raw(R_MOD_Q as u16, 1234), 1234);
}

#[test]
fn field_arithmetic_edge_values() {
    let a = FieldElement::from_plain(12288); // -1
    assert_eq!(a.mul(a).to_plain(), 1);
    assert_eq!(a.add(FieldElement::from_plain(1)).to_plain(), 0);
    assert_eq!(FieldElement::from_plain(0).sub(FieldElement::from_plain(1)).to_plain(), 12288);
    let mut z = FieldElement::from_plain(77);
    z.zeroize();
    assert_eq!(z.to_plain(), 0);
}

// ---- polynomials and the transform -------------------------------------

#[test]
fn poly_add_sub_scale_are_coefficientwise() {
    let mut a = Poly::<512>::zero();
    let mut b = Poly::<512>::zero();
    for i in 0..512 {
        a.coeffs[i] = FieldElement::from_plain((i * 31 % 12289) as u16);
        b.coeffs[i] = FieldElement::from_plain((12288 - i) as u16);
    }
    let s = a.add(&b);
    let d = a.sub(&b);
    let k = a.scale(FieldElement::from_plain(3));
    for i in 0..512 {
        let x = (i * 31 % 12289) as u32;
        let y = (12288 - i) as u32;
        assert_eq!(s.coeffs[i].to_plain() as u32, (x + y) % Q);
        assert_eq!(d.coeffs[i].to_plain() as u32, (x + Q - y) % Q);
        assert_eq!(k.coeffs[i].to_plain() as u32, (3 * x) % Q);
    }
    let mut w = a.clone();
    w.zeroize();
    assert_eq!(w, Poly::<512>::zero());
}

#[test]
fn transform_product_matches_schoolbook_at_1024() {
    let ctx = NttContext::<1024>::new();
    let mut a_raw = vec![0u16; 1024];
    let mut b_raw = vec![0u16; 1024];
    let mut a = Poly::<1024>::zero();
    let mut b = Poly::<1024>::zero();
    for i in 0..1024 {
        a_raw[i] = ((i * 53 + 5) % 12289) as u16;
        b_raw[i] = ((i * i + 3) % 12289) as u16;
        a.coeffs[i] = FieldElement::from_plain(a_raw[i]);
        b.coeffs[i] = FieldElement::from_plain(b_raw[i]);
    }
    let got = ctx.mul(&a, &b);
    let want = naive_mul::<1024>(&a_raw, &b_raw);
    for i in 0..1024 {
        assert_eq!(got.coeffs[i].to_plain(), want[i], "coefficient {i}");
    }
    // the product is commutative
    assert_eq!(ctx.mul(&b, &a), got);
}

#[test]
fn wrap_at_1024_gives_minus_one() {
    let ctx = NttContext::<1024>::new();
    let mut a = Poly::<1024>::zero();
    let mut b = Poly::<1024>::zero();
    a.coeffs[1023] = FieldElement::from_plain(1);
    b.coeffs[1] = FieldElement::from_plain(1);
    let c = ctx.mul(&a, &b);
    assert_eq!(c.coeffs[0].to_plain(), 12288);
    for i in 1..1024 {
        assert_eq!(c.coeffs[i].to_plain(), 0);
    }
}

#[test]
fn psi_values_and_pow_mod() {
    assert_eq!(pow_mod(2, 10, 1000), 24);
    assert_eq!(pow_mod(5, 0, 7), 1);
    assert_eq!(pow_mod(12288, 3, Q), 12288);
    // psi = 11^((q-1)/(2n)) mod q
    let psi512 = NttContext::<512>::new().psi() as u32;
    assert_eq!(psi512, pow_mod(11, 12, Q));
    let psi1024 = NttContext::<1024>::new().psi() as u32;
    assert_eq!(psi1024, pow_mod(11, 6, Q));
    assert_eq!(pow_mod(psi1024, 1024, Q), Q - 1);
}

// ---- sampling and encodings --------------------------------------------

#[test]
fn decode_reduces_arbitrary_bytes() {
    let mut data = vec![0u8; 1024];
    data[0] = 0xFF;
    data[1] = 0xFF; // 65535
    data[2] = 0x01;
    data[3] = 0x30; // 0x3001 = 12289
    let p = decode_poly::<512>(&data);
    assert_eq!(p.coeffs[0].to_plain() as u32, 65535 % Q);
    assert_eq!(p.coeffs[1].to_plain(), 0);
    let mut out = vec![0u8; 1024];
    encode_poly::<512>(&p, &mut out);
    assert_eq!(out[0], ((65535 % Q) & 0xFF) as u8);
    assert_eq!(out[1], ((65535 % Q) >> 8) as u8);
}

#[test]
fn cbd_counts_ones_in_each_half() {
    let p = cbd_from_bytes::<3>(&[0xFF, 0x00, 0x0F, 0xF0, 0x00, 0xFF]);
    assert_eq!(p.coeffs[0].to_plain(), 8);
    assert_eq!(p.coeffs[1].to_plain(), 0);
    assert_eq!(p.coeffs[2].to_plain(), 12289 - 8);
    let p = cbd_from_bytes::<1>(&[0b1010_0000, 0b0000_0001]);
    assert_eq!(p.coeffs[0].to_plain(), 1);
}

#[test]
fn rejection_sampling_accepts_words_below_the_limit() {
    let raw = [0x01, 0x00, 0xFF, 0xFF, 0x02, 0x30, 0xF0, 0xEF, 0x05, 0xF0, 0x07];
    let mut v: Vec<u16> = Vec::new();
    accept_words(&raw, &mut v, 10);
    // 1 kept; 65535 rejected; 12290 -> 1; 61424 -> 12268; 61445 rejected; odd byte ignored
    assert_eq!(v, vec![1, 1, 12268]);
    let mut w: Vec<u16> = Vec::new();
    accept_words(&raw, &mut w, 2);
    assert_eq!(w, vec![1, 1]);
    let mut full: Vec<u16> = vec![5];
    accept_words(&raw, &mut full, 1);
    assert_eq!(full, vec![5]);
}

#[test]
fn sampling_depends_on_seed_and_nonce() {
    let a = expand_a::<512>(&[1u8; 32]);
    let b = expand_a::<512>(&[2u8; 32]);
    assert_ne!(a, b);
    let x = cbd_sample::<512>(&[5u8; 32], 0);
    let y = cbd_sample::<512>(&[5u8; 32], 1);
    assert_ne!(x, y);
}

// ---- messages and CPA encryption ---------------------------------------

#[test]
fn message_embedding_roundtrips() {
    for byte in [0u8, 0x5A, 0xFF] {
        let mut msg = [byte; SEED_LEN];
        msg[3] = 0x81;
        assert_eq!(poly_to_msg::<512>(&msg_to_poly::<512>(&msg)), msg);
        assert_eq!(poly_to_msg::<1024>(&msg_to_poly::<1024>(&msg)), msg);
    }
}

#[test]
fn cpa_encryption_decrypts_to_the_message() {
    let kem = ReKem::new();
    let ctx = NttContext::<512>::new();
    let (pk, sk) = kem.keygen_derand(&[11u8; 32], &[12u8; 32], &[13u8; 32]);
    let s = decode_poly::<512>(&sk[..1024]);
    let msg = [0xC3u8; 32];
    let ct: [u8; 2048] = pke_encrypt::<512, 2048>(&ctx, &pk, &msg, &[14u8; 32]);
    assert_eq!(pke_decrypt::<512>(&ctx, &s, &ct), msg);
}

// ---- KEM ---------------------------------------------------------------

#[test]
fn kem_with_fresh_randomness_roundtrips() {
    let kem = ReKem1024::new();
    let (pk, sk) = kem.keygen().unwrap();
    let (ct, ss1) = kem.encaps(&pk).unwrap();
    assert_eq!(kem.decaps(&sk, &ct), ss1);
    assert_eq!(kem.dimension(), 1024);
}

#[test]
fn secret_key_layout_holds_the_public_key_and_its_hash() {
    let kem = ReKem::new();
    let (pk, sk) = kem.keygen_derand(&[1u8; 32], &[2u8; 32], &[3u8; 32]);
    assert_eq!(&sk[1024..1024 + 1056], &pk[..]);
    assert_eq!(&sk[1024 + 1056..1024 + 1056 + 32], &sha3_256(&pk)[..]);
    assert_eq!(&sk[2144 - 32..], &[3u8; 32][..]);
    assert_eq!(&pk[..32], &[1u8; 32][..]);
}

// ---- outside primitives ------------------------------------------------

#[test]
fn hash_wrappers_give_the_standard_digests() {
    assert_eq!(
        hex(&sha3_256(b"")),
        "a7ffc6f8bf1ed76651c14756a061d662f580ff4de43b49fa82d80a4b80f8434a"
    );
    assert_eq!(
        hex(&sha3_512(b"")),
        "a69f73cca23a9ac5c8b567dc185a756e97c982164fe25859e0d1dcc1475c80a6\
         15b2123af1f5f94c11e3e9402c3ac558f500199d95b6d3e301758586281dcd26"
    );
    assert_eq!(
        hex(&shake256(b"", 32)),
        "46b9dd2b0ba88d13233b3feb743eeb243fcd52ea62b81b82b50c27646ed5762f"
    );
    assert_eq!(shake256(b"abc", 5).len(), 5);
}

#[test]
fn constant_time_compare_wipe_and_randomness() {
    assert_eq!(ct_eq_bytes(&[1, 2, 3], &[1, 2, 3]), 1);
    assert_eq!(ct_eq_bytes(&[1, 2, 3], &[1, 2, 4]), 0);
    assert_eq!(ct_eq_bytes(&[1, 2, 3], &[1, 2]), 0);
    let mut buf = [0xAAu8; 16];
    wipe_bytes(&mut buf);
    assert_eq!(buf, [0u8; 16]);
    let mut r = [0u8; 64];
    assert!(fill_random(&mut r).is_ok());
    assert!(r.iter().any(|&b| b != 0));
}

// ---- parameters ----------------------------------------------------------

#[test]
fn parameter_sets_derive_the_sizes() {
    let p = newhope_512();
    assert_eq!(p.poly_len(), 1024);
    assert_eq!(p.pk_len(), 1056);
    assert_eq!(p.sk_len(), 2144);
    assert_eq!(p.ct_len(), 2048);
    assert_eq!(p.msg_bits(), 256);
    assert_eq!(p.cbd_bytes(), 2);
    assert_eq!(p.rejection_limit(), 61445);
    let l = level5_1024();
    assert_eq!(l.pk_len(), 2080);
    assert_eq!(l.sk_len(), 4192);
    assert_eq!(l.ct_len(), 4096);
    assert_eq!(l.cbd_bytes(), 2);
    assert_eq!(active(), p);
}

// ---- envelopes and identifiers ----------------------------------------

#[test]
fn envelope_edge_cases() {
    let empty = Envelope::new(Algorithm::MlKem768, vec![]);
    let bytes = empty.encode();
    assert_eq!(bytes, vec![0x10, 0, 0, 0, 0]);
    assert_eq!(empty.encoded_len(), 5);
    assert_eq!(Envelope::decode(&bytes).unwrap(), empty);
    assert_eq!(
        Envelope::decode_supported(&bytes),
        Err(VersionError::NotOffered(Algorithm::MlKem768))
    );
    let ok = Envelope::new(Algorithm::ReKem512, vec![9, 8, 7]);
    let back = Envelope::decode_supported(&ok.encode()).unwrap();
    assert_eq!(back.algorithm(), Algorithm::ReKem512);
    assert_eq!(back.body(), &[9, 8, 7]);
    assert_eq!(back.into_body(), vec![9, 8, 7]);
    assert_eq!(Envelope::decode(&[]), Err(VersionError::Truncated));
    assert_eq!(
        Envelope::decode(&[0x01, 0, 0, 0, 1]),
        Err(VersionError::LengthMismatch { declared: 1, actual: 0 })
    );
}

#[test]
fn identifiers_and_labels() {
    assert_eq!(Algorithm::ReKem512.id(), 0x01);
    assert_eq!(Algorithm::HybridMlKem768X25519.id(), 0x90);
    assert_eq!(Algorithm::from_id(0x03), None);
    assert_eq!(Algorithm::from_id(0x81), Some(Algorithm::HybridReKem512X25519));
    assert_eq!(Algorithm::X25519.label(), "x25519");
    assert!(Algorithm::ReKem512.is_offered());
    assert!(!Algorithm::MlKem1024.is_offered());
}

// ---- the trait and the registry -----------------------------------------

#[test]
fn adapter_rejects_wrong_secret_key_and_ciphertext_lengths() {
    let kem = ReKemKem::new();
    let kp = kem.keygen().unwrap();
    let (ct, _) = kem.encaps(&kp.public_key).unwrap();
    assert_eq!(
        kem.decaps(&kp.secret_key[1..], &ct),
        Err(KemError::BadLength { what: "secret key", expected: 2144, got: 2143 })
    );
    assert_eq!(
        kem.decaps(&kp.secret_key, &ct[..10]),
        Err(KemError::BadLength { what: "ciphertext", expected: 2048, got: 10 })
    );
    assert_eq!(kem.name(), "re-kem");
    assert_eq!(ReKem1024Kem::new().name(), "re-kem-1024");
    assert_eq!(ReKemKem::default().params(), newhope_512());
    assert_eq!(ReKem1024Kem::new().params(), level5_1024());
}

#[test]
fn registry_replaces_and_looks_up_by_name() {
    let mut r = Registry::new();
    assert!(r.get(Algorithm::ReKem512).is_none());
    assert!(r.get_by_label("re-kem").is_none());
    assert!(r.algorithms().is_empty());

    let mut r2 = Registry::default();
    assert_eq!(r2.labels(), vec!["re-kem-512".to_string(), "re-kem-1024".to_string()]);
    assert!(r2.get_by_label("re-kem").is_some());
    assert!(r2.get_by_label("re-kem-1024").is_some());
    assert!(r2.get_by_label("ml-kem-768").is_none());
    // a second registration replaces the first and goes to the end
    r2.register(Box::new(ReKemKem::new()));
    assert_eq!(r2.algorithms(), vec![Algorithm::ReKem1024, Algorithm::ReKem512]);

    r.register(Box::new(ReKem1024Kem::new()));
    assert_eq!(r.algorithms(), vec![Algorithm::ReKem1024]);
    assert_eq!(r.get(Algorithm::ReKem1024).unwrap().algorithm(), Algorithm::ReKem1024);
}

#[test]
fn registry_lookups_return_the_registered_entry() {
    let r = Registry::with_defaults();
    let k = r.get(Algorithm::ReKem1024).unwrap();
    assert_eq!(k.algorithm(), Algorithm::ReKem1024);
    assert_eq!(k.sizes().ciphertext, 4096);
    assert_eq!(k.sizes().shared_secret, 32);
    assert_eq!(r.get_by_label("re-kem").unwrap().algorithm(), Algorithm::ReKem512);
    assert_eq!(r.get_by_label("re-kem-512").unwrap().sizes().public_key, 1056);
    assert_eq!(r.get_by_label("re-kem-1024").unwrap().algorithm(), Algorithm::ReKem1024);
}

#[test]
fn default_instances_and_dimension_constant() {
    assert_eq!(re_kem_core::ntt::N, 512);
    let a = <ReKem as Default>::default();
    let b = <ReKem1024 as Default>::default();
    assert_eq!(a.dimension(), 512);
    assert_eq!(b.dimension(), 1024);
    assert!(a.sizes_are_consistent() && b.sizes_are_consistent());
}

#[test]
fn transform_product_at_dimension_one() {
    let ctx = NttContext::<1>::new();
    let mut a = Poly::<1>::zero();
    let mut b = Poly::<1>::zero();
    a.coeffs[0] = FieldElement::from_plain(5000);
    b.coeffs[0] = FieldElement::from_plain(7);
    let c = ctx.mul(&a, &b);
    assert_eq!(c.coeffs[0].to_plain() as u32, (5000 * 7) % Q);
}
