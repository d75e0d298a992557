use re_kem_core::field::Q;
use re_kem_core::kem::{
    msg_bit, msg_to_poly, KemGeneric, ReKem, ReKem1024, CT_LEN, CT_LEN_1024, PK_LEN, PK_LEN_1024,
    SEED_LEN, SK_LEN, SK_LEN_1024,
};

#[test]
fn size_invariants_hold() {
    assert!(ReKem::new().sizes_are_consistent());
    assert!(ReKem1024::new().sizes_are_consistent());
    assert_eq!(PK_LEN, 1056);
    assert_eq!(SK_LEN, 2144);
    assert_eq!(CT_LEN, 2048);
    assert_eq!(PK_LEN_1024, 2080);
    assert_eq!(SK_LEN_1024, 4192);
    assert_eq!(CT_LEN_1024, 4096);
}

fn roundtrip<const N: usize, const PK: usize, const SK: usize, const CT: usize>(
    kem: &KemGeneric<N, PK, SK, CT>,
    tag: &str,
) {
    let (pk, sk) = kem.keygen_derand(&[1u8; 32], &[2u8; 32], &[3u8; 32]);
    let (ct, ss_tx) = kem.encaps_derand(&pk, &[4u8; 32]);
    let ss_rx = kem.decaps(&sk, &ct);

    assert_eq!(ss_tx, ss_rx, "{tag}: shared secrets must match");
    assert_eq!(pk.len(), PK);
    assert_eq!(sk.len(), SK);
    assert_eq!(ct.len(), CT);

    // tampering must never yield the real secret
    let mut bad = ct;
    bad[17] ^= 0x01;
    assert_ne!(kem.decaps(&sk, &bad), ss_tx, "{tag}: IND-CCA2 must reject");

    // wrong secret key must not yield the real secret either
    let (_pk2, sk2) = kem.keygen_derand(&[9u8; 32], &[8u8; 32], &[7u8; 32]);
    assert_ne!(kem.decaps(&sk2, &ct), ss_tx, "{tag}: wrong key must not match");
}

#[test]
fn keygen_encaps_decaps_roundtrip_n512() {
    roundtrip(&ReKem::new(), "n=512");
}

#[test]
fn keygen_encaps_decaps_roundtrip_n1024() {
    roundtrip(&ReKem1024::new(), "n=1024");
}

#[test]
fn deterministic_reproducibility() {
    for tag in ["512", "1024"] {
        if tag == "512" {
            let kem = ReKem::new();
            let (pk1, sk1) = kem.keygen_derand(&[20u8; 32], &[21u8; 32], &[22u8; 32]);
            let (pk2, sk2) = kem.keygen_derand(&[20u8; 32], &[21u8; 32], &[22u8; 32]);
            assert_eq!(pk1, pk2);
            assert_eq!(sk1, sk2);
            let (ct1, ss1) = kem.encaps_derand(&pk1, &[23u8; 32]);
            let (ct2, ss2) = kem.encaps_derand(&pk2, &[23u8; 32]);
            assert_eq!(ct1, ct2);
            assert_eq!(ss1, ss2);
        } else {
            let kem = ReKem1024::new();
            let (pk1, sk1) = kem.keygen_derand(&[20u8; 32], &[21u8; 32], &[22u8; 32]);
            let (pk2, sk2) = kem.keygen_derand(&[20u8; 32], &[21u8; 32], &[22u8; 32]);
            assert_eq!(pk1, pk2);
            assert_eq!(sk1, sk2);
            let (ct1, ss1) = kem.encaps_derand(&pk1, &[23u8; 32]);
            let (ct2, ss2) = kem.encaps_derand(&pk2, &[23u8; 32]);
            assert_eq!(ct1, ct2);
            assert_eq!(ss1, ss2);
        }
    }
}

#[test]
fn tampered_ciphertext_gives_different_secret() {
    let kem = ReKem::new();
    let (pk, sk) = kem.keygen_derand(&[1u8; 32], &[2u8; 32], &[3u8; 32]);
    let (ct, ss) = kem.encaps_derand(&pk, &[4u8; 32]);
    let mut bad = ct;
    bad[100] ^= 0x01;
    assert_ne!(kem.decaps(&sk, &bad), ss);
}

#[test]
fn wrong_secret_key_gives_different_secret() {
    let kem = ReKem::new();
    let (pk1, _sk1) = kem.keygen_derand(&[1u8; 32], &[2u8; 32], &[3u8; 32]);
    let (_pk2, sk2) = kem.keygen_derand(&[5u8; 32], &[6u8; 32], &[7u8; 32]);
    let (ct, ss) = kem.encaps_derand(&pk1, &[4u8; 32]);
    assert_ne!(kem.decaps(&sk2, &ct), ss);
}

#[test]
fn lengths_match_reference() {
    let kem = ReKem::new();
    let (pk, sk) = kem.keygen_derand(&[1u8; 32], &[2u8; 32], &[3u8; 32]);
    let (ct, ss) = kem.encaps_derand(&pk, &[4u8; 32]);
    assert_eq!(pk.len(), 1056);
    assert_eq!(sk.len(), 2144);
    assert_eq!(ct.len(), 2048);
    assert_eq!(ss.len(), 32);
}

#[test]
fn branchless_recentring_matches_naive_for_all_values() {
    let q = Q as i32;
    let half_q = q / 2;
    let quarter_q = q / 4;

    for v in 0..q {
        let mask = (half_q - v) >> 31;
        let centred = v - (q & mask);
        let sign = centred >> 31;
        let abs = (centred + sign) ^ sign;
        let got = ((quarter_q - abs) >> 31) & 1;

        let n_centred = if v > half_q { v - q } else { v };
        let n_abs = if n_centred < 0 { -n_centred } else { n_centred };
        let want = (n_abs > quarter_q) as i32;

        assert_eq!(got, want, "recentring mismatch at v = {v}");
    }
}

#[test]
fn branchless_msg_embedding_matches_naive() {
    let half = (Q / 2) as u16;
    for byte in [0u8, 1, 0x55, 0xAA, 0xFF, 0x7F, 0x80] {
        let msg = [byte; SEED_LEN];

        let p = msg_to_poly::<512>(&msg);
        for i in 0..(SEED_LEN * 8) {
            let want = if msg_bit(&msg, i) == 1 { half } else { 0 };
            assert_eq!(p.coeffs[i].to_plain(), want, "n=512 byte {byte:#04x} bit {i}");
        }
        for i in (SEED_LEN * 8)..512 {
            assert_eq!(p.coeffs[i].to_plain(), 0, "n=512 padding at {i}");
        }

        let q = msg_to_poly::<1024>(&msg);
        for i in 0..(SEED_LEN * 8) {
            let want = if msg_bit(&msg, i) == 1 { half } else { 0 };
            assert_eq!(q.coeffs[i].to_plain(), want, "n=1024 byte {byte:#04x} bit {i}");
        }
        for i in (SEED_LEN * 8)..1024 {
            assert_eq!(q.coeffs[i].to_plain(), 0, "n=1024 padding at {i}");
        }
    }
}
