use re_kem_core::field::{FieldElement, Q, R2_MOD_Q};

#[test]
fn r_mod_q_constant_is_4091_not_4095() {
    // R = 2^16 mod q, computed independently of the Montgomery machinery.
    let r_mod_q: u64 = (1u64 << 16) % (Q as u64);
    assert_eq!(r_mod_q, 4091, "R mod q must be 4091 - the draft's 4095 is wrong");
}

#[test]
fn r2_mod_q_constant_is_correct() {
    let r_mod_q: u64 = (1u64 << 16) % (Q as u64);
    let r2: u64 = (r_mod_q * r_mod_q) % (Q as u64);
    assert_eq!(r2 as u32, R2_MOD_Q);
}

#[test]
fn roundtrip_plain_montgomery_plain() {
    for a in 0..Q as u16 {
        let fe = FieldElement::from_plain(a);
        assert_eq!(fe.to_plain(), a, "roundtrip failed for a={a}");
    }
}

#[test]
fn multiplication_matches_naive_mod_mul() {
    let samples: Vec<u16> = (0..50)
        .map(|i| ((i * 257) % Q as u32) as u16)
        .chain([0, 1, Q as u16 - 1, (Q as u16) / 2])
        .collect();

    for &a in &samples {
        for &b in &samples {
            let expected = ((a as u32) * (b as u32)) % Q;
            let got = FieldElement::from_plain(a)
                .mul(FieldElement::from_plain(b))
                .to_plain();
            assert_eq!(
                got as u32, expected,
                "mismatch for a={a}, b={b}: got {got}, expected {expected}"
            );
        }
    }
}

#[test]
fn addition_and_subtraction_match_naive() {
    let samples: [u16; 7] = [0, 1, 2, Q as u16 - 1, Q as u16 - 2, 6144, 6145];
    for &a in &samples {
        for &b in &samples {
            let exp_add = ((a as u32) + (b as u32)) % Q;
            let got_add = FieldElement::from_plain(a)
                .add(FieldElement::from_plain(b))
                .to_plain();
            assert_eq!(got_add as u32, exp_add, "add mismatch a={a} b={b}");

            let exp_sub = ((a as u32) + Q - (b as u32)) % Q;
            let got_sub = FieldElement::from_plain(a)
                .sub(FieldElement::from_plain(b))
                .to_plain();
            assert_eq!(got_sub as u32, exp_sub, "sub mismatch a={a} b={b}");
        }
    }
}
