use re_kem_core::version::{Algorithm, Envelope, VersionError};

#[test]
fn roundtrip() {
    let env = Envelope::new(Algorithm::ReKem512, vec![1, 2, 3, 4]);
    let bytes = env.encode();
    assert_eq!(bytes[0], 0x01);
    assert_eq!(&bytes[1..5], &[0, 0, 0, 4]);
    assert_eq!(Envelope::decode(&bytes).unwrap(), env);
}

#[test]
fn ids_are_stable_and_unique() {
    let all = [
        Algorithm::ReKem512,
        Algorithm::ReKem1024,
        Algorithm::MlKem768,
        Algorithm::MlKem1024,
        Algorithm::X25519,
        Algorithm::HybridReKem512X25519,
        Algorithm::HybridMlKem768X25519,
    ];
    let mut seen = Vec::new();
    for a in all {
        assert!(!seen.contains(&a.id()), "duplicate id for {}", a.label());
        seen.push(a.id());
        assert_eq!(Algorithm::from_id(a.id()), Some(a), "id roundtrip {}", a.label());
    }
}

#[test]
fn unknown_id_is_rejected_not_panicked() {
    let bytes = [0xFE, 0, 0, 0, 0];
    assert_eq!(
        Envelope::decode(&bytes),
        Err(VersionError::UnknownAlgorithm(0xFE))
    );
}

#[test]
fn reserved_algorithm_parses_but_is_not_offered() {
    let env = Envelope::new(Algorithm::ReKem1024, vec![0u8; 16]);
    let bytes = env.encode();
    assert!(Envelope::decode(&bytes).is_ok());
    assert_eq!(
        Envelope::decode_supported(&bytes),
        Err(VersionError::NotOffered(Algorithm::ReKem1024))
    );
    assert!(!Algorithm::ReKem1024.is_offered());
}

#[test]
fn truncated_and_mismatched_are_rejected() {
    assert_eq!(Envelope::decode(&[0x01, 0, 0]), Err(VersionError::Truncated));
    let bad = [0x01, 0, 0, 0, 9, 1, 2];
    assert_eq!(
        Envelope::decode(&bad),
        Err(VersionError::LengthMismatch { declared: 9, actual: 2 })
    );
}
