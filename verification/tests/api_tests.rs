use re_kem_core::api::{Kem, KemError, ReKem1024Kem, ReKemKem, Registry};
use re_kem_core::kem::{ReKem, CT_LEN, CT_LEN_1024, PK_LEN, PK_LEN_1024, SK_LEN, SS_LEN};
use re_kem_core::version::Algorithm;

#[test]
fn trait_adapter_matches_the_inherent_api() {
    let kem = ReKemKem::new();
    let inner = ReKem::new();
    assert_eq!(kem.sizes().public_key, PK_LEN);
    assert_eq!(kem.sizes().secret_key, SK_LEN);
    assert_eq!(kem.sizes().ciphertext, CT_LEN);
    assert_eq!(kem.sizes().shared_secret, SS_LEN);
    let _ = inner;
}

#[test]
fn roundtrip_through_the_trait() {
    let kem = ReKemKem::new();
    let kp = kem.keygen().unwrap();
    let (ct, ss1) = kem.encaps(&kp.public_key).unwrap();
    let ss2 = kem.decaps(&kp.secret_key, &ct).unwrap();
    assert_eq!(ss1, ss2);
}

#[test]
fn works_as_a_trait_object() {
    let boxed: Box<dyn Kem> = Box::new(ReKemKem::new());
    let kp = boxed.keygen().unwrap();
    let (ct, ss1) = boxed.encaps(&kp.public_key).unwrap();
    assert_eq!(boxed.decaps(&kp.secret_key, &ct).unwrap(), ss1);
    assert_eq!(boxed.algorithm(), Algorithm::ReKem512);
}

#[test]
fn wrong_lengths_are_rejected() {
    let kem = ReKemKem::new();
    assert!(matches!(
        kem.encaps(&[0u8; 10]),
        Err(KemError::BadLength { what: "public key", .. })
    ));
}

#[test]
fn registry_lookup_by_id_and_label() {
    let r = Registry::with_defaults();
    assert!(r.get(Algorithm::ReKem512).is_some());
    assert!(r.get_by_label("re-kem-512").is_some());
    assert!(r.get(Algorithm::ReKem1024).is_some());
    assert_eq!(
        r.get(Algorithm::ReKem1024).unwrap().sizes().ciphertext,
        CT_LEN_1024
    );
    assert!(r.get(Algorithm::MlKem768).is_none());
    assert_eq!(
        r.algorithms(),
        vec![Algorithm::ReKem512, Algorithm::ReKem1024]
    );
}

#[test]
fn second_parameter_set_works_through_the_trait() {
    let kem = ReKem1024Kem::new();
    assert_eq!(kem.algorithm(), Algorithm::ReKem1024);
    assert_eq!(kem.sizes().public_key, PK_LEN_1024);
    assert_eq!(kem.sizes().ciphertext, CT_LEN_1024);

    let kp = kem.keygen().unwrap();
    let (ct, ss1) = kem.encaps(&kp.public_key).unwrap();
    assert_eq!(ct.len(), CT_LEN_1024);
    let ss2 = kem.decaps(&kp.secret_key, &ct).unwrap();
    assert_eq!(ss1, ss2);
}
