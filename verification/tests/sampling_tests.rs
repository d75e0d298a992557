use re_kem_core::field::Q;
use re_kem_core::sampling::{cbd_sample, decode_poly, encode_poly, expand_a, ETA};

fn check_dim<const N: usize>() {
    // values within [-eta, eta]
    let seed = [7u8; 32];
    let p = cbd_sample::<N>(&seed, 0);
    for i in 0..N {
        let v = p.coeffs[i].to_plain() as i32;
        let centred = if v > (Q as i32) / 2 { v - Q as i32 } else { v };
        assert!(
            centred >= -(ETA as i32) && centred <= ETA as i32,
            "n={N}: coefficient {i} = {centred} outside [-{ETA}, {ETA}]"
        );
    }

    // determinism
    let a = cbd_sample::<N>(&[42u8; 32], 1);
    let b = cbd_sample::<N>(&[42u8; 32], 1);
    assert_eq!(a, b);
    assert_ne!(a, cbd_sample::<N>(&[42u8; 32], 2));

    // expand_a stays in range
    let a_poly = expand_a::<N>(&[3u8; 32]);
    for i in 0..N {
        assert!((a_poly.coeffs[i].to_plain() as usize) < Q as usize);
    }

    // encode/decode roundtrip
    let p = expand_a::<N>(&[9u8; 32]);
    let mut buf = vec![0u8; 2 * N];
    encode_poly::<N>(&p, &mut buf);
    let dec = decode_poly::<N>(&buf);
    assert_eq!(p, dec);
}

#[test]
fn all_dimensions_behave() {
    check_dim::<512>();
    check_dim::<1024>();
}

#[test]
fn encode_length_is_dimension_dependent() {
    let p = expand_a::<512>(&[1u8; 32]);
    let mut b512 = vec![0u8; 1024];
    encode_poly::<512>(&p, &mut b512);
    let q1024 = expand_a::<1024>(&[1u8; 32]);
    let mut b1024 = vec![0u8; 2048];
    encode_poly::<1024>(&q1024, &mut b1024);
    assert_eq!(b512.len(), 2 * 512);
    assert_eq!(b1024.len(), 2 * 1024);
}
