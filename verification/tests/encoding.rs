use rsckks::ckks::encoding::{bit_reverse_indices, centered_coefficients, encode_coefficients};
use rsckks::ckks::CkksContext;

fn make_test_ctx() -> CkksContext {
    CkksContext::new(&[998244353, 985661441, 754974721], &[469762049], 256).unwrap()
}

#[test]
fn bit_reverse_tables() {
    assert_eq!(bit_reverse_indices(1), vec![0]);
    assert_eq!(bit_reverse_indices(2), vec![0, 1]);
    assert_eq!(bit_reverse_indices(8), vec![0, 4, 2, 6, 1, 5, 3, 7]);
    let t = bit_reverse_indices(256);
    for i in 0..256 {
        assert_eq!(t[t[i]], i);
        assert_eq!(t[i], (i as u8).reverse_bits() as usize);
    }
}

#[test]
fn coefficients_roundtrip_through_a_plaintext() {
    let ctx = make_test_ctx();
    let n = ctx.n();
    let coeffs: Vec<i128> = (0..n as i128).map(|j| (j - 128) * 1000).collect();
    let pt = encode_coefficients(&ctx, &coeffs);
    assert_eq!(pt.level(), 2);
    let back = centered_coefficients(&ctx, &pt);
    let expect: Vec<i64> = coeffs.iter().map(|&c| c as i64).collect();
    assert_eq!(back, expect);
}

#[test]
fn centering_splits_at_half_the_modulus() {
    let ctx = make_test_ctx();
    let n = ctx.n();
    let q = 998244353i128;
    let mut coeffs = vec![0i128; n];
    coeffs[0] = q / 2;
    coeffs[1] = q / 2 + 1;
    coeffs[2] = -1;
    coeffs[3] = q;
    let back = centered_coefficients(&ctx, &encode_coefficients(&ctx, &coeffs));
    assert_eq!(back[0], (q / 2) as i64);
    assert_eq!(back[1], (q / 2 + 1 - q) as i64);
    assert_eq!(back[2], -1);
    assert_eq!(back[3], 0);
}
