use rand::RngExt;
use rsckks::arith::ModArith;
use rsckks::ring::{Ring, RingError};

const Q: u64 = 7681;
const N: usize = 256;

fn make_ring() -> Ring {
    Ring::new(ModArith::new(Q).unwrap(), N).unwrap()
}

fn poly_vec() -> Vec<u64> {
    let mut rng = rand::rng();
    (0..N).map(|_| rng.random_range(0..Q)).collect()
}

fn naive_negacyclic(arith: &ModArith, a: &[u64], b: &[u64]) -> Vec<u64> {
    let n = a.len();
    let mut c = vec![0u64; n];
    for i in 0..n {
        for j in 0..n {
            if i + j < n {
                c[i + j] = arith.add(c[i + j], arith.mul(a[i], b[j]));
            } else {
                c[i + j - n] = arith.sub(c[i + j - n], arith.mul(a[i], b[j]));
            }
        }
    }
    c
}

#[test]
fn ring_accessors() {
    let ring = make_ring();
    assert_eq!(ring.n(), N);
    assert_eq!(ring.modulus(), Q);
    assert_eq!(ring.arith().modulus(), Q);
}

#[test]
fn ring_without_root_is_refused() {
    let err = Ring::new(ModArith::new(9).unwrap(), 2).unwrap_err();
    assert_eq!(err, RingError::NoPrimitiveRoot(9, 4));
}

#[test]
fn ntt_roundtrip_values() {
    let ring = make_ring();
    for _ in 0..20 {
        let a = poly_vec();
        let mut poly = a.clone();
        ring.forward_ntt_ct(&mut poly);
        ring.inverse_ntt_gs(&mut poly);
        assert_eq!(poly, a);
    }
}

#[test]
fn ntt_of_one_is_all_ones() {
    let ring = make_ring();
    let mut one = vec![0u64; N];
    one[0] = 1;
    ring.forward_ntt_ct(&mut one);
    assert_eq!(one, vec![1u64; N]);
}

#[test]
fn ntt_mul_matches_naive_values() {
    let ring = make_ring();
    for _ in 0..5 {
        let a = poly_vec();
        let b = poly_vec();
        let c_ref = naive_negacyclic(ring.arith(), &a, &b);
        let mut a_ntt = a;
        let mut b_ntt = b;
        ring.forward_ntt_ct(&mut a_ntt);
        ring.forward_ntt_ct(&mut b_ntt);
        ring.arith().mul_vec(&mut a_ntt, &b_ntt);
        ring.inverse_ntt_gs(&mut a_ntt);
        assert_eq!(a_ntt, c_ref);
    }
}

#[test]
fn ntt_add_matches_coeff_add_values() {
    let ring = make_ring();
    for _ in 0..10 {
        let a = poly_vec();
        let b = poly_vec();
        let mut c_coeff = a.clone();
        ring.arith().add_vec(&mut c_coeff, &b);
        let mut a_ntt = a;
        let mut b_ntt = b;
        ring.forward_ntt_ct(&mut a_ntt);
        ring.forward_ntt_ct(&mut b_ntt);
        ring.arith().add_vec(&mut a_ntt, &b_ntt);
        ring.inverse_ntt_gs(&mut a_ntt);
        assert_eq!(a_ntt, c_coeff);
    }
}

#[test]
fn ntt_mul_identity_values() {
    let ring = make_ring();
    let a = poly_vec();
    let mut one = vec![0u64; N];
    one[0] = 1;
    ring.forward_ntt_ct(&mut one);
    let mut a_ntt = a.clone();
    ring.forward_ntt_ct(&mut a_ntt);
    ring.arith().mul_vec(&mut a_ntt, &one);
    ring.inverse_ntt_gs(&mut a_ntt);
    assert_eq!(a_ntt, a);
}

#[test]
fn small_ring_transform() {
    let ring = Ring::new(ModArith::new(17).unwrap(), 4).unwrap();
    let a = vec![1u64, 2, 3, 4];
    let mut t = a.clone();
    ring.forward_ntt_ct(&mut t);
    ring.inverse_ntt_gs(&mut t);
    assert_eq!(t, a);
}
