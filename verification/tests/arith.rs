use rsckks::arith::{ArithError, ModArith};

const Q: u64 = 7681;

#[test]
fn modulus_limit() {
    assert_eq!(ModArith::new(Q).unwrap().modulus(), Q);
    let big = (1u64 << 61) - 1;
    assert_eq!(ModArith::new(big).unwrap().modulus(), big);
    assert_eq!(ModArith::new(1u64 << 61).unwrap_err(), ArithError::InvalidModulusSize(1u64 << 61, 61));
    assert_eq!(ModArith::new(u64::MAX).unwrap_err(), ArithError::InvalidModulusSize(u64::MAX, 61));
}

#[test]
fn scalar_operations() {
    let m = ModArith::new(Q).unwrap();
    assert_eq!(m.add(7000, 1000), 319);
    assert_eq!(m.sub(5, 10), Q - 5);
    assert_eq!(m.mul(7680, 7680), 1);
    assert_eq!(m.mul(1234, 5678), (1234 * 5678) % Q);
    assert_eq!(m.neg(0), 0);
    assert_eq!(m.neg(1), Q - 1);
    assert_eq!(m.pow(3, 0), 1);
    assert_eq!(m.pow(2, 13), 8192 % Q);
    assert_eq!(m.pow(17, Q - 1), 1);
}

#[test]
fn inverse_roundtrip() {
    let m = ModArith::new(Q).unwrap();
    for a in [1u64, 2, 3, 100, 7680, 4321] {
        assert_eq!(m.mul(a, m.inv(a)), 1);
    }
}

#[test]
fn laws_on_values() {
    let m = ModArith::new(Q).unwrap();
    let vals = [0u64, 1, 2, 17, 3840, 7680];
    for &a in &vals {
        assert_eq!(m.add(a, m.neg(a)), 0);
        assert_eq!(m.neg(m.neg(a)), a);
        assert_eq!(m.mul(a, 1), a);
        assert_eq!(m.mul(a, 0), 0);
        for &b in &vals {
            assert_eq!(m.add(a, b), m.add(b, a));
            assert_eq!(m.mul(a, b), m.mul(b, a));
            assert_eq!(m.sub(m.add(a, b), b), a);
            for &c in &vals {
                assert_eq!(m.mul(m.mul(a, b), c), m.mul(a, m.mul(b, c)));
                assert_eq!(m.mul(a, m.add(b, c)), m.add(m.mul(a, b), m.mul(a, c)));
            }
        }
    }
}

#[test]
fn primitive_roots() {
    let m = ModArith::new(Q).unwrap();
    let r = m.primitive_root_of_unity(512).unwrap();
    assert_eq!(m.pow(r, 256), Q - 1);
    assert_eq!(m.pow(r, 512), 1);
    // 4 does not divide 9's group order (6): no primitive 4th root of unity modulo 9
    let nine = ModArith::new(9).unwrap();
    assert_eq!(nine.primitive_root_of_unity(4), None);
    // modulo 17: g = 2 gives 4 with 4^4 = 1, refused; g = 3 gives 9 with 9^4 = 16 = -1
    let m17 = ModArith::new(17).unwrap();
    assert_eq!(m17.primitive_root_of_unity(8), Some(9));
}

#[test]
fn vector_operations() {
    let m = ModArith::new(Q).unwrap();
    let mut a = vec![1u64, 7680, 100, 0];
    let b = vec![7680u64, 7680, 200, 5];
    m.add_vec(&mut a, &b);
    assert_eq!(a, vec![0, 7679, 300, 5]);
    m.sub_vec(&mut a, &b);
    assert_eq!(a, vec![1, 7680, 100, 0]);
    m.mul_vec(&mut a, &b);
    assert_eq!(a, vec![7680, 1, 20000 % Q, 0]);
    m.mul_vec_const(&mut a, 2);
    assert_eq!(a, vec![7679, 2, (2 * (20000 % Q)) % Q, 0]);
}

#[test]
fn roots_exist_for_ntt_friendly_primes() {
    // every prime q with order | q - 1 has a primitive order-th root of unity
    for &(q, max_log) in &[(17u64, 4u32), (7681, 9), (12289, 12), (40961, 13), (65537, 16), (786433, 18)] {
        let m = ModArith::new(q).unwrap();
        for log in 1..=max_log {
            let order = 1u64 << log;
            assert_eq!((q - 1) % order, 0);
            let r = m.primitive_root_of_unity(order).unwrap();
            assert!(r < q);
            assert_eq!(m.pow(r, order), 1);
            assert_eq!(m.pow(r, order / 2), q - 1);
        }
    }
}
