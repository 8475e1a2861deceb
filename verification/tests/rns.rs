use rand::RngExt;
use rsckks::arith::ArithError;
use rsckks::ring::RingError;
use rsckks::rns::{CoeffForm, CrossRingPrecomp, NttForm, Poly, RnsRing, RnsRingError};
use rsckks::sampling::Ternary;

const MODULI: [u64; 3] = [7681, 12289, 40961];
const N: usize = 256;

fn make_ring() -> RnsRing {
    RnsRing::new(&MODULI, N).unwrap()
}

fn random_limbs(moduli: &[u64], n: usize) -> Vec<Vec<u64>> {
    let mut rng = rand::rng();
    moduli.iter().map(|&q| (0..n).map(|_| rng.random_range(0..q)).collect()).collect()
}

fn pow_mod(b: u64, e: u64, m: u64) -> u64 {
    let mut r: u128 = 1;
    let mut b = (b % m) as u128;
    let mut e = e;
    let m = m as u128;
    while e > 0 {
        if e & 1 == 1 {
            r = r * b % m;
        }
        b = b * b % m;
        e >>= 1;
    }
    r as u64
}

#[test]
fn rns_accessors() {
    let ring = make_ring();
    assert_eq!(ring.n(), N);
    assert_eq!(ring.num_moduli(), 3);
    for (i, &q) in MODULI.iter().enumerate() {
        assert_eq!(ring.modulus(i), q);
    }
}

#[test]
fn rns_errors() {
    assert_eq!(
        RnsRing::new(&[7681, 9], 2).unwrap_err(),
        RnsRingError::Ring(RingError::NoPrimitiveRoot(9, 4))
    );
    let big = (1u64 << 61) + 1;
    assert_eq!(
        RnsRing::new(&[7681, big], 2).unwrap_err(),
        RnsRingError::Arith(ArithError::InvalidModulusSize(big, 61))
    );
}

#[test]
fn rns_ntt_roundtrip() {
    let ring = make_ring();
    let limbs = random_limbs(&MODULI, N);
    let p = Poly::<CoeffForm>::new(limbs.clone());
    let back = ring.intt(ring.ntt(p));
    assert_eq!(back.limbs, limbs);
}

#[test]
fn rns_add_sub_neg() {
    let ring = make_ring();
    let a = Poly::<NttForm>::new(random_limbs(&MODULI, N));
    let b = Poly::<NttForm>::new(random_limbs(&MODULI, N));
    let s = ring.add(&a, &b);
    let d = ring.sub(&s, &b);
    assert_eq!(d.limbs, a.limbs);
    let s2 = ring.add(&b, &a);
    assert_eq!(s.limbs, s2.limbs);
    let na = ring.neg(&a);
    let z = ring.add(&a, &na);
    for limb in &z.limbs {
        assert!(limb.iter().all(|&x| x == 0));
    }
    assert_eq!(ring.neg(&na).limbs, a.limbs);
    let mut c = Poly::<NttForm>::new(a.limbs.clone());
    ring.add_inplace(&mut c, &b);
    assert_eq!(c.limbs, s.limbs);
    ring.sub_inplace(&mut c, &b);
    assert_eq!(c.limbs, a.limbs);
}

#[test]
fn rns_mul_is_pointwise() {
    let ring = make_ring();
    let a = Poly::<NttForm>::new(random_limbs(&MODULI, N));
    let b = Poly::<NttForm>::new(random_limbs(&MODULI, N));
    let m = ring.mul(&a, &b);
    for i in 0..3 {
        for j in 0..N {
            let expect = ((a.limbs[i][j] as u128 * b.limbs[i][j] as u128) % MODULI[i] as u128) as u64;
            assert_eq!(m.limbs[i][j], expect);
        }
    }
    let mut c = Poly::<NttForm>::new(a.limbs.clone());
    ring.mul_inplace(&mut c, &b);
    assert_eq!(c.limbs, m.limbs);
}

#[test]
fn signed_and_ternary_polys() {
    let ring = make_ring();
    let mut e = vec![0i64; N];
    e[0] = -1;
    e[1] = 5;
    e[2] = -40000;
    let p = ring.intt(ring.poly_from_i64(&e));
    for (i, &q) in MODULI.iter().enumerate() {
        assert_eq!(p.limbs[i][0], q - 1);
        assert_eq!(p.limbs[i][1], 5);
        assert_eq!(p.limbs[i][2], (q as i64 - (40000 % q as i64)) as u64 % q);
        assert!(p.limbs[i][3..].iter().all(|&x| x == 0));
    }
    let mut s = vec![Ternary::Zero; N];
    s[3] = Ternary::PlusOne;
    s[4] = Ternary::MinusOne;
    let t = ring.intt(ring.poly_from_ternary(&s));
    for (i, &q) in MODULI.iter().enumerate() {
        assert_eq!(t.limbs[i][3], 1);
        assert_eq!(t.limbs[i][4], q - 1);
        assert_eq!(t.limbs[i][0], 0);
    }
}

#[test]
fn sampled_polynomials() {
    let ring = make_ring();
    let mut rng = rand::rng();
    let u = ring.sample_uniform(&mut rng);
    assert_eq!(u.limbs.len(), 3);
    for (i, limb) in u.limbs.iter().enumerate() {
        assert_eq!(limb.len(), N);
        assert!(limb.iter().all(|&x| x < MODULI[i]));
    }
    let t = ring.intt(ring.sample_ternary(&mut rng, 64).unwrap());
    let nonzero = t.limbs[0].iter().filter(|&&x| x != 0).count();
    assert_eq!(nonzero, 64);
    for (i, limb) in t.limbs.iter().enumerate() {
        assert!(limb.iter().all(|&x| x == 0 || x == 1 || x == MODULI[i] - 1));
    }
}

#[test]
fn mul_const_scales_each_limb() {
    let ring = make_ring();
    let a = random_limbs(&MODULI, N);
    let mut p = Poly::<CoeffForm>::new(a.clone());
    ring.mul_const(&mut p, &[2, 3, 4]);
    for i in 0..3 {
        let c = [2u64, 3, 4][i];
        for j in 0..N {
            assert_eq!(p.limbs[i][j], a[i][j] * c % MODULI[i]);
        }
    }
}

#[test]
fn cross_ring_tables() {
    let rq = RnsRing::new(&[7681, 12289], N).unwrap();
    let rp = RnsRing::new(&[40961], N).unwrap();
    let cr = CrossRingPrecomp::new(&rq, &rp);
    assert_eq!(cr.q_hat_mod_p, vec![vec![12289 % 40961], vec![7681 % 40961]]);
    assert_eq!(cr.p_hat_mod_q, vec![vec![1, 1]]);
    assert_eq!(cr.p_mod_q, vec![40961 % 7681, 40961 % 12289]);
}

#[test]
fn base_convert_small_value() {
    let qs = [7681u64, 12289];
    let p = 40961u64;
    let rq = RnsRing::new(&qs, N).unwrap();
    let rp = RnsRing::new(&[p], N).unwrap();
    let cr = CrossRingPrecomp::new(&rq, &rp);
    let x = 5u64;
    let poly = Poly::<CoeffForm>::new(vec![vec![x; N], vec![x; N]]);
    let crt = rq.crt_coefficients(&poly);
    let c0 = x * pow_mod(qs[1] % qs[0], qs[0] - 2, qs[0]) % qs[0];
    let c1 = x * pow_mod(qs[0] % qs[1], qs[1] - 2, qs[1]) % qs[1];
    assert!(crt[0].iter().all(|&v| v == c0));
    assert!(crt[1].iter().all(|&v| v == c1));
    let out = rp.base_convert(&crt, &cr.q_hat_mod_p);
    let expect = ((c0 as u128 * (qs[1] % p) as u128 + c1 as u128 * (qs[0] % p) as u128) % p as u128) as u64;
    assert_eq!(out.limbs.len(), 1);
    assert!(out.limbs[0].iter().all(|&v| v == expect));
    let big_q = (qs[0] as u128) * (qs[1] as u128);
    let candidates: Vec<u64> = (0..2u128).map(|u| ((x as u128 + u * big_q) % p as u128) as u64).collect();
    assert!(candidates.contains(&expect));
}

fn naive_negacyclic(q: u64, a: &[u64], b: &[u64]) -> Vec<u64> {
    let n = a.len();
    let q128 = q as u128;
    let mut c = vec![0u128; n];
    for i in 0..n {
        for j in 0..n {
            let p = (a[i] as u128 * b[j] as u128) % q128;
            if i + j < n {
                c[i + j] = (c[i + j] + p) % q128;
            } else {
                c[i + j - n] = (c[i + j - n] + q128 - p) % q128;
            }
        }
    }
    c.into_iter().map(|x| x as u64).collect()
}

#[test]
fn rns_mul_is_negacyclic_product() {
    let ring = make_ring();
    let a = random_limbs(&MODULI, N);
    let b = random_limbs(&MODULI, N);
    let fa = ring.ntt(Poly::<CoeffForm>::new(a.clone()));
    let fb = ring.ntt(Poly::<CoeffForm>::new(b.clone()));
    let prod = ring.intt(ring.mul(&fa, &fb));
    for i in 0..3 {
        assert_eq!(prod.limbs[i], naive_negacyclic(MODULI[i], &a[i], &b[i]));
    }
}

#[test]
fn multiplying_by_x_rotates_negacyclically() {
    let ring = make_ring();
    let a = random_limbs(&MODULI, N);
    let mut x = vec![vec![0u64; N]; 3];
    for limb in x.iter_mut() {
        limb[1] = 1;
    }
    let fa = ring.ntt(Poly::<CoeffForm>::new(a.clone()));
    let fx = ring.ntt(Poly::<CoeffForm>::new(x));
    let prod = ring.intt(ring.mul(&fa, &fx));
    for i in 0..3 {
        assert_eq!(prod.limbs[i][0], (MODULI[i] - a[i][N - 1]) % MODULI[i]);
        assert_eq!(prod.limbs[i][1..], a[i][..N - 1]);
    }
}

#[test]
fn wide_coefficients_are_reduced() {
    let ring = make_ring();
    let mut c = vec![0i128; N];
    c[0] = i128::MIN;
    c[1] = i128::MAX;
    c[2] = -5;
    c[3] = 1i128 << 100;
    let p = ring.intt(ring.poly_from_i128(&c));
    for (i, &q) in MODULI.iter().enumerate() {
        for j in 0..4 {
            assert_eq!(p.limbs[i][j] as i128, c[j].rem_euclid(q as i128));
        }
    }
}

#[test]
fn base_extend_q_to_p_error_bounded_values() {
    let ring_q = make_ring();
    let p_moduli = [65537u64, 786433];
    let ring_p = RnsRing::new(&p_moduli, N).unwrap();
    let cross = CrossRingPrecomp::new(&ring_q, &ring_p);
    let l = 3u128;
    let big_q: u128 = MODULI.iter().map(|&q| q as u128).product();
    let mut rng = rand::rng();
    for _ in 0..10 {
        let coeffs: Vec<u64> = (0..N).map(|_| rng.random_range(0..=3000u64)).collect();
        let limbs: Vec<Vec<u64>> = MODULI.iter().map(|&q| coeffs.iter().map(|&c| c % q).collect()).collect();
        let crt = ring_q.crt_coefficients(&Poly::<CoeffForm>::new(limbs));
        let poly_p = ring_p.base_convert(&crt, &cross.q_hat_mod_p);
        for j in 0..N {
            // one u in 0..L serves every target modulus
            let u_ok: Vec<u128> = (0..l)
                .filter(|&u| {
                    p_moduli.iter().enumerate().all(|(k, &pk)| {
                        poly_p.limbs[k][j] as u128 == (coeffs[j] as u128 + u * big_q) % pk as u128
                    })
                })
                .collect();
            assert!(!u_ok.is_empty(), "coefficient {j} converted outside x + u*Q");
        }
    }
}

#[test]
fn ternary_samples_without_nonzeros_are_zero() {
    let mut rng = rand::rng();
    assert_eq!(rsckks::sampling::sample_ternary(5, &mut rng, 0), Some(vec![Ternary::Zero; 5]));
    let ring = make_ring();
    let p = ring.sample_ternary(&mut rng, 0).unwrap();
    for limb in &p.limbs {
        assert!(limb.iter().all(|&x| x == 0));
    }
}

#[test]
fn base_convert_from_larger_moduli() {
    // source moduli above the target moduli: CRT entries exceed the targets
    let qs = [65537u64, 786433];
    let ps = [7681u64, 12289];
    let rq = RnsRing::new(&qs, N).unwrap();
    let rp = RnsRing::new(&ps, N).unwrap();
    let cross = CrossRingPrecomp::new(&rq, &rp);
    let big_q = qs[0] as u128 * qs[1] as u128;
    let mut rng = rand::rng();
    let coeffs: Vec<u64> = (0..N).map(|_| rng.random_range(0..(big_q as u64))).collect();
    let limbs: Vec<Vec<u64>> = qs.iter().map(|&q| coeffs.iter().map(|&c| c % q).collect()).collect();
    let crt = rq.crt_coefficients(&Poly::<CoeffForm>::new(limbs.clone()));
    // each CRT entry times its cofactor restores the residue
    for i in 0..2 {
        let cof = qs[1 - i] as u128;
        for j in 0..N {
            assert_eq!((crt[i][j] as u128 * cof % qs[i] as u128) as u64, limbs[i][j]);
        }
    }
    let out = rp.base_convert(&crt, &cross.q_hat_mod_p);
    for j in 0..N {
        let ok = (0..2u128).any(|u| {
            ps.iter().enumerate().all(|(k, &pk)| out.limbs[k][j] as u128 == (coeffs[j] as u128 + u * big_q) % pk as u128)
        });
        assert!(ok, "coefficient {j}");
    }
}

#[test]
fn prime_rings_have_inverse_tables() {
    assert!(make_ring().has_inverse_tables());
}

#[test]
fn place_draw_sets_the_drawn_sign() {
    let mut v = vec![Ternary::Zero; 4];
    rsckks::sampling::place_draw(&mut v, 2, true);
    assert_eq!(v, vec![Ternary::Zero, Ternary::Zero, Ternary::PlusOne, Ternary::Zero]);
    rsckks::sampling::place_draw(&mut v, 0, false);
    assert_eq!(v, vec![Ternary::MinusOne, Ternary::Zero, Ternary::PlusOne, Ternary::Zero]);
}

#[test]
fn ternary_samples_have_exactly_h_nonzeros() {
    let mut rng = rand::rng();
    for h in [1usize, 10, 64] {
        let v = rsckks::sampling::sample_ternary(64, &mut rng, h).unwrap();
        assert_eq!(v.len(), 64);
        assert_eq!(v.iter().filter(|t| **t != Ternary::Zero).count(), h);
    }
}

#[test]
fn prime_moduli_fail_only_on_size() {
    let big = (1u64 << 62) + 1;
    assert_eq!(
        RnsRing::new(&[7681, big, 12289], N).unwrap_err(),
        RnsRingError::Arith(ArithError::InvalidModulusSize(big, 61))
    );
    assert!(RnsRing::new(&[7681, 12289, 40961, 65537, 786433], N).is_ok());
}
