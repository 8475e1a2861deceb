use rand::RngExt;
use rsckks::ckks::decryptor::Decryptor;
use rsckks::ckks::encryptor::Encryptor;
use rsckks::ckks::evaluator::{EvalError, Evaluator};
use rsckks::ckks::keygen::KeyGenerator;
use rsckks::ckks::params::{gen_ckks_context, CkksParams, ParamsErr};
use rsckks::ckks::types::{Ciphertext, Plaintext};
use rsckks::arith::ArithError;
use rsckks::ckks::{CkksContext, CkksContextErr};
use rsckks::rns::RnsRingError;
use rsckks::rns::{NttForm, Poly};

fn make_test_ctx() -> CkksContext {
    CkksContext::new(&[998244353, 985661441, 754974721], &[469762049], 256).unwrap()
}

fn test_env_ctx() -> CkksContext {
    gen_ckks_context(&CkksParams { first_mod_size: 61, scaling_size: 27, mul_depth: 5, ring_dim: 16 }).unwrap()
}

fn gaussian(n: usize, sigma: f64) -> Vec<i64> {
    let mut rng = rand::rng();
    (0..n).map(|_| (rng.sample::<f64, _>(rand_distr::StandardNormal) * sigma).round() as i64).collect()
}

fn copy(p: &Poly<NttForm>) -> Poly<NttForm> {
    Poly::new(p.limbs.clone())
}

#[test]
fn simple_valid_params() {
    gen_ckks_context(&CkksParams {
        first_mod_size: 61,
        scaling_size: 55,
        mul_depth: 15,
        ring_dim: 16,
    })
    .unwrap();
}

#[test]
fn secretkey_gen() {
    let ctx = test_env_ctx();
    let k = KeyGenerator::new(&ctx);
    k.secret_key().unwrap();
}

#[test]
fn publickey_gen() {
    let ctx = test_env_ctx();
    let k = KeyGenerator::new(&ctx);
    k.public_key(&k.secret_key().unwrap(), &gaussian(ctx.n(), 3.2));
}

#[test]
fn relinkey_gen() {
    let ctx = test_env_ctx();
    let k = KeyGenerator::new(&ctx);
    let sk = k.secret_key().unwrap();
    k.relin_key(&sk, &gaussian(ctx.n(), 3.2));
}

#[test]
fn encrypt_test() {
    let ctx = make_test_ctx();
    let k = KeyGenerator::new(&ctx);
    let sk = k.secret_key().unwrap();
    let pk = k.public_key(&sk, &gaussian(ctx.n(), 3.2));
    let e = Encryptor::new(&ctx, &pk);

    let mut rng = rand::rng();

    let pt = Plaintext { data: ctx.ring_q().sample_uniform(&mut rng) };

    e.encrypt(&pt, &gaussian(ctx.n(), 3.2), &gaussian(ctx.n(), 3.2)).unwrap();
}

#[test]
fn params_are_checked_in_order() {
    let p = |first_mod_size, scaling_size, ring_dim| CkksParams { first_mod_size, scaling_size, mul_depth: 2, ring_dim };
    assert_eq!(gen_ckks_context(&p(64, 64, 3)).unwrap_err(), ParamsErr::FirstModSizeTooBig(64));
    assert_eq!(gen_ckks_context(&p(63, 64, 3)).unwrap_err(), ParamsErr::ScalingSizeTooBig(64));
    assert_eq!(gen_ckks_context(&p(40, 30, 24)).unwrap_err(), ParamsErr::RingDimNotPowerOfTwo);
    assert_eq!(gen_ckks_context(&p(30, 30, 16)).unwrap_err(), ParamsErr::ScalingNotSmallerThanFirstMod(30, 30));
    assert_eq!(gen_ckks_context(&p(30, 40, 16)).unwrap_err(), ParamsErr::ScalingNotSmallerThanFirstMod(40, 30));
}

#[test]
fn oversized_first_modulus_is_refused_by_the_rings() {
    let params = CkksParams { first_mod_size: 62, scaling_size: 30, mul_depth: 1, ring_dim: 16 };
    match gen_ckks_context(&params).unwrap_err() {
        ParamsErr::CkksContext(CkksContextErr::RnsRing(RnsRingError::Arith(ArithError::InvalidModulusSize(q0, 61)))) => {
            assert_eq!(64 - q0.leading_zeros(), 62);
        }
        other => panic!("unexpected error {other:?}"),
    }
}

#[test]
fn context_shape_follows_params() {
    let ctx = gen_ckks_context(&CkksParams { first_mod_size: 40, scaling_size: 30, mul_depth: 3, ring_dim: 32 }).unwrap();
    assert_eq!(ctx.n(), 32);
    assert_eq!(ctx.num_levels(), 4);
    // 3 * 30 + 40 = 130 bits, covered by three 61-bit special moduli
    assert_eq!(ctx.ring_p().num_moduli(), 3);
    let mut all = Vec::new();
    for i in 0..4 {
        let q = ctx.ring_q().modulus(i);
        let bits = 64 - q.leading_zeros();
        assert_eq!(bits, if i == 0 { 40 } else { 30 });
        assert_eq!((q - 1) % 64, 0);
        all.push(q);
    }
    for i in 0..3 {
        let p = ctx.ring_p().modulus(i);
        assert_eq!(64 - p.leading_zeros(), 61);
        all.push(p);
    }
    for i in 0..all.len() {
        for j in i + 1..all.len() {
            assert_ne!(all[i], all[j]);
        }
    }
    assert_eq!(ctx.p_mod_q_table().len(), 4);
}

#[test]
fn noiseless_encryption_decrypts_exactly() {
    let ctx = make_test_ctx();
    let n = ctx.n();
    let k = KeyGenerator::new(&ctx);
    let sk = k.secret_key().unwrap();
    let zeros = vec![0i64; n];
    let pk = k.public_key(&sk, &zeros);
    let mut rng = rand::rng();
    let pt = Plaintext { data: ctx.ring_q().sample_uniform(&mut rng) };
    let ct = Encryptor::new(&ctx, &pk).encrypt(&pt, &zeros, &zeros).unwrap();
    let back = Decryptor::new(&ctx, &sk).decrypt(&ct);
    assert_eq!(back.data.limbs, pt.data.limbs);
    assert_eq!(ct.level(), 2);
    assert_eq!(back.level(), 2);
}

#[test]
fn decryption_leaves_message_plus_noise() {
    let ctx = make_test_ctx();
    let n = ctx.n();
    let rq = ctx.ring_q();
    let k = KeyGenerator::new(&ctx);
    let sk = k.secret_key().unwrap();
    let pk = k.public_key(&sk, &vec![0i64; n]);
    let mut rng = rand::rng();
    let pt = Plaintext { data: rq.sample_uniform(&mut rng) };
    let e0 = gaussian(n, 3.2);
    let e1 = gaussian(n, 3.2);
    let ct = Encryptor::new(&ctx, &pk).encrypt(&pt, &e0, &e1).unwrap();
    let back = Decryptor::new(&ctx, &sk).decrypt(&ct);
    // with a noiseless public key the noise is e0 + e1·s
    let mut expect = rq.add(&pt.data, &rq.poly_from_i64(&e0));
    rq.add_inplace(&mut expect, &rq.mul(&rq.poly_from_i64(&e1), &sk.sk_q));
    assert_eq!(back.data.limbs, expect.limbs);
}

#[test]
fn public_key_hides_its_error() {
    let ctx = make_test_ctx();
    let rq = ctx.ring_q();
    let k = KeyGenerator::new(&ctx);
    let sk = k.secret_key().unwrap();
    let e = gaussian(ctx.n(), 3.2);
    let pk = k.public_key(&sk, &e);
    let unmasked = rq.add(&pk.b, &rq.mul(&pk.a, &sk.sk_q));
    assert_eq!(unmasked.limbs, rq.poly_from_i64(&e).limbs);
}

#[test]
fn relin_key_hides_scaled_square() {
    let ctx = make_test_ctx();
    let rq = ctx.ring_q();
    let rp = ctx.ring_p();
    let k = KeyGenerator::new(&ctx);
    let sk = k.secret_key().unwrap();
    let e = gaussian(ctx.n(), 3.2);
    let rk = k.relin_key(&sk, &e);
    let unmasked_q = rq.add(&rk.mod_q.0, &rq.mul(&rk.mod_q.1, &sk.sk_q));
    let mut s2 = rq.mul(&sk.sk_q, &sk.sk_q);
    rq.mul_const(&mut s2, &[469762049 % 998244353, 469762049 % 985661441, 469762049 % 754974721]);
    let expect_q = rq.add(&rq.poly_from_i64(&e), &s2);
    assert_eq!(unmasked_q.limbs, expect_q.limbs);
    let unmasked_p = rp.add(&rk.mod_p.0, &rp.mul(&rk.mod_p.1, &sk.sk_p));
    assert_eq!(unmasked_p.limbs, rp.poly_from_i64(&e).limbs);
}

#[test]
fn addition_and_subtraction_are_homomorphic() {
    let ctx = make_test_ctx();
    let n = ctx.n();
    let rq = ctx.ring_q();
    let k = KeyGenerator::new(&ctx);
    let sk = k.secret_key().unwrap();
    let pk = k.public_key(&sk, &gaussian(n, 3.2));
    let enc = Encryptor::new(&ctx, &pk);
    let dec = Decryptor::new(&ctx, &sk);
    let ev = Evaluator::new(&ctx);
    let mut rng = rand::rng();
    let m1 = Plaintext { data: rq.sample_uniform(&mut rng) };
    let m2 = Plaintext { data: rq.sample_uniform(&mut rng) };
    let c1 = enc.encrypt(&m1, &gaussian(n, 3.2), &gaussian(n, 3.2)).unwrap();
    let c2 = enc.encrypt(&m2, &gaussian(n, 3.2), &gaussian(n, 3.2)).unwrap();
    let d1 = dec.decrypt(&c1);
    let d2 = dec.decrypt(&c2);
    let sum = ev.add(&c1, &c2).unwrap();
    assert_eq!(dec.decrypt(&sum).data.limbs, rq.add(&d1.data, &d2.data).limbs);
    let diff = ev.sub(&c1, &c2).unwrap();
    assert_eq!(dec.decrypt(&diff).data.limbs, rq.sub(&d1.data, &d2.data).limbs);
}

#[test]
fn mismatched_levels_are_refused() {
    let ctx = make_test_ctx();
    let n = ctx.n();
    let k = KeyGenerator::new(&ctx);
    let sk = k.secret_key().unwrap();
    let pk = k.public_key(&sk, &gaussian(n, 3.2));
    let mut rng = rand::rng();
    let pt = Plaintext { data: ctx.ring_q().sample_uniform(&mut rng) };
    let full = Encryptor::new(&ctx, &pk).encrypt(&pt, &gaussian(n, 3.2), &gaussian(n, 3.2)).unwrap();
    let lower = Ciphertext {
        c0: Poly::new(full.c0.limbs[..2].to_vec()),
        c1: Poly::new(full.c1.limbs[..2].to_vec()),
    };
    assert_eq!(lower.level(), 1);
    let ev = Evaluator::new(&ctx);
    assert_eq!(ev.add(&full, &lower).unwrap_err(), EvalError::MismatchedLevels(2, 1));
    assert_eq!(ev.sub(&lower, &full).unwrap_err(), EvalError::MismatchedLevels(1, 2));
    let same = Ciphertext { c0: copy(&full.c0), c1: copy(&full.c1) };
    assert!(ev.add(&full, &same).is_ok());
}

fn naive_negacyclic(q: u64, a: &[u64], b: &[u64]) -> Vec<u64> {
    let n = a.len();
    let q128 = q as u128;
    let mut c = vec![0u128; n];
    for i in 0..n {
        for j in 0..n {
            let p = (a[i] as u128 * b[j] as u128) % q128;
            if i + j < n {
                c[i + j] = (c[i + j] + p) % q128;
            } else {
                c[i + j - n] = (c[i + j - n] + q128 - p) % q128;
            }
        }
    }
    c.into_iter().map(|x| x as u64).collect()
}

fn residues(e: &[i64], q: u64) -> Vec<u64> {
    e.iter().map(|&x| x.rem_euclid(q as i64) as u64).collect()
}

#[test]
fn decryption_noise_in_coefficients() {
    let ctx = make_test_ctx();
    let n = ctx.n();
    let rq = ctx.ring_q();
    let k = KeyGenerator::new(&ctx);
    let sk = k.secret_key().unwrap();
    let e = gaussian(n, 3.2);
    let pk = k.public_key(&sk, &e);
    let mut rng = rand::rng();
    let pt = Plaintext { data: rq.sample_uniform(&mut rng) };
    let e0 = gaussian(n, 3.2);
    let e1 = gaussian(n, 3.2);
    let ct = Encryptor::new(&ctx, &pk).encrypt(&pt, &e0, &e1).unwrap();
    let back = rq.intt(Decryptor::new(&ctx, &sk).decrypt(&ct).data);
    let m = rq.intt(copy(&pt.data));
    let s = rq.intt(copy(&sk.sk_q));
    // the ternary v is not observable; check d - m - e0 - e1·s = v·e through its size:
    // every coefficient of v·e is at most n·max|e| in absolute value
    let max_e = e.iter().map(|x| x.unsigned_abs()).max().unwrap();
    for i in 0..ctx.num_levels() {
        let q = rq.modulus(i);
        let e1s = naive_negacyclic(q, &residues(&e1, q), &s.limbs[i]);
        let e0r = residues(&e0, q);
        for j in 0..n {
            let known = (m.limbs[i][j] as u128 + e0r[j] as u128 + e1s[j] as u128) % q as u128;
            let ve = (back.limbs[i][j] as u128 + 3 * q as u128 - known) % q as u128;
            let centered = if ve > (q / 2) as u128 { q as u128 - ve } else { ve };
            assert!(centered <= (n as u128) * (max_e as u128), "limb {i}, coefficient {j}: noise {centered}");
        }
    }
}

#[test]
fn tensor_decrypts_to_product() {
    let ctx = make_test_ctx();
    let n = ctx.n();
    let rq = ctx.ring_q();
    let k = KeyGenerator::new(&ctx);
    let sk = k.secret_key().unwrap();
    let pk = k.public_key(&sk, &gaussian(n, 3.2));
    let enc = Encryptor::new(&ctx, &pk);
    let dec = Decryptor::new(&ctx, &sk);
    let ev = Evaluator::new(&ctx);
    let mut rng = rand::rng();
    let m1 = Plaintext { data: rq.sample_uniform(&mut rng) };
    let m2 = Plaintext { data: rq.sample_uniform(&mut rng) };
    let c1 = enc.encrypt(&m1, &gaussian(n, 3.2), &gaussian(n, 3.2)).unwrap();
    let c2 = enc.encrypt(&m2, &gaussian(n, 3.2), &gaussian(n, 3.2)).unwrap();
    let (d0, d1, d2) = ev.tensor(&c1, &c2).unwrap();
    assert_eq!(d0.limbs, rq.mul(&c1.c0, &c2.c0).limbs);
    assert_eq!(d2.limbs, rq.mul(&c1.c1, &c2.c1).limbs);
    let s2 = rq.mul(&sk.sk_q, &sk.sk_q);
    let mut got = rq.add(&rq.mul(&d1, &sk.sk_q), &d0);
    rq.add_inplace(&mut got, &rq.mul(&d2, &s2));
    let expect = rq.mul(&dec.decrypt(&c1).data, &dec.decrypt(&c2).data);
    assert_eq!(got.limbs, expect.limbs);
    let lower = Ciphertext {
        c0: Poly::new(c2.c0.limbs[..1].to_vec()),
        c1: Poly::new(c2.c1.limbs[..1].to_vec()),
    };
    assert!(matches!(ev.tensor(&c1, &lower), Err(EvalError::MismatchedLevels(2, 0))));
}

#[test]
fn generated_contexts_have_inverse_tables() {
    let ctx = test_env_ctx();
    assert!(ctx.ring_q().has_inverse_tables());
    assert!(ctx.ring_p().has_inverse_tables());
}

#[test]
fn zero_depth_accepts_any_smaller_scaling() {
    let ctx = gen_ckks_context(&CkksParams { first_mod_size: 30, scaling_size: 1, mul_depth: 0, ring_dim: 16 }).unwrap();
    assert_eq!(ctx.num_levels(), 1);
}
