use vstd::prelude::*;

use crate::arith::VecOp;
use crate::ckks::types::{error_poly, ternary_poly, Ciphertext, Plaintext, PublicKey};
use crate::ckks::CkksContext;
use crate::rng::thread_rng;
use crate::rns::RnsRing;
use crate::sampling::{drawn_ternary, sample_ternary, Ternary};

verus! {

/// The first part of an encryption: `v·b + m + e0`.
pub open spec fn encrypt_c0(
    ring: &RnsRing,
    b: Seq<Seq<u64>>,
    v: Seq<Seq<u64>>,
    m: Seq<Seq<u64>>,
    e0: Seq<Seq<u64>>,
) -> Seq<Seq<u64>> {
    ring.combine_limbs(ring.combine_limbs(ring.combine_limbs(v, b, VecOp::Mul), m, VecOp::Add), e0, VecOp::Add)
}

/// The second part of an encryption: `v·a + e1`.
pub open spec fn encrypt_c1(ring: &RnsRing, a: Seq<Seq<u64>>, v: Seq<Seq<u64>>, e1: Seq<Seq<u64>>) -> Seq<Seq<u64>> {
    ring.combine_limbs(ring.combine_limbs(v, a, VecOp::Mul), e1, VecOp::Add)
}

/// Encrypts plaintexts under a public key.
pub struct Encryptor<'a> {
    ctx: &'a CkksContext,
    pk: &'a PublicKey,
}

impl<'a> Encryptor<'a> {
    /// The context the ciphertexts belong to.
    pub closed spec fn context(&self) -> CkksContext {
        *self.ctx
    }

    /// The key that encrypts.
    pub closed spec fn key(&self) -> PublicKey {
        *self.pk
    }

    pub fn new(ctx: &'a CkksContext, pk: &'a PublicKey) -> (r: Self)
        ensures
            r.context() == *ctx,
            r.key() == *pk,
    {
        Encryptor { ctx, pk }
    }

    /// Encrypts `pt` with the error vectors `e0` and `e1`: draws a ternary `v` with `n / 2`
    /// nonzero coefficients and returns `(v·b + m + e0, v·a + e1)`; a ciphertext is always
    /// returned.
    pub fn encrypt(&self, pt: &Plaintext, e0: &[i64], e1: &[i64]) -> (res: Option<Ciphertext>)
        requires
            self.context().usable(),
            self.key().wf_for(&self.context()),
            self.context().rq().limbs_ok(pt.data@),
            e0@.len() == self.context().rq().dim(),
            e1@.len() == self.context().rq().dim(),
        ensures
            res is Some,
            res matches Some(ct) ==> {
                let rq = self.context().rq();
                let n = rq.dim();
                &&& ct.wf_for(&rq)
                &&& ct.c0@.len() == rq.num()
                &&& exists|v: Seq<Ternary>|
                    drawn_ternary(v, n, n / 2)
                        && ct.c0@ == encrypt_c0(&rq, self.key().b@, #[trigger] ternary_poly(&rq, v), pt.data@, error_poly(&rq, e0@))
                        && ct.c1@ == encrypt_c1(&rq, self.key().a@, ternary_poly(&rq, v), error_poly(&rq, e1@))
            },
    {
        let ring_q = self.ctx.ring_q();
        let pk = self.pk;
        let mut rng = thread_rng();
        let e0p = ring_q.poly_from_i64(e0);
        let e1p = ring_q.poly_from_i64(e1);
        let n = self.ctx.n();
        let v_coefs = match sample_ternary(n, &mut rng, n / 2) {
            Some(v) => v,
            None => {
                return None;
            },
        };
        let v = ring_q.poly_from_ternary(v_coefs.as_slice());
        let ghost vp = v@;
        proof {
            ring_q.lemma_combine_ok(v@, pk.b@, VecOp::Mul);
        }
        let mut c0 = ring_q.mul(&v, &pk.b);
        proof {
            ring_q.lemma_combine_ok(c0@, pt.data@, VecOp::Add);
        }
        ring_q.add_inplace(&mut c0, &pt.data);
        proof {
            ring_q.lemma_combine_ok(c0@, e0p@, VecOp::Add);
        }
        ring_q.add_inplace(&mut c0, &e0p);
        let mut c1 = v;
        proof {
            ring_q.lemma_combine_ok(c1@, pk.a@, VecOp::Mul);
        }
        ring_q.mul_inplace(&mut c1, &pk.a);
        proof {
            ring_q.lemma_combine_ok(c1@, e1p@, VecOp::Add);
        }
        ring_q.add_inplace(&mut c1, &e1p);
        proof {
            assert(vp == ternary_poly(&self.context().rq(), v_coefs@));
        }
        Some(Ciphertext { c0, c1 })
    }
}

} // verus!
