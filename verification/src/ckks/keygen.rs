use vstd::prelude::*;

use crate::arith::VecOp;
use crate::ckks::types::{error_poly, full_poly, PublicKey, RelinKey, SecretKey};
use crate::ckks::CkksContext;
use crate::math::{lemma_sub_add_then_add, lemma_sub_then_add};
use crate::rng::thread_rng;
use crate::rns::RnsRing;
use crate::sampling::{drawn_ternary, sample_ternary, Ternary};

verus! {

/// `e - a·s`, limb by limb and point by point.
pub open spec fn masked_error(ring: &RnsRing, a: Seq<Seq<u64>>, s: Seq<Seq<u64>>, e: Seq<Seq<u64>>) -> Seq<Seq<u64>> {
    ring.combine_limbs(e, ring.combine_limbs(a, s, VecOp::Mul), VecOp::Sub)
}

/// The `q` half of a relinearisation key: `e - a·s + P·s²`, with `P` the product of the
/// special moduli taken modulo each `q_i`.
pub open spec fn relin_q_part(ctx: &CkksContext, a: Seq<Seq<u64>>, s: Seq<Seq<u64>>, e: Seq<Seq<u64>>) -> Seq<Seq<u64>> {
    let rq = ctx.rq();
    rq.combine_limbs(
        masked_error(&rq, a, s, e),
        rq.scale_limbs(rq.combine_limbs(s, s, VecOp::Mul), ctx.p_mod_q()),
        VecOp::Add,
    )
}

/// Generates the keys of a context.
pub struct KeyGenerator<'a> {
    ctx: &'a CkksContext,
}

impl<'a> KeyGenerator<'a> {
    /// The context the keys belong to.
    pub closed spec fn context(&self) -> CkksContext {
        *self.ctx
    }

    pub fn new(ctx: &'a CkksContext) -> (r: Self)
        ensures
            r.context() == *ctx,
    {
        KeyGenerator { ctx }
    }

    /// Samples a secret key: a ternary vector with exactly `n / 2` nonzero coefficients, in
    /// NTT form over both rings. A key is always returned.
    pub fn secret_key(&self) -> (res: Option<SecretKey>)
        requires
            self.context().usable(),
        ensures
            res is Some,
            res matches Some(sk) ==> {
                &&& sk.wf_for(&self.context())
                &&& exists|s: Seq<Ternary>|
                    drawn_ternary(s, self.context().rq().dim(), self.context().rq().dim() / 2)
                        && #[trigger] sk.encodes(&self.context(), s)
            },
    {
        let ctx = self.ctx;
        let mut rng = thread_rng();
        let n = ctx.n();
        let s = match sample_ternary(n, &mut rng, n / 2) {
            Some(s) => s,
            None => {
                return None;
            },
        };
        proof {
            ctx.lemma_wf();
        }
        let sk_q = ctx.ring_q().poly_from_ternary(s.as_slice());
        let sk_p = ctx.ring_p().poly_from_ternary(s.as_slice());
        let sk = SecretKey { sk_q, sk_p };
        proof {
            assert(sk.encodes(&self.context(), s@));
        }
        Some(sk)
    }

    /// A public key for `sk`: `a` drawn uniformly, `b = e - a·s` with the error vector `e`
    /// (one small signed coefficient per ring position).
    pub fn public_key(&self, sk: &SecretKey, e: &[i64]) -> (pk: PublicKey)
        requires
            self.context().usable(),
            sk.wf_for(&self.context()),
            e@.len() == self.context().rq().dim(),
        ensures
            pk.wf_for(&self.context()),
            pk.b@ == masked_error(
                &self.context().rq(),
                pk.a@,
                sk.sk_q@,
                error_poly(&self.context().rq(), e@),
            ),
    {
        let ring_q = self.ctx.ring_q();
        let mut rng = thread_rng();
        let a = ring_q.sample_uniform(&mut rng);
        let mut b = ring_q.poly_from_i64(e);
        proof {
            ring_q.lemma_combine_ok(a@, sk.sk_q@, VecOp::Mul);
        }
        let a_s = ring_q.mul(&a, &sk.sk_q);
        proof {
            ring_q.lemma_combine_ok(b@, a_s@, VecOp::Sub);
        }
        ring_q.sub_inplace(&mut b, &a_s);
        PublicKey { a, b }
    }

    /// A relinearisation key for `sk` with the error vector `err`: over the ciphertext ring
    /// `(e - a_q·s + P·s², a_q)`, over the special ring `(e - a_p·s, a_p)`, with `a_q` and
    /// `a_p` drawn uniformly.
    pub fn relin_key(&self, sk: &SecretKey, err: &[i64]) -> (rk: RelinKey)
        requires
            self.context().usable(),
            sk.wf_for(&self.context()),
            err@.len() == self.context().rq().dim(),
        ensures
            rk.wf_for(&self.context()),
            rk.mod_q.0@ == relin_q_part(
                &self.context(),
                rk.mod_q.1@,
                sk.sk_q@,
                error_poly(&self.context().rq(), err@),
            ),
            rk.mod_p.0@ == masked_error(
                &self.context().rp(),
                rk.mod_p.1@,
                sk.sk_p@,
                error_poly(&self.context().rp(), err@),
            ),
    {
        let ctx = self.ctx;
        proof {
            ctx.lemma_wf();
        }
        let ring_q = ctx.ring_q();
        let ring_p = ctx.ring_p();
        let mut rng = thread_rng();
        proof {
            ring_q.lemma_combine_ok(sk.sk_q@, sk.sk_q@, VecOp::Mul);
        }
        let mut s2_q = ring_q.mul(&sk.sk_q, &sk.sk_q);
        let ghost s2 = s2_q@;
        ring_q.mul_const(&mut s2_q, ctx.p_mod_q_table().as_slice());
        proof {
            ring_q.lemma_scale_ok(s2, ctx.p_mod_q());
        }
        let a_q = ring_q.sample_uniform(&mut rng);
        let a_p = ring_p.sample_uniform(&mut rng);
        let mut err_q = ring_q.poly_from_i64(err);
        let mut err_p = ring_p.poly_from_i64(err);
        proof {
            ring_p.lemma_combine_ok(a_p@, sk.sk_p@, VecOp::Mul);
        }
        let ap_s = ring_p.mul(&a_p, &sk.sk_p);
        proof {
            ring_p.lemma_combine_ok(err_p@, ap_s@, VecOp::Sub);
        }
        ring_p.sub_inplace(&mut err_p, &ap_s);
        let b_p = err_p;
        proof {
            ring_q.lemma_combine_ok(a_q@, sk.sk_q@, VecOp::Mul);
        }
        let aq_s = ring_q.mul(&a_q, &sk.sk_q);
        proof {
            ring_q.lemma_combine_ok(err_q@, aq_s@, VecOp::Sub);
        }
        ring_q.sub_inplace(&mut err_q, &aq_s);
        proof {
            ring_q.lemma_combine_ok(err_q@, s2_q@, VecOp::Add);
        }
        ring_q.add_inplace(&mut err_q, &s2_q);
        let b_q = err_q;
        RelinKey { mod_q: (b_q, a_q), mod_p: (b_p, a_p) }
    }
}

/// A public key hides its error and no more: adding `a·s` back to `b = e - a·s` gives `e`.
pub proof fn lemma_public_key_unmasks(ring: &RnsRing, a: Seq<Seq<u64>>, s: Seq<Seq<u64>>, e: Seq<Seq<u64>>)
    requires
        ring.wf(),
        full_poly(ring, a),
        full_poly(ring, s),
        full_poly(ring, e),
    ensures
        ring.combine_limbs(masked_error(ring, a, s, e), ring.combine_limbs(a, s, VecOp::Mul), VecOp::Add) == e,
{
    let l = ring.combine_limbs(masked_error(ring, a, s, e), ring.combine_limbs(a, s, VecOp::Mul), VecOp::Add);
    assert forall|i: int| 0 <= i < l.len() implies #[trigger] l[i] =~= e[i] by {
        ring.lemma_modulus_bounds(i);
        let q = ring.q_at(i) as int;
        assert forall|j: int| 0 <= j < l[i].len() implies #[trigger] l[i][j] == e[i][j] by {
            let x = e[i][j] as int;
            let y = (a[i][j] * s[i][j]) % q;
            lemma_sub_then_add(x, y, q);
        }
    }
    assert(l =~= e);
}

/// The `q` half of a relinearisation key hides `e + P·s²`: adding `a·s` back gives it.
pub proof fn lemma_relin_key_unmasks(ctx: &CkksContext, a: Seq<Seq<u64>>, s: Seq<Seq<u64>>, e: Seq<Seq<u64>>)
    requires
        ctx.wf(),
        full_poly(&ctx.rq(), a),
        full_poly(&ctx.rq(), s),
        full_poly(&ctx.rq(), e),
    ensures
        ({
            let rq = ctx.rq();
            rq.combine_limbs(relin_q_part(ctx, a, s, e), rq.combine_limbs(a, s, VecOp::Mul), VecOp::Add)
                == rq.combine_limbs(e, rq.scale_limbs(rq.combine_limbs(s, s, VecOp::Mul), ctx.p_mod_q()), VecOp::Add)
        }),
{
    let rq = ctx.rq();
    ctx.lemma_wf();
    let l = rq.combine_limbs(relin_q_part(ctx, a, s, e), rq.combine_limbs(a, s, VecOp::Mul), VecOp::Add);
    let t = rq.scale_limbs(rq.combine_limbs(s, s, VecOp::Mul), ctx.p_mod_q());
    let r = rq.combine_limbs(e, t, VecOp::Add);
    assert forall|i: int| 0 <= i < l.len() implies #[trigger] l[i] =~= r[i] by {
        rq.lemma_modulus_bounds(i);
        let q = rq.q_at(i) as int;
        assert forall|j: int| 0 <= j < l[i].len() implies #[trigger] l[i][j] == r[i][j] by {
            let x = e[i][j] as int;
            let y = (a[i][j] * s[i][j]) % q;
            let w = t[i][j] as int;
            assert(0 <= w < q);
            lemma_sub_add_then_add(x, y, w, q);
        }
    }
    assert(l =~= r);
}

} // verus!
