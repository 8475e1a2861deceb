use vstd::prelude::*;

use crate::arith::VecOp;
use crate::ckks::decryptor::decrypt_data;
use crate::ckks::types::{full_poly, Ciphertext};
use crate::ckks::CkksContext;
use crate::math::{lemma_decrypt_linear_point, lemma_decrypt_tensor_point};
use crate::rns::{NttForm, Poly, RnsRing};

verus! {

/// Error returned when two ciphertexts cannot be combined.
#[derive(Debug, PartialEq, Eq, Clone, Copy)]
pub enum EvalError {
    /// The ciphertexts are at different levels (the two levels, in argument order).
    MismatchedLevels(usize, usize),
}

/// Computes on ciphertexts.
pub struct Evaluator<'a> {
    ctx: &'a CkksContext,
}

impl<'a> Evaluator<'a> {
    /// The context the ciphertexts belong to.
    pub closed spec fn context(&self) -> CkksContext {
        *self.ctx
    }

    pub fn new(ctx: &'a CkksContext) -> (r: Self)
        ensures
            r.context() == *ctx,
    {
        Evaluator { ctx }
    }

    /// Part by part, limb by limb sum of two ciphertexts at the same level.
    pub fn add(&self, a: &Ciphertext, b: &Ciphertext) -> (res: Result<Ciphertext, EvalError>)
        requires
            self.context().usable(),
            a.wf_for(&self.context().rq()),
            b.wf_for(&self.context().rq()),
        ensures
            match res {
                Ok(ct) => {
                    let rq = self.context().rq();
                    &&& a.c0@.len() == b.c0@.len()
                    &&& ct.c0@ == rq.combine_limbs(a.c0@, b.c0@, VecOp::Add)
                    &&& ct.c1@ == rq.combine_limbs(a.c1@, b.c1@, VecOp::Add)
                    &&& ct.wf_for(&rq)
                },
                Err(e) => {
                    &&& a.c0@.len() != b.c0@.len()
                    &&& e == EvalError::MismatchedLevels((a.c0@.len() - 1) as usize, (b.c0@.len() - 1) as usize)
                },
            },
    {
        Self::check_same_level(a, b)?;
        let ring_q = self.ctx.ring_q();
        proof {
            ring_q.lemma_combine_ok(a.c0@, b.c0@, VecOp::Add);
            ring_q.lemma_combine_ok(a.c1@, b.c1@, VecOp::Add);
        }
        let c0 = ring_q.add(&a.c0, &b.c0);
        let c1 = ring_q.add(&a.c1, &b.c1);
        Ok(Ciphertext { c0, c1 })
    }

    /// Part by part, limb by limb difference of two ciphertexts at the same level.
    pub fn sub(&self, a: &Ciphertext, b: &Ciphertext) -> (res: Result<Ciphertext, EvalError>)
        requires
            self.context().usable(),
            a.wf_for(&self.context().rq()),
            b.wf_for(&self.context().rq()),
        ensures
            match res {
                Ok(ct) => {
                    let rq = self.context().rq();
                    &&& a.c0@.len() == b.c0@.len()
                    &&& ct.c0@ == rq.combine_limbs(a.c0@, b.c0@, VecOp::Sub)
                    &&& ct.c1@ == rq.combine_limbs(a.c1@, b.c1@, VecOp::Sub)
                    &&& ct.wf_for(&rq)
                },
                Err(e) => {
                    &&& a.c0@.len() != b.c0@.len()
                    &&& e == EvalError::MismatchedLevels((a.c0@.len() - 1) as usize, (b.c0@.len() - 1) as usize)
                },
            },
    {
        Self::check_same_level(a, b)?;
        let ring_q = self.ctx.ring_q();
        proof {
            ring_q.lemma_combine_ok(a.c0@, b.c0@, VecOp::Sub);
            ring_q.lemma_combine_ok(a.c1@, b.c1@, VecOp::Sub);
        }
        let c0 = ring_q.sub(&a.c0, &b.c0);
        let c1 = ring_q.sub(&a.c1, &b.c1);
        Ok(Ciphertext { c0, c1 })
    }

    /// The three parts of the product of two ciphertexts at the same level, limb by limb in
    /// NTT form: `d0 = a0·b0`, `d1 = a0·b1 + a1·b0`, `d2 = a1·b1`. They decrypt under
    /// `(1, s, s²)` to the product of the decryptions.
    pub fn tensor(&self, a: &Ciphertext, b: &Ciphertext) -> (res: Result<
        (Poly<NttForm>, Poly<NttForm>, Poly<NttForm>),
        EvalError,
    >)
        requires
            self.context().usable(),
            a.wf_for(&self.context().rq()),
            b.wf_for(&self.context().rq()),
        ensures
            match res {
                Ok((d0, d1, d2)) => {
                    let rq = self.context().rq();
                    &&& a.c0@.len() == b.c0@.len()
                    &&& d0@ == rq.combine_limbs(a.c0@, b.c0@, VecOp::Mul)
                    &&& d1@ == rq.combine_limbs(
                        rq.combine_limbs(a.c0@, b.c1@, VecOp::Mul),
                        rq.combine_limbs(a.c1@, b.c0@, VecOp::Mul),
                        VecOp::Add,
                    )
                    &&& d2@ == rq.combine_limbs(a.c1@, b.c1@, VecOp::Mul)
                    &&& rq.limbs_ok(d0@) && rq.limbs_ok(d1@) && rq.limbs_ok(d2@)
                    &&& d0@.len() == a.c0@.len() && d1@.len() == a.c0@.len() && d2@.len() == a.c0@.len()
                },
                Err(e) => {
                    &&& a.c0@.len() != b.c0@.len()
                    &&& e == EvalError::MismatchedLevels((a.c0@.len() - 1) as usize, (b.c0@.len() - 1) as usize)
                },
            },
    {
        Self::check_same_level(a, b)?;
        let ring_q = self.ctx.ring_q();
        proof {
            ring_q.lemma_combine_ok(a.c0@, b.c0@, VecOp::Mul);
            ring_q.lemma_combine_ok(a.c0@, b.c1@, VecOp::Mul);
            ring_q.lemma_combine_ok(a.c1@, b.c0@, VecOp::Mul);
            ring_q.lemma_combine_ok(a.c1@, b.c1@, VecOp::Mul);
        }
        let d0 = ring_q.mul(&a.c0, &b.c0);
        let mut d1 = ring_q.mul(&a.c0, &b.c1);
        let cross = ring_q.mul(&a.c1, &b.c0);
        proof {
            ring_q.lemma_combine_ok(d1@, cross@, VecOp::Add);
        }
        ring_q.add_inplace(&mut d1, &cross);
        let d2 = ring_q.mul(&a.c1, &b.c1);
        Ok((d0, d1, d2))
    }

    /// `Ok` exactly when both ciphertexts are at the same level.
    fn check_same_level(a: &Ciphertext, b: &Ciphertext) -> (res: Result<(), EvalError>)
        requires
            a.c0@.len() > 0,
            b.c0@.len() > 0,
        ensures
            match res {
                Ok(_) => a.c0@.len() == b.c0@.len(),
                Err(e) => {
                    &&& a.c0@.len() != b.c0@.len()
                    &&& e == EvalError::MismatchedLevels((a.c0@.len() - 1) as usize, (b.c0@.len() - 1) as usize)
                },
            },
    {
        if a.level() != b.level() {
            return Err(EvalError::MismatchedLevels(a.level(), b.level()));
        }
        Ok(())
    }
}

/// Decryption is linear: decrypting the sum (or difference) of two ciphertexts at the same
/// level gives the sum (or difference) of their decryptions, limb by limb.
pub proof fn lemma_decrypt_linear(
    ring: &RnsRing,
    a0: Seq<Seq<u64>>,
    a1: Seq<Seq<u64>>,
    b0: Seq<Seq<u64>>,
    b1: Seq<Seq<u64>>,
    s: Seq<Seq<u64>>,
    op: VecOp,
)
    requires
        ring.wf(),
        op is Add || op is Sub,
        a1.len() == a0.len(),
        b0.len() == a0.len(),
        b1.len() == a0.len(),
        a0.len() <= ring.num(),
        ring.limbs_ok(a0),
        ring.limbs_ok(a1),
        ring.limbs_ok(b0),
        ring.limbs_ok(b1),
        full_poly(ring, s),
    ensures
        decrypt_data(ring, ring.combine_limbs(a0, b0, op), ring.combine_limbs(a1, b1, op), s)
            == ring.combine_limbs(decrypt_data(ring, a0, a1, s), decrypt_data(ring, b0, b1, s), op),
{
    let l = decrypt_data(ring, ring.combine_limbs(a0, b0, op), ring.combine_limbs(a1, b1, op), s);
    let r = ring.combine_limbs(decrypt_data(ring, a0, a1, s), decrypt_data(ring, b0, b1, s), op);
    assert forall|i: int| 0 <= i < l.len() implies #[trigger] l[i] =~= r[i] by {
        ring.lemma_modulus_bounds(i);
        let q = ring.q_at(i) as int;
        assert forall|j: int| 0 <= j < l[i].len() implies #[trigger] l[i][j] == r[i][j] by {
            lemma_decrypt_linear_point(
                a0[i][j] as int,
                a1[i][j] as int,
                b0[i][j] as int,
                b1[i][j] as int,
                s[i][j] as int,
                q,
                op is Add,
            );
        }
    }
    assert(l =~= r);
}

/// What a three-part ciphertext decrypts to under `(1, s, s²)`: `d1·s + d0 + d2·s²`.
pub open spec fn decrypt_tensor(
    ring: &RnsRing,
    d0: Seq<Seq<u64>>,
    d1: Seq<Seq<u64>>,
    d2: Seq<Seq<u64>>,
    s: Seq<Seq<u64>>,
) -> Seq<Seq<u64>> {
    ring.combine_limbs(
        decrypt_data(ring, d0, d1, s),
        ring.combine_limbs(d2, ring.combine_limbs(s, s, VecOp::Mul), VecOp::Mul),
        VecOp::Add,
    )
}

/// The tensor of two ciphertexts decrypts, under `(1, s, s²)`, to the pointwise product of
/// their decryptions, limb by limb.
pub proof fn lemma_decrypt_tensor(
    ring: &RnsRing,
    a0: Seq<Seq<u64>>,
    a1: Seq<Seq<u64>>,
    b0: Seq<Seq<u64>>,
    b1: Seq<Seq<u64>>,
    s: Seq<Seq<u64>>,
)
    requires
        ring.wf(),
        a1.len() == a0.len(),
        b0.len() == a0.len(),
        b1.len() == a0.len(),
        a0.len() <= ring.num(),
        ring.limbs_ok(a0),
        ring.limbs_ok(a1),
        ring.limbs_ok(b0),
        ring.limbs_ok(b1),
        full_poly(ring, s),
    ensures
        decrypt_tensor(
            ring,
            ring.combine_limbs(a0, b0, VecOp::Mul),
            ring.combine_limbs(ring.combine_limbs(a0, b1, VecOp::Mul), ring.combine_limbs(a1, b0, VecOp::Mul), VecOp::Add),
            ring.combine_limbs(a1, b1, VecOp::Mul),
            s,
        ) == ring.combine_limbs(decrypt_data(ring, a0, a1, s), decrypt_data(ring, b0, b1, s), VecOp::Mul),
{
    let d0 = ring.combine_limbs(a0, b0, VecOp::Mul);
    let d1 = ring.combine_limbs(ring.combine_limbs(a0, b1, VecOp::Mul), ring.combine_limbs(a1, b0, VecOp::Mul), VecOp::Add);
    let d2 = ring.combine_limbs(a1, b1, VecOp::Mul);
    let l = decrypt_tensor(ring, d0, d1, d2, s);
    let r = ring.combine_limbs(decrypt_data(ring, a0, a1, s), decrypt_data(ring, b0, b1, s), VecOp::Mul);
    assert forall|i: int| 0 <= i < l.len() implies #[trigger] l[i] =~= r[i] by {
        ring.lemma_modulus_bounds(i);
        let q = ring.q_at(i) as int;
        assert forall|j: int| 0 <= j < l[i].len() implies #[trigger] l[i][j] == r[i][j] by {
            lemma_decrypt_tensor_point(
                a0[i][j] as int,
                a1[i][j] as int,
                b0[i][j] as int,
                b1[i][j] as int,
                s[i][j] as int,
                q,
            );
        }
    }
    assert(l =~= r);
}

} // verus!
