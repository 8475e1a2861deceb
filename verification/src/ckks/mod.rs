pub mod decryptor;
pub mod encoding;
pub mod encryptor;
pub mod evaluator;
pub mod keygen;
pub mod params;
pub mod types;

use vstd::arithmetic::power2::*;
use vstd::prelude::*;

use crate::rns::{
    all_below_moduli, first_modulus_error, hat_table, modulus_accepted, product_mod_table,
    CrossRingPrecomp, RnsRing, RnsRingError,
};

verus! {

/// The rings and conversion constants of a CKKS instance: the ciphertext ring over the
/// `q` moduli and the special ring over the `p` moduli, both of dimension `n`.
#[derive(Debug)]
pub struct CkksContext {
    ring_q: RnsRing,
    ring_p: RnsRing,
    cross_ring: CrossRingPrecomp,
}

/// Error returned when a context cannot be built.
#[derive(Debug, PartialEq, Eq, Clone, Copy)]
pub enum CkksContextErr {
    RnsRing(RnsRingError),
}

impl CkksContext {
    /// The ciphertext ring.
    pub closed spec fn rq(&self) -> RnsRing {
        self.ring_q
    }

    /// The special ring.
    pub closed spec fn rp(&self) -> RnsRing {
        self.ring_p
    }

    /// `P mod q_i` for every `q` modulus.
    pub closed spec fn p_mod_q(&self) -> Seq<u64> {
        self.cross_ring.p_mod_q@
    }

    /// Both rings are well formed, have at least one modulus each and share the dimension,
    /// and the conversion constants belong to them.
    pub closed spec fn wf(&self) -> bool {
        &&& self.ring_q.wf()
        &&& self.ring_p.wf()
        &&& (self.ring_q.num() > 0 && self.ring_p.num() > 0 ==> self.ring_q.dim() == self.ring_p.dim())
        &&& self.cross_ring.q_hat_mod_p@.map_values(|l: Vec<u64>| l@) == hat_table(self.ring_q.moduli(), self.ring_p.moduli())
        &&& self.cross_ring.p_hat_mod_q@.map_values(|l: Vec<u64>| l@) == hat_table(self.ring_p.moduli(), self.ring_q.moduli())
        &&& self.cross_ring.p_mod_q@ == product_mod_table(self.ring_p.moduli(), self.ring_q.moduli())
        &&& all_below_moduli(self.cross_ring.p_mod_q@, &self.ring_q)
    }

    /// Well formed, with at least one ciphertext modulus: what key generation, encryption and
    /// decryption need of a context.
    pub open spec fn usable(&self) -> bool {
        &&& self.wf()
        &&& self.rq().num() > 0
    }

    /// Builds both rings of dimension `n` and their conversion constants.
    pub fn new(q_moduli: &[u64], p_moduli: &[u64], n: usize) -> (res: Result<Self, CkksContextErr>)
        requires
            n >= 2,
            n < 0x4000_0000_0000_0000,
            is_pow2(n as int),
            forall|i: int| 0 <= i < q_moduli@.len() ==> #[trigger] q_moduli@[i] >= 1 && (q_moduli@[i] - 1) % (2 * n as int) == 0,
            forall|i: int| 0 <= i < p_moduli@.len() ==> #[trigger] p_moduli@[i] >= 1 && (p_moduli@[i] - 1) % (2 * n as int) == 0,
        ensures
            match res {
                Ok(ctx) => {
                    &&& ctx.wf()
                    &&& ctx.rq().moduli() == q_moduli@
                    &&& ctx.rp().moduli() == p_moduli@
                    &&& q_moduli@.len() > 0 ==> ctx.rq().dim() == n
                    &&& p_moduli@.len() > 0 ==> ctx.rp().dim() == n
                    &&& forall|i: int| 0 <= i < q_moduli@.len() ==> #[trigger] modulus_accepted(q_moduli@[i], n)
                    &&& forall|i: int| 0 <= i < p_moduli@.len() ==> #[trigger] modulus_accepted(p_moduli@[i], n)
                },
                Err(CkksContextErr::RnsRing(e)) => {
                    ||| first_modulus_error(q_moduli@, n, e)
                    ||| ((forall|i: int| 0 <= i < q_moduli@.len() ==> #[trigger] modulus_accepted(q_moduli@[i], n))
                        && first_modulus_error(p_moduli@, n, e))
                },
            },
    {
        let ring_q = match RnsRing::new(q_moduli, n) {
            Ok(r) => r,
            Err(e) => {
                return Err(CkksContextErr::RnsRing(e));
            },
        };
        let ring_p = match RnsRing::new(p_moduli, n) {
            Ok(r) => r,
            Err(e) => {
                return Err(CkksContextErr::RnsRing(e));
            },
        };
        let cross_ring = CrossRingPrecomp::new(&ring_q, &ring_p);
        Ok(CkksContext { ring_q, ring_p, cross_ring })
    }

    pub fn ring_q(&self) -> (r: &RnsRing)
        ensures
            *r == self.rq(),
    {
        &self.ring_q
    }

    pub fn ring_p(&self) -> (r: &RnsRing)
        ensures
            *r == self.rp(),
    {
        &self.ring_p
    }

    /// The constants `P mod q_i`.
    pub fn p_mod_q_table(&self) -> (r: &Vec<u64>)
        ensures
            r@ == self.p_mod_q(),
    {
        &self.cross_ring.p_mod_q
    }

    /// The ring dimension.
    pub fn n(&self) -> (r: usize)
        requires
            self.wf(),
            self.rq().num() > 0,
        ensures
            r == self.rq().dim(),
    {
        self.ring_q.n()
    }

    /// The number of `q` moduli.
    pub fn num_levels(&self) -> (r: usize)
        ensures
            r == self.rq().num(),
    {
        self.ring_q.num_moduli()
    }

    /// What a well-formed context knows of its rings.
    pub proof fn lemma_wf(&self)
        requires
            self.wf(),
        ensures
            self.rq().wf(),
            self.rp().wf(),
            self.rq().num() > 0 && self.rp().num() > 0 ==> self.rq().dim() == self.rp().dim(),
            self.p_mod_q() == product_mod_table(self.rp().moduli(), self.rq().moduli()),
            all_below_moduli(self.p_mod_q(), &self.rq()),
    {
    }
}

} // verus!
