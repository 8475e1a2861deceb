use vstd::prelude::*;

use crate::ckks::CkksContext;
use crate::rns::{NttForm, Poly, RnsRing};
use crate::sampling::Ternary;

verus! {

/// The secret `s`, in NTT form over both the ciphertext ring and the special ring.
#[derive(Debug)]
pub struct SecretKey {
    pub sk_q: Poly<NttForm>,
    pub sk_p: Poly<NttForm>,
}

/// The public key `(a, b)` with `b = e - a·s` over the ciphertext ring.
#[derive(Debug)]
pub struct PublicKey {
    pub a: Poly<NttForm>,
    pub b: Poly<NttForm>,
}

/// The relinearisation key: a pair over the ciphertext ring and a pair over the special ring.
#[derive(Debug)]
pub struct RelinKey {
    pub mod_q: (Poly<NttForm>, Poly<NttForm>),
    pub mod_p: (Poly<NttForm>, Poly<NttForm>),
}

/// An encoded message in NTT form over the ciphertext ring.
#[derive(Debug)]
pub struct Plaintext {
    pub data: Poly<NttForm>,
}

/// A ciphertext `(c0, c1)` in NTT form over the ciphertext ring.
#[derive(Debug)]
pub struct Ciphertext {
    pub c0: Poly<NttForm>,
    pub c1: Poly<NttForm>,
}

/// `p` has one limb per modulus of `ring`, each of length `n` and reduced.
pub open spec fn full_poly(ring: &RnsRing, p: Seq<Seq<u64>>) -> bool {
    p.len() == ring.num() && ring.limbs_ok(p)
}

/// The NTT-form polynomial of a ternary coefficient vector, one limb per modulus of `ring`.
pub open spec fn ternary_poly(ring: &RnsRing, s: Seq<Ternary>) -> Seq<Seq<u64>> {
    ring.ntt_limbs(ring.ternary_limbs(s))
}

/// The NTT-form polynomial of a signed error vector, one limb per modulus of `ring`.
pub open spec fn error_poly(ring: &RnsRing, e: Seq<i64>) -> Seq<Seq<u64>> {
    ring.ntt_limbs(ring.signed_limbs(e))
}

impl SecretKey {
    /// Both parts are full polynomials of their rings.
    pub open spec fn wf_for(&self, ctx: &CkksContext) -> bool {
        &&& full_poly(&ctx.rq(), self.sk_q@)
        &&& full_poly(&ctx.rp(), self.sk_p@)
    }

    /// The key holds the ternary vector `s`, transformed in each ring.
    pub open spec fn encodes(&self, ctx: &CkksContext, s: Seq<Ternary>) -> bool {
        &&& self.sk_q@ == ternary_poly(&ctx.rq(), s)
        &&& self.sk_p@ == ternary_poly(&ctx.rp(), s)
    }
}

impl PublicKey {
    /// Both parts are full polynomials of the ciphertext ring.
    pub open spec fn wf_for(&self, ctx: &CkksContext) -> bool {
        &&& full_poly(&ctx.rq(), self.a@)
        &&& full_poly(&ctx.rq(), self.b@)
    }
}

impl RelinKey {
    /// The `q` pair is made of full polynomials of the ciphertext ring, the `p` pair of full
    /// polynomials of the special ring.
    pub open spec fn wf_for(&self, ctx: &CkksContext) -> bool {
        &&& full_poly(&ctx.rq(), self.mod_q.0@)
        &&& full_poly(&ctx.rq(), self.mod_q.1@)
        &&& full_poly(&ctx.rp(), self.mod_p.0@)
        &&& full_poly(&ctx.rp(), self.mod_p.1@)
    }
}

impl Ciphertext {
    /// Both parts have the same nonzero number of limbs, at most one per modulus of `ring`,
    /// each of length `n` and reduced.
    pub open spec fn wf_for(&self, ring: &RnsRing) -> bool {
        &&& self.c0@.len() == self.c1@.len()
        &&& 0 < self.c0@.len() <= ring.num()
        &&& ring.limbs_ok(self.c0@)
        &&& ring.limbs_ok(self.c1@)
    }

    /// The index of the last modulus the ciphertext still carries.
    pub fn level(&self) -> (r: usize)
        requires
            self.c0@.len() > 0,
        ensures
            r == self.c0@.len() - 1,
    {
        self.c0.limbs.len() - 1
    }
}

impl Plaintext {
    /// The index of the last modulus the plaintext still carries.
    pub fn level(&self) -> (r: usize)
        requires
            self.data@.len() > 0,
        ensures
            r == self.data@.len() - 1,
    {
        self.data.limbs.len() - 1
    }
}

} // verus!
