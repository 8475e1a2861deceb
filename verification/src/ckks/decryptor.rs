use vstd::prelude::*;

use crate::arith::VecOp;
use crate::ckks::encryptor::{encrypt_c0, encrypt_c1};
use crate::ckks::keygen::masked_error;
use crate::ckks::types::{full_poly, Ciphertext, Plaintext, SecretKey};
use crate::ckks::CkksContext;
use crate::math::lemma_decrypt_encrypt_point;
use crate::rns::RnsRing;

verus! {

/// What decryption computes: `c1·s + c0`.
pub open spec fn decrypt_data(ring: &RnsRing, c0: Seq<Seq<u64>>, c1: Seq<Seq<u64>>, s: Seq<Seq<u64>>) -> Seq<Seq<u64>> {
    ring.combine_limbs(ring.combine_limbs(c1, s, VecOp::Mul), c0, VecOp::Add)
}

/// The message with the noise of a fresh encryption: `m + v·e + e0 + e1·s`.
pub open spec fn message_plus_noise(
    ring: &RnsRing,
    m: Seq<Seq<u64>>,
    v: Seq<Seq<u64>>,
    e: Seq<Seq<u64>>,
    e0: Seq<Seq<u64>>,
    e1: Seq<Seq<u64>>,
    s: Seq<Seq<u64>>,
) -> Seq<Seq<u64>> {
    ring.combine_limbs(
        ring.combine_limbs(ring.combine_limbs(m, ring.combine_limbs(v, e, VecOp::Mul), VecOp::Add), e0, VecOp::Add),
        ring.combine_limbs(e1, s, VecOp::Mul),
        VecOp::Add,
    )
}

/// Decrypts ciphertexts with a secret key.
pub struct Decryptor<'a> {
    ctx: &'a CkksContext,
    sk: &'a SecretKey,
}

impl<'a> Decryptor<'a> {
    /// The context the ciphertexts belong to.
    pub closed spec fn context(&self) -> CkksContext {
        *self.ctx
    }

    /// The key that decrypts.
    pub closed spec fn key(&self) -> SecretKey {
        *self.sk
    }

    pub fn new(ctx: &'a CkksContext, sk: &'a SecretKey) -> (r: Self)
        ensures
            r.context() == *ctx,
            r.key() == *sk,
    {
        Decryptor { ctx, sk }
    }

    /// `c1·s + c0`, limb by limb.
    pub fn decrypt(&self, ct: &Ciphertext) -> (pt: Plaintext)
        requires
            self.context().usable(),
            self.key().wf_for(&self.context()),
            ct.wf_for(&self.context().rq()),
        ensures
            pt.data@ == decrypt_data(&self.context().rq(), ct.c0@, ct.c1@, self.key().sk_q@),
            self.context().rq().limbs_ok(pt.data@),
            pt.data@.len() == ct.c0@.len(),
    {
        let ring_q = self.ctx.ring_q();
        proof {
            ring_q.lemma_combine_ok(ct.c1@, self.sk.sk_q@, VecOp::Mul);
        }
        let mut p = ring_q.mul(&ct.c1, &self.sk.sk_q);
        proof {
            ring_q.lemma_combine_ok(p@, ct.c0@, VecOp::Add);
        }
        ring_q.add_inplace(&mut p, &ct.c0);
        Plaintext { data: p }
    }
}

/// Decrypting a fresh encryption gives back the message plus the noise `v·e + e0 + e1·s`:
/// with a public key `(a, e - a·s)`, the encryption `(v·b + m + e0, v·a + e1)` decrypts,
/// under `s`, to `m + v·e + e0 + e1·s`, exactly, limb by limb.
pub proof fn lemma_decrypt_encrypt(
    ring: &RnsRing,
    s: Seq<Seq<u64>>,
    a: Seq<Seq<u64>>,
    e: Seq<Seq<u64>>,
    v: Seq<Seq<u64>>,
    m: Seq<Seq<u64>>,
    e0: Seq<Seq<u64>>,
    e1: Seq<Seq<u64>>,
)
    requires
        ring.wf(),
        full_poly(ring, s),
        full_poly(ring, a),
        full_poly(ring, e),
        full_poly(ring, v),
        full_poly(ring, m),
        full_poly(ring, e0),
        full_poly(ring, e1),
    ensures
        decrypt_data(
            ring,
            encrypt_c0(ring, masked_error(ring, a, s, e), v, m, e0),
            encrypt_c1(ring, a, v, e1),
            s,
        ) == message_plus_noise(ring, m, v, e, e0, e1, s),
{
    let b = masked_error(ring, a, s, e);
    let c0 = encrypt_c0(ring, b, v, m, e0);
    let c1 = encrypt_c1(ring, a, v, e1);
    let l = decrypt_data(ring, c0, c1, s);
    let r = message_plus_noise(ring, m, v, e, e0, e1, s);
    assert forall|i: int| 0 <= i < l.len() implies #[trigger] l[i] =~= r[i] by {
        ring.lemma_modulus_bounds(i);
        let q = ring.q_at(i) as int;
        assert forall|j: int| 0 <= j < l[i].len() implies #[trigger] l[i][j] == r[i][j] by {
            lemma_decrypt_encrypt_point(
                a[i][j] as int,
                s[i][j] as int,
                e[i][j] as int,
                v[i][j] as int,
                m[i][j] as int,
                e0[i][j] as int,
                e1[i][j] as int,
                q,
            );
        }
    }
    assert(l =~= r);
}

/// In the coefficient domain, decrypting a fresh encryption gives `m + v·e + e0 + e1·s` with
/// the products taken in `Z_{q_i}[X]/(X^n + 1)`: the public key is `(a, ntt(e) - a·ntt(s))`,
/// the encryption uses `ntt(v)`, `ntt(m)`, `ntt(e0)`, `ntt(e1)`, and the decryption is
/// transformed back (inverse tables, as for prime moduli).
pub proof fn lemma_decrypt_encrypt_coefficients(
    ring: &RnsRing,
    s: Seq<Seq<u64>>,
    a: Seq<Seq<u64>>,
    e: Seq<Seq<u64>>,
    v: Seq<Seq<u64>>,
    m: Seq<Seq<u64>>,
    e0: Seq<Seq<u64>>,
    e1: Seq<Seq<u64>>,
)
    requires
        ring.wf(),
        ring.tables_invertible(),
        full_poly(ring, s),
        full_poly(ring, a),
        full_poly(ring, e),
        full_poly(ring, v),
        full_poly(ring, m),
        full_poly(ring, e0),
        full_poly(ring, e1),
    ensures
        ring.intt_limbs(
            decrypt_data(
                ring,
                encrypt_c0(ring, masked_error(ring, a, ring.ntt_limbs(s), ring.ntt_limbs(e)), ring.ntt_limbs(v), ring.ntt_limbs(m), ring.ntt_limbs(e0)),
                encrypt_c1(ring, a, ring.ntt_limbs(v), ring.ntt_limbs(e1)),
                ring.ntt_limbs(s),
            ),
        ) == ring.combine_limbs(
            ring.combine_limbs(ring.combine_limbs(m, ring.negacyclic_limbs(v, e), VecOp::Add), e0, VecOp::Add),
            ring.negacyclic_limbs(e1, s),
            VecOp::Add,
        ),
{
    let ns = ring.ntt_limbs(s);
    let ne = ring.ntt_limbs(e);
    let nv = ring.ntt_limbs(v);
    let nm = ring.ntt_limbs(m);
    let ne0 = ring.ntt_limbs(e0);
    let ne1 = ring.ntt_limbs(e1);
    ring.lemma_ntt_limbs_ok(s);
    ring.lemma_ntt_limbs_ok(e);
    ring.lemma_ntt_limbs_ok(v);
    ring.lemma_ntt_limbs_ok(m);
    ring.lemma_ntt_limbs_ok(e0);
    ring.lemma_ntt_limbs_ok(e1);
    lemma_decrypt_encrypt(ring, ns, a, ne, nv, nm, ne0, ne1);
    // the noise, term by term, as transforms of coefficient-domain polynomials
    let ve = ring.negacyclic_limbs(v, e);
    let e1s = ring.negacyclic_limbs(e1, s);
    ring.lemma_negacyclic_ok(v, e);
    ring.lemma_negacyclic_ok(e1, s);
    ring.lemma_ntt_of_negacyclic_limbs(v, e);
    ring.lemma_ntt_of_negacyclic_limbs(e1, s);
    let t1 = ring.combine_limbs(m, ve, VecOp::Add);
    ring.lemma_combine_ok(m, ve, VecOp::Add);
    ring.lemma_ntt_of_sum_limbs(m, ve);
    let t2 = ring.combine_limbs(t1, e0, VecOp::Add);
    ring.lemma_combine_ok(t1, e0, VecOp::Add);
    ring.lemma_ntt_of_sum_limbs(t1, e0);
    let t3 = ring.combine_limbs(t2, e1s, VecOp::Add);
    ring.lemma_combine_ok(t2, e1s, VecOp::Add);
    ring.lemma_ntt_of_sum_limbs(t2, e1s);
    assert(message_plus_noise(ring, nm, nv, ne, ne0, ne1, ns) == ring.ntt_limbs(t3));
    ring.lemma_ntt_roundtrip(t3);
}

} // verus!
