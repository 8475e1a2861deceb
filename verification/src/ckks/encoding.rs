use vstd::arithmetic::power2::*;
use vstd::prelude::*;

use crate::ckks::types::{full_poly, Plaintext};
use crate::ckks::CkksContext;
use crate::ring::{bit_reverse, log2_exact, log2_of, Ring};
use crate::rns::{CoeffForm, NttForm, Poly, RnsRing};

verus! {

/// `c` lifted from `0..q` to the centered range: values above `q / 2` become negative.
pub open spec fn centered(c: u64, q: nat) -> int {
    if c > q / 2 { c - q } else { c as int }
}

/// The table of the bit-reversal permutation of `n = 2^k` positions: `i` goes to the number
/// whose `k` low bits are those of `i` reversed.
pub fn bit_reverse_indices(n: usize) -> (r: Vec<usize>)
    requires
        is_pow2(n as int),
    ensures
        r@.len() == n,
        forall|i: int| 0 <= i < n ==> #[trigger] r@[i] == bit_reverse(i as nat, log2_exact(n as nat)),
{
    let log_n = log2_of(n);
    let mut r: Vec<usize> = Vec::new();
    let mut i: usize = 0;
    while i < n
        invariant
            log_n == log2_exact(n as nat),
            pow2(log_n as nat) == n,
            log_n < 64,
            i <= n,
            r@.len() == i,
            forall|t: int| 0 <= t < i ==> #[trigger] r@[t] == bit_reverse(t as nat, log_n as nat),
        decreases n - i,
    {
        r.push(Ring::bit_rev(i, log_n));
        i = i + 1;
    }
    r
}

/// The plaintext whose coefficients are `coeffs`, reduced into every ciphertext modulus and
/// transformed.
pub fn encode_coefficients(ctx: &CkksContext, coeffs: &[i128]) -> (pt: Plaintext)
    requires
        ctx.usable(),
        coeffs@.len() == ctx.rq().dim(),
    ensures
        pt.data@ == ctx.rq().ntt_limbs(ctx.rq().wide_limbs(coeffs@)),
        full_poly(&ctx.rq(), pt.data@),
{
    let data = ctx.ring_q().poly_from_i128(coeffs);
    Plaintext { data }
}

/// The coefficients of `pt` modulo the first modulus, centered around zero.
pub fn centered_coefficients(ctx: &CkksContext, pt: &Plaintext) -> (r: Vec<i64>)
    requires
        ctx.usable(),
        pt.data@.len() > 0,
        ctx.rq().limbs_ok(pt.data@),
    ensures
        r@.len() == ctx.rq().dim(),
        forall|j: int| 0 <= j < r@.len() ==> #[trigger] r@[j] == centered(
            ctx.rq().intt_limbs(pt.data@)[0][j],
            ctx.rq().q_at(0),
        ),
{
    let ring_q = ctx.ring_q();
    let coeffs = ring_q.intt(Poly::<NttForm>::new(RnsRing::copy_limbs(&pt.data.limbs)));
    let q = ring_q.modulus(0);
    proof {
        ring_q.lemma_modulus_bounds(0);
        assert(coeffs.limbs@.len() == coeffs@.len());
        assert(coeffs@.len() == pt.data@.len());
    }
    let limb = &coeffs.limbs[0];
    proof {
        assert(limb@ == coeffs@[0]);
    }
    let half_q = q / 2;
    let mut r: Vec<i64> = Vec::new();
    let mut j: usize = 0;
    while j < limb.len()
        invariant
            q == ring_q.q_at(0),
            3 <= q < 0x2000_0000_0000_0000,
            half_q == q / 2,
            j <= limb@.len(),
            r@.len() == j,
            all_below_q(limb@, q),
            forall|t: int| 0 <= t < j ==> #[trigger] r@[t] == centered(limb@[t], q as nat),
        decreases limb@.len() - j,
    {
        let c = limb[j];
        let v: i64 = if c > half_q { -((q - c) as i64) } else { c as i64 };
        r.push(v);
        j = j + 1;
    }
    proof {
        assert(limb@.len() == ring_q.dim());
    }
    r
}

/// Every element of `a` is below `q`.
spec fn all_below_q(a: Seq<u64>, q: u64) -> bool {
    forall|i: int| 0 <= i < a.len() ==> #[trigger] a[i] < q
}

} // verus!
