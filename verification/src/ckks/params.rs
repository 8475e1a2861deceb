use vstd::arithmetic::power2::*;
use vstd::prelude::*;

use crate::arith::{ArithError, MODULUS_LIMIT};
use crate::ckks::{CkksContext, CkksContextErr};
use crate::primes::{covers_ntt_primes, distinct_random_ntt_primes, has_bit_length, is_ntt_prime, spec_prime};
use crate::rns::{first_modulus_error, lemma_prime_modulus_accepted, modulus_accepted, modulus_error, RnsRingError};

verus! {

/// The parameters a CKKS instance is generated from.
#[derive(Debug)]
pub struct CkksParams {
    /// Bit size of the first `q` modulus.
    pub first_mod_size: u32,
    /// Bit size of the other `q` moduli (the scaling factor is `2^scaling_size`).
    pub scaling_size: u32,
    /// Number of multiplications supported: there are `mul_depth + 1` `q` moduli.
    pub mul_depth: usize,
    /// The ring dimension `n`.
    pub ring_dim: usize,
}

/// Error returned when parameters are refused.
#[derive(Debug, PartialEq, Eq, Clone, Copy)]
pub enum ParamsErr {
    /// `2^first_mod_size` does not fit in a `u64` modulus.
    FirstModSizeTooBig(u32),
    /// `2^scaling_size` does not fit in a `u64` modulus.
    ScalingSizeTooBig(u32),
    /// The scaling moduli must be smaller than the first modulus (scaling size, first size).
    ScalingNotSmallerThanFirstMod(u32, u32),
    /// The ring dimension is not a power of two.
    RingDimNotPowerOfTwo,
    /// Building the rings failed.
    CkksContext(CkksContextErr),
    /// For one of the sizes there are too few NTT-friendly primes to choose distinct ones.
    PrimeSearchExhausted,
}

/// Bit size of the special `p` moduli.
pub const SPECIAL_MODULUS_SIZE: u32 = 61;

/// The checks that `gen_ckks_context` makes before searching for primes all pass.
pub open spec fn params_accepted(p: CkksParams) -> bool {
    &&& p.first_mod_size <= 63
    &&& p.scaling_size <= 63
    &&& is_pow2(p.ring_dim as int)
    &&& p.scaling_size < p.first_mod_size
}

/// The number of 61-bit special moduli: `⌈(mul_depth · scaling_size + first_mod_size) / 61⌉`.
pub open spec fn special_moduli_count(p: CkksParams) -> nat {
    ((p.mul_depth * p.scaling_size + p.first_mod_size + 60) / 61) as nat
}

/// The bit sizes of all moduli: the first `q` modulus, `mul_depth` scaling moduli, then the
/// special moduli.
pub open spec fn moduli_sizes(p: CkksParams) -> Seq<u32> {
    seq![p.first_mod_size] + Seq::new(p.mul_depth as nat, |i: int| p.scaling_size) + Seq::new(
        special_moduli_count(p),
        |i: int| SPECIAL_MODULUS_SIZE,
    )
}

/// A number of exactly `size` bits lies below 2^61 exactly when `size <= 61`.
proof fn lemma_bit_length_limit(p: u64, size: u32)
    requires
        1 <= size <= 64,
        has_bit_length(p, size),
    ensures
        size <= 61 <==> p < MODULUS_LIMIT,
{
    let s = (size - 1) as u64;
    assert(p >> s == 1u64 && s >= 61 && s <= 63 ==> p >= 0x2000_0000_0000_0000u64) by (bit_vector);
    assert(p >> s == 1u64 && s <= 60 ==> p < 0x2000_0000_0000_0000u64) by (bit_vector);
}

/// A refused NTT prime of at most 61 bits is no prime at all: it passed the Miller test
/// without being prime, since a true prime of that form always has the root the ring needs.
pub proof fn lemma_refused_modulus_not_prime(q: u64, size: u32, n: usize)
    requires
        2 <= size <= 61,
        n >= 1,
        is_ntt_prime(q, size, n),
        !modulus_accepted(q, n),
    ensures
        !spec_prime(q as int),
{
    lemma_bit_length_limit(q, size);
    if spec_prime(q as int) {
        lemma_prime_modulus_accepted(q, n);
    }
}

/// `n` is a power of two.
fn is_power_of_two(n: usize) -> (r: bool)
    ensures
        r == is_pow2(n as int),
{
    if n == 0 {
        proof { reveal(is_pow2); }
        return false;
    }
    let mut m = n;
    while m > 1 && m % 2 == 0
        invariant
            m >= 1,
            is_pow2(m as int) == is_pow2(n as int),
        decreases m,
    {
        proof { reveal(is_pow2); }
        m = m / 2;
    }
    proof { reveal(is_pow2); }
    m == 1
}

/// Checks the parameters, draws distinct NTT-friendly primes of the required sizes and
/// builds the context over them.
pub fn gen_ckks_context(params: &CkksParams) -> (res: Result<CkksContext, ParamsErr>)
    requires
        params_accepted(*params) ==> {
            &&& params.first_mod_size >= 2
            &&& params.mul_depth > 0 ==> params.scaling_size >= 2
            &&& params.ring_dim >= 2
            &&& params.ring_dim < 0x4000_0000_0000_0000
            &&& params.mul_depth * params.scaling_size + params.first_mod_size <= u32::MAX
        },
    ensures
        params.first_mod_size > 63 ==> res == Err::<CkksContext, ParamsErr>(ParamsErr::FirstModSizeTooBig(params.first_mod_size)),
        params.first_mod_size <= 63 && params.scaling_size > 63
            ==> res == Err::<CkksContext, ParamsErr>(ParamsErr::ScalingSizeTooBig(params.scaling_size)),
        params.first_mod_size <= 63 && params.scaling_size <= 63 && !is_pow2(params.ring_dim as int)
            ==> res == Err::<CkksContext, ParamsErr>(ParamsErr::RingDimNotPowerOfTwo),
        params.first_mod_size <= 63 && params.scaling_size <= 63 && is_pow2(params.ring_dim as int)
            && params.scaling_size >= params.first_mod_size ==> res == Err::<CkksContext, ParamsErr>(
            ParamsErr::ScalingNotSmallerThanFirstMod(params.scaling_size, params.first_mod_size),
        ),
        res is Ok ==> params_accepted(*params),
        res matches Err(ParamsErr::CkksContext(_)) ==> params_accepted(*params),
        res matches Err(ParamsErr::PrimeSearchExhausted) ==> params_accepted(*params),
        res matches Err(ParamsErr::PrimeSearchExhausted) ==> exists|k: int, prev: Seq<u64>|
            0 <= k < moduli_sizes(*params).len() && prev.len() == k && #[trigger] covers_ntt_primes(
                prev,
                moduli_sizes(*params)[k],
                params.ring_dim,
            ),
        params_accepted(*params) && params.first_mod_size >= 62 ==> {
            ||| res == Err::<CkksContext, ParamsErr>(ParamsErr::PrimeSearchExhausted)
            ||| exists|q0: u64|
                #[trigger] has_bit_length(q0, params.first_mod_size) && res == Err::<CkksContext, ParamsErr>(
                    ParamsErr::CkksContext(CkksContextErr::RnsRing(RnsRingError::Arith(ArithError::InvalidModulusSize(q0, 61)))),
                )
        },
        params.first_mod_size <= 61 ==> (res matches Err(ParamsErr::CkksContext(CkksContextErr::RnsRing(e))) ==> e is Ring),
        res matches Err(ParamsErr::CkksContext(CkksContextErr::RnsRing(e))) ==> exists|k: int, q: u64|
            0 <= k < moduli_sizes(*params).len() && #[trigger] is_ntt_prime(q, moduli_sizes(*params)[k], params.ring_dim)
                && !modulus_accepted(q, params.ring_dim) && e == modulus_error(q, params.ring_dim),
        res matches Ok(ctx) ==> {
            let all = ctx.rq().moduli() + ctx.rp().moduli();
            let sizes = moduli_sizes(*params);
            &&& ctx.wf()
            &&& ctx.rq().num() == params.mul_depth + 1
            &&& ctx.rp().num() == special_moduli_count(*params)
            &&& ctx.rq().dim() == params.ring_dim
            &&& all.len() == sizes.len()
            &&& forall|i: int| 0 <= i < all.len() ==> is_ntt_prime(#[trigger] all[i], sizes[i], params.ring_dim)
            &&& forall|i: int, j: int| 0 <= i < j < all.len() ==> all[i] != all[j]
        },
{
    if params.first_mod_size > 63 {
        return Err(ParamsErr::FirstModSizeTooBig(params.first_mod_size));
    }
    if params.scaling_size > 63 {
        return Err(ParamsErr::ScalingSizeTooBig(params.scaling_size));
    }
    let n = params.ring_dim;
    if !is_power_of_two(n) {
        return Err(ParamsErr::RingDimNotPowerOfTwo);
    }
    if params.scaling_size >= params.first_mod_size {
        return Err(ParamsErr::ScalingNotSmallerThanFirstMod(params.scaling_size, params.first_mod_size));
    }
    proof {
        if params.mul_depth > 0 {
            assert(params.mul_depth <= params.mul_depth * params.scaling_size) by (nonlinear_arith)
                requires
                    params.scaling_size >= 2,
            ;
        }
    }
    let qi_total_bitsize = (params.mul_depth as u32) * params.scaling_size + params.first_mod_size;
    let q_count = params.mul_depth + 1;
    let pi_bitsize = SPECIAL_MODULUS_SIZE;
    let p_count = ((qi_total_bitsize as u64 + 60) / 61) as usize;
    let ghost sizes = moduli_sizes(*params);
    let mut moduli_sizes_v: Vec<u32> = Vec::new();
    moduli_sizes_v.push(params.first_mod_size);
    let mut k: usize = 0;
    while k < params.mul_depth
        invariant
            k <= params.mul_depth,
            moduli_sizes_v@ == sizes.subrange(0, k + 1),
            sizes == moduli_sizes(*params),
            sizes.len() == params.mul_depth + 1 + p_count,
            p_count == special_moduli_count(*params),
        decreases params.mul_depth - k,
    {
        moduli_sizes_v.push(params.scaling_size);
        k = k + 1;
        proof { assert(moduli_sizes_v@ =~= sizes.subrange(0, k + 1)); }
    }
    proof {
        assert forall|i: int| q_count <= i < sizes.len() implies #[trigger] sizes[i] == SPECIAL_MODULUS_SIZE by {
            let head = seq![params.first_mod_size] + Seq::new(params.mul_depth as nat, |j: int| params.scaling_size);
            let tail = Seq::new(special_moduli_count(*params), |j: int| SPECIAL_MODULUS_SIZE);
            assert(sizes == head + tail);
            assert(head.len() == q_count);
            assert(sizes[i] == tail[i - q_count]);
        }
    }
    let mut t: usize = 0;
    while t < p_count
        invariant
            t <= p_count,
            forall|i: int| q_count <= i < sizes.len() ==> #[trigger] sizes[i] == SPECIAL_MODULUS_SIZE,
            q_count == params.mul_depth + 1,
            pi_bitsize == SPECIAL_MODULUS_SIZE,
            moduli_sizes_v@ == sizes.subrange(0, q_count + t),
            sizes == moduli_sizes(*params),
            sizes.len() == q_count + p_count,
        decreases p_count - t,
    {
        moduli_sizes_v.push(pi_bitsize);
        t = t + 1;
        proof { assert(moduli_sizes_v@ =~= sizes.subrange(0, q_count + t)); }
    }
    proof {
        assert(moduli_sizes_v@ =~= sizes);
        assert forall|i: int| 0 <= i < sizes.len() implies 2 <= #[trigger] sizes[i] <= 64 by {
            if 1 <= i < q_count {
                assert(params.mul_depth > 0);
            }
        }
    }
    let mut all_moduli = match distinct_random_ntt_primes(moduli_sizes_v.as_slice(), n) {
        Some(v) => v,
        None => {
            return Err(ParamsErr::PrimeSearchExhausted);
        },
    };
    let ghost all = all_moduli@;
    let p_moduli = all_moduli.split_off(q_count);
    proof {
        assert(all =~= all_moduli@ + p_moduli@);
        assert forall|i: int| 0 <= i < all_moduli@.len() implies #[trigger] all_moduli@[i] >= 1
            && (all_moduli@[i] - 1) % (2 * n as int) == 0 by {
            assert(all_moduli@[i] == all[i]);
            assert(is_ntt_prime(all[i], sizes[i], n));
        }
        assert forall|i: int| 0 <= i < p_moduli@.len() implies #[trigger] p_moduli@[i] >= 1
            && (p_moduli@[i] - 1) % (2 * n as int) == 0 by {
            assert(p_moduli@[i] == all[q_count + i]);
            assert(is_ntt_prime(all[q_count + i], sizes[q_count + i], n));
        }
    }
    proof {
        assert forall|i: int| 0 <= i < all.len() implies (#[trigger] all[i] < MODULUS_LIMIT) == (sizes[i] <= 61) by {
            assert(is_ntt_prime(all[i], sizes[i], n));
            lemma_bit_length_limit(all[i], sizes[i]);
        }
        assert(all[0] == all_moduli@[0]);
        assert(sizes[0] == params.first_mod_size);
        if params.first_mod_size <= 61 {
            assert forall|i: int| 0 <= i < all.len() implies #[trigger] all[i] < MODULUS_LIMIT by {
                if i == 0 {
                } else if i < q_count {
                    assert(sizes[i] == params.scaling_size);
                } else {
                    assert(sizes[i] == SPECIAL_MODULUS_SIZE);
                }
            }
        }
    }
    match CkksContext::new(all_moduli.as_slice(), p_moduli.as_slice(), params.ring_dim) {
        Ok(ctx) => {
            proof {
                assert(ctx.rq().moduli() + ctx.rp().moduli() =~= all);
                assert(modulus_accepted(all_moduli@[0], n));
            }
            Ok(ctx)
        },
        Err(e) => {
            proof {
                let CkksContextErr::RnsRing(re) = e;
                if first_modulus_error(all_moduli@, n, re) {
                    let i = choose|i: int|
                        0 <= i < all_moduli@.len() && (forall|j: int| 0 <= j < i ==> #[trigger] modulus_accepted(all_moduli@[j], n))
                            && !modulus_accepted(all_moduli@[i], n) && re == #[trigger] modulus_error(all_moduli@[i], n);
                    assert(all_moduli@[i] == all[i]);
                    assert(is_ntt_prime(all[i], sizes[i], n));
                } else {
                    assert(first_modulus_error(p_moduli@, n, re));
                    let i = choose|i: int|
                        0 <= i < p_moduli@.len() && (forall|j: int| 0 <= j < i ==> #[trigger] modulus_accepted(p_moduli@[j], n))
                            && !modulus_accepted(p_moduli@[i], n) && re == #[trigger] modulus_error(p_moduli@[i], n);
                    assert(p_moduli@[i] == all[q_count + i]);
                    assert(is_ntt_prime(all[q_count + i], sizes[q_count + i], n));
                }
                if params.first_mod_size >= 62 {
                    assert(!modulus_accepted(all_moduli@[0], n));
                    let i = choose|i: int|
                        0 <= i < all_moduli@.len() && (forall|j: int| 0 <= j < i ==> #[trigger] modulus_accepted(all_moduli@[j], n))
                            && !modulus_accepted(all_moduli@[i], n) && re == #[trigger] modulus_error(all_moduli@[i], n);
                    assert(i == 0);
                    assert(has_bit_length(all[0], params.first_mod_size));
                }
            }
            Err(ParamsErr::CkksContext(e))
        },
    }
}

} // verus!
