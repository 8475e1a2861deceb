use vstd::arithmetic::div_mod::*;
use vstd::arithmetic::mul::*;
use vstd::arithmetic::power::*;
use vstd::arithmetic::power2::*;
use vstd::prelude::*;

use crate::arith::{
    accepted_root, add_mod_seq, all_below, first_accepted_root, mul_mod_seq, no_root_below, root_candidate, ModArith,
    MODULUS_LIMIT,
};
use crate::fermat::{lemma_invert_by_fermat, lemma_pow_nonzero_mod_prime};
use crate::math::{
    lemma_butterfly_additive, lemma_butterfly_roundtrip, lemma_pow_minus_one_odd, lemma_scale_sum, lemma_scale_twice,
    lemma_scale_twist,
};
use crate::negacyclic::{lemma_product_evaluates, lemma_sum_evaluates, negacyclic_product};
use crate::ntt_eval::{eval, lemma_forward_ntt_evaluates};
use crate::primes::spec_prime;

verus! {

/// Reverses the low `k` bits of `x`, shifting them into `acc` lowest bit first.
pub open spec fn rev_acc(x: nat, acc: nat, k: nat) -> nat
    decreases k,
{
    if k == 0 {
        acc
    } else {
        rev_acc(x / 2, 2 * acc + x % 2, (k - 1) as nat)
    }
}

/// The low `k` bits of `x` in reverse order.
pub open spec fn bit_reverse(x: nat, k: nat) -> nat {
    rev_acc(x, 0, k)
}

/// One Cooley-Tukey layer with butterflies of half-width `len`: block `b` of width
/// `2·len` uses `zetas[n/(2·len) + b]`, and the pair `(x, y)` becomes `(x + ζy, x - ζy) mod q`.
pub open spec fn ct_layer(a: Seq<u64>, zetas: Seq<u64>, len: nat, q: int) -> Seq<u64> {
    let w = 2 * len as int;
    Seq::new(
        a.len(),
        |i: int|
            {
                let z = zetas[a.len() as int / w + i / w] as int;
                if i % w < len {
                    ((a[i] + (z * a[i + len]) % q) % q) as u64
                } else {
                    ((a[i - len] - (z * a[i]) % q) % q) as u64
                }
            },
    )
}

/// The Cooley-Tukey layers of half-width `len`, `len/2`, ..., `1`, in that order.
pub open spec fn ct_layers_from(a: Seq<u64>, zetas: Seq<u64>, len: nat, q: int) -> Seq<u64>
    decreases len,
{
    if len == 0 {
        a
    } else {
        ct_layers_from(ct_layer(a, zetas, len, q), zetas, len / 2, q)
    }
}

/// The forward (Cooley-Tukey) transform of `a`: all layers from half-width `n/2` down to `1`.
pub open spec fn forward_ntt_spec(a: Seq<u64>, zetas: Seq<u64>, q: int) -> Seq<u64> {
    ct_layers_from(a, zetas, a.len() / 2, q)
}

/// One Gentleman-Sande layer with butterflies of half-width `len`: block `b` uses
/// `inv_zetas[n/(2·len) + b]`, and the pair `(u, v)` becomes `(u + v, ζ⁻¹(u - v)) mod q`.
pub open spec fn gs_layer(a: Seq<u64>, inv_zetas: Seq<u64>, len: nat, q: int) -> Seq<u64> {
    let w = 2 * len as int;
    Seq::new(
        a.len(),
        |i: int|
            {
                let z = inv_zetas[a.len() as int / w + i / w] as int;
                if i % w < len {
                    ((a[i] + a[i + len]) % q) as u64
                } else {
                    ((z * ((a[i - len] - a[i]) % q)) % q) as u64
                }
            },
    )
}

/// The Gentleman-Sande layers of half-width `1`, `2`, ..., `len`, in that order.
pub open spec fn gs_layers_upto(a: Seq<u64>, inv_zetas: Seq<u64>, len: nat, q: int) -> Seq<u64>
    decreases len,
{
    if len == 0 {
        a
    } else {
        gs_layer(gs_layers_upto(a, inv_zetas, len / 2, q), inv_zetas, len, q)
    }
}

/// Every element multiplied by `c`, modulo `q`.
pub open spec fn scale_seq(a: Seq<u64>, c: int, q: int) -> Seq<u64> {
    Seq::new(a.len(), |i: int| ((a[i] * c) % q) as u64)
}

/// The inverse (Gentleman-Sande) transform of `a`: all layers from half-width `1`
/// up to `n/2`, then every element times `n_inv`.
pub open spec fn inverse_ntt_spec(a: Seq<u64>, inv_zetas: Seq<u64>, n_inv: int, q: int) -> Seq<u64> {
    scale_seq(gs_layers_upto(a, inv_zetas, a.len() / 2, q), n_inv, q)
}

/// Index `i = w·blk + off` with `0 <= off < w` lies in block `blk` at offset `off`.
proof fn lemma_block_index(i: int, w: int, blk: int, off: int)
    requires
        w > 0,
        0 <= off < w,
        i == w * blk + off,
    ensures
        i / w == blk,
        i % w == off,
{
    lemma_mul_is_commutative(w, blk);
    lemma_fundamental_div_mod_converse(i, w, blk, off);
}


/// `log2(n)` for a power of two `n` (the number of halvings down to `1`).
pub open spec fn log2_exact(n: nat) -> nat
    decreases n,
{
    if n <= 1 {
        0
    } else {
        1 + log2_exact(n / 2)
    }
}

/// A power of two is two to its exact logarithm.
pub proof fn lemma_pow2_log2(n: nat)
    requires
        is_pow2(n as int),
    ensures
        pow2(log2_exact(n)) == n,
    decreases n,
{
    reveal(is_pow2);
    if n <= 1 {
        lemma_pow2(0);
        lemma_pow0(2);
    } else {
        lemma_pow2_log2(n / 2);
        lemma_pow2_unfold(log2_exact(n));
    }
}

/// The exponent `log2(n)` of a power of two `n`.
pub(crate) fn log2_of(n: usize) -> (r: u32)
    requires
        is_pow2(n as int),
    ensures
        r == log2_exact(n as nat),
        pow2(r as nat) == n,
        r < 64,
{
    let mut m = n;
    let mut r: u32 = 0;
    proof {
        lemma_pow2(0);
        lemma_pow0(2);
        reveal(is_pow2);
        assert(n >= 1);
    }
    while m > 1
        invariant
            is_pow2(m as int),
            m >= 1,
            r + log2_exact(m as nat) == log2_exact(n as nat),
            pow2(r as nat) * m == n,
            r < 64,
            pow2(r as nat) <= n,
        decreases m,
    {
        proof {
            reveal(is_pow2);
            assert(m % 2 == 0);
            lemma_pow2_unfold((r + 1) as nat);
            assert(pow2((r + 1) as nat) * (m / 2) == pow2(r as nat) * m) by (nonlinear_arith)
                requires m % 2 == 0, pow2((r + 1) as nat) == 2 * pow2(r as nat);
            lemma_mul_inequality(1, (m / 2) as int, pow2((r + 1) as nat) as int);
            if r + 1 >= 64 {
                lemma_pow2_strictly_increases(63, (r + 1) as nat);
                lemma2_to64_rest();
            }
        }
        m = m / 2;
        r = r + 1;
    }
    proof {
        lemma_mul_basics(pow2(r as nat) as int);
    }
    r
}


/// `zetas[k] · inv_zetas[k] ≡ 1 (mod q)` for every twiddle index `k` in `1..n`.
pub open spec fn twiddles_invertible(zetas: Seq<u64>, inv_zetas: Seq<u64>, q: int) -> bool {
    forall|k: int| 1 <= k < zetas.len() ==> #[trigger] ((zetas[k] * inv_zetas[k]) % q) == 1
}

/// Where index `i < n` sits for butterflies of width `w` when `w | n`: block `i / w`
/// is below `n / w`, so its twiddle index lies in `n/w .. 2n/w`, inside `1..n`.
proof fn lemma_twiddle_index(i: int, n: int, w: int)
    requires
        0 <= i < n,
        w >= 2,
        n % w == 0,
    ensures
        1 <= n / w,
        i / w < n / w,
        n / w + i / w < n,
        w * (i / w) + w <= n,
        i == w * (i / w) + i % w,
        0 <= i % w < w,
{
    lemma_fundamental_div_mod(n, w);
    lemma_fundamental_div_mod(i, w);
    lemma_mod_bound(i, w);
    let nb = n / w;
    let b = i / w;
    assert(n == w * nb);
    if nb < 1 {
        lemma_mul_inequality(nb, 0, w);
        lemma_mul_is_commutative(w, nb);
    }
    if b >= nb {
        lemma_mul_inequality(nb, b, w);
        lemma_mul_is_commutative(w, nb);
        lemma_mul_is_commutative(w, b);
    }
    lemma_mul_inequality(2, w, nb);
    lemma_mul_is_commutative(w, nb);
    lemma_mul_inequality(b + 1, nb, w);
    lemma_mul_is_commutative(w, b + 1);
    lemma_mul_is_distributive_add(w, b, 1);
}

/// The layer outputs are reduced.
proof fn lemma_layers_reduced(a: Seq<u64>, zetas: Seq<u64>, inv_zetas: Seq<u64>, len: nat, q: int)
    requires
        1 < q <= u64::MAX + 1,
    ensures
        all_below(ct_layer(a, zetas, len, q), q),
        all_below(gs_layer(a, inv_zetas, len, q), q),
        forall|c: int| all_below(#[trigger] scale_seq(a, c, q), q),
{
    let w = 2 * len as int;
    assert forall|i: int| 0 <= i < a.len() implies #[trigger] ct_layer(a, zetas, len, q)[i] < q by {
        let z = zetas[a.len() as int / w + i / w] as int;
        lemma_mod_bound(a[i] + (z * a[i + len]) % q, q);
        lemma_mod_bound(a[i - len] - (z * a[i]) % q, q);
    }
    assert forall|i: int| 0 <= i < a.len() implies #[trigger] gs_layer(a, inv_zetas, len, q)[i] < q by {
        let z = inv_zetas[a.len() as int / w + i / w] as int;
        lemma_mod_bound(a[i] + a[i + len], q);
        lemma_mod_bound(z * ((a[i - len] - a[i]) % q), q);
    }
    assert forall|c: int| all_below(#[trigger] scale_seq(a, c, q), q) by {
        assert forall|i: int| 0 <= i < a.len() implies #[trigger] scale_seq(a, c, q)[i] < q by {
            lemma_mod_bound(a[i] * c, q);
        }
    }
}

/// A Gentleman-Sande layer undoes the Cooley-Tukey layer of the same width, up to a factor 2.
proof fn lemma_layer_roundtrip(a: Seq<u64>, zetas: Seq<u64>, inv_zetas: Seq<u64>, len: nat, q: int)
    requires
        1 < q <= u64::MAX,
        zetas.len() == a.len(),
        inv_zetas.len() == a.len(),
        all_below(a, q),
        len >= 1,
        a.len() % (2 * len) == 0,
        twiddles_invertible(zetas, inv_zetas, q),
    ensures
        gs_layer(ct_layer(a, zetas, len, q), inv_zetas, len, q) == scale_seq(a, 2, q),
{
    let n = a.len() as int;
    let w = 2 * len as int;
    let b = ct_layer(a, zetas, len, q);
    let c = gs_layer(b, inv_zetas, len, q);
    assert forall|i: int| 0 <= i < n implies #[trigger] c[i] == scale_seq(a, 2, q)[i] by {
        lemma_twiddle_index(i, n, w);
        lemma_fundamental_div_mod(i, w);
        lemma_mod_bound(i, w);
        let blk = i / w;
        let off = i % w;
        let k = n / w + blk;
        let z = zetas[k] as int;
        let zi = inv_zetas[k] as int;
        assert((z * zi) % q == 1);
        if off < len {
            lemma_block_index(i + len, w, blk, off + len);
            let x = a[i] as int;
            let y = a[i + len] as int;
            let t = (z * y) % q;
            lemma_mod_bound(x + t, q);
            lemma_mod_bound(x - t, q);
            assert(b[i] == (x + t) % q);
            assert(b[i + len] == (x - t) % q);
            lemma_butterfly_roundtrip(x, y, z, zi, q);
            lemma_mod_bound(2 * x, q);
            assert(c[i] == (2 * x) % q);
            assert(x * 2 == 2 * x);
        } else {
            lemma_block_index(i - len, w, blk, off - len);
            let x = a[i - len] as int;
            let y = a[i] as int;
            let t = (z * y) % q;
            lemma_mod_bound(x + t, q);
            lemma_mod_bound(x - t, q);
            assert(b[i - len] == (x + t) % q);
            assert(b[i] == (x - t) % q);
            lemma_butterfly_roundtrip(x, y, z, zi, q);
            lemma_mod_bound(2 * y, q);
            lemma_mod_bound(b[i - len] - b[i], q);
            lemma_mod_bound(zi * ((b[i - len] - b[i]) % q), q);
            assert(c[i] == (2 * y) % q);
            assert(y * 2 == 2 * y);
        }
    }
    assert(c =~= scale_seq(a, 2, q));
}

/// A Gentleman-Sande layer commutes with scaling by a constant.
proof fn lemma_gs_layer_scale(x: Seq<u64>, inv_zetas: Seq<u64>, len: nat, c: int, q: int)
    requires
        1 < q <= u64::MAX,
        all_below(x, q),
        len >= 1,
        x.len() % (2 * len) == 0,
    ensures
        gs_layer(scale_seq(x, c, q), inv_zetas, len, q) == scale_seq(gs_layer(x, inv_zetas, len, q), c, q),
{
    let n = x.len() as int;
    let w = 2 * len as int;
    let sx = scale_seq(x, c, q);
    let lhs = gs_layer(sx, inv_zetas, len, q);
    let g = gs_layer(x, inv_zetas, len, q);
    let rhs = scale_seq(g, c, q);
    assert forall|i: int| 0 <= i < n implies #[trigger] lhs[i] == rhs[i] by {
        lemma_twiddle_index(i, n, w);
        let zi = inv_zetas[n / w + i / w] as int;
        if i % w < len {
            lemma_scale_sum(x[i] as int, x[i + len] as int, c, q);
            lemma_mod_bound(x[i] + x[i + len], q);
            lemma_mod_bound(x[i] * c, q);
            lemma_mod_bound(x[i + len] * c, q);
        } else {
            lemma_scale_twist(x[i - len] as int, x[i] as int, c, zi, q);
            lemma_mod_bound(zi * ((x[i - len] - x[i]) % q), q);
            lemma_mod_bound(x[i - len] * c, q);
            lemma_mod_bound(x[i] * c, q);
        }
    }
    assert(lhs =~= rhs);
}

/// The scale factor that `len` full layer pairs contribute.
pub open spec fn layer_factor(len: nat) -> int {
    if len == 0 { 1 } else { 2 * len as int }
}

/// Running the Cooley-Tukey layers from half-width `len` down to `1`, then the
/// Gentleman-Sande layers from `1` up to `len`, multiplies every entry by `2·len`.
proof fn lemma_layers_roundtrip(a: Seq<u64>, zetas: Seq<u64>, inv_zetas: Seq<u64>, len: nat, q: int)
    requires
        1 < q <= u64::MAX,
        zetas.len() == a.len(),
        inv_zetas.len() == a.len(),
        all_below(a, q),
        twiddles_invertible(zetas, inv_zetas, q),
        len == 0 || (is_pow2(len as int) && a.len() % (2 * len) == 0),
    ensures
        gs_layers_upto(ct_layers_from(a, zetas, len, q), inv_zetas, len, q) == scale_seq(a, layer_factor(len), q),
    decreases len,
{
    if len == 0 {
        assert forall|i: int| 0 <= i < a.len() implies #[trigger] scale_seq(a, 1, q)[i] == a[i] by {
            lemma_small_mod(a[i] as nat, q as nat);
        }
        assert(scale_seq(a, 1, q) =~= a);
    } else {
        let b = ct_layer(a, zetas, len, q);
        lemma_layers_reduced(a, zetas, inv_zetas, len, q);
        let half = len / 2;
        proof_half_step(a.len(), len);
        lemma_layers_roundtrip(b, zetas, inv_zetas, half, q);
        let f = layer_factor(half);
        let inner = gs_layers_upto(ct_layers_from(b, zetas, half, q), inv_zetas, half, q);
        assert(inner == scale_seq(b, f, q));
        assert(ct_layers_from(a, zetas, len, q) == ct_layers_from(b, zetas, half, q));
        assert(gs_layers_upto(ct_layers_from(a, zetas, len, q), inv_zetas, len, q)
            == gs_layer(inner, inv_zetas, len, q));
        assert(all_below(b, q));
        lemma_gs_layer_scale(b, inv_zetas, len, f, q);
        lemma_layer_roundtrip(a, zetas, inv_zetas, len, q);
        let s2 = scale_seq(a, 2, q);
        assert forall|i: int| 0 <= i < a.len() implies #[trigger] scale_seq(s2, f, q)[i] == scale_seq(a, 2 * f, q)[i] by {
            lemma_scale_twice(a[i] as int, 2, f, q);
            lemma_mod_bound(a[i] * 2, q);
        }
        assert(scale_seq(s2, f, q) =~= scale_seq(a, 2 * f, q));
        reveal(is_pow2);
        assert(2 * f == 2 * len);
    }
}

/// Halving a power-of-two half-width keeps the divisibility the layers need.
proof fn proof_half_step(n: nat, len: nat)
    requires
        len >= 1,
        is_pow2(len as int),
        n % (2 * len) == 0,
    ensures
        len / 2 == 0 || (is_pow2((len / 2) as int) && n % (2 * (len / 2)) == 0),
{
    reveal(is_pow2);
    if len >= 2 {
        assert(len % 2 == 0);
        assert(2 * (len / 2) == len);
        lemma_fundamental_div_mod(n as int, 2 * len as int);
        let k = n as int / (2 * len as int);
        assert(n == (2 * len as int) * k);
        assert(n == len * (2 * k)) by (nonlinear_arith)
            requires n == (2 * len as int) * k;
        lemma_mod_multiples_basic(2 * k, len as int);
        lemma_mul_is_commutative(len as int, 2 * k);
    }
}

/// The forward layers keep the length.
proof fn lemma_ct_layers_len(a: Seq<u64>, zetas: Seq<u64>, len: nat, q: int)
    ensures
        ct_layers_from(a, zetas, len, q).len() == a.len(),
    decreases len,
{
    if len > 0 {
        lemma_ct_layers_len(ct_layer(a, zetas, len, q), zetas, len / 2, q);
    }
}


/// The inverse layers keep the length.
proof fn lemma_gs_layers_len(a: Seq<u64>, inv_zetas: Seq<u64>, len: nat, q: int)
    ensures
        gs_layers_upto(a, inv_zetas, len, q).len() == a.len(),
    decreases len,
{
    if len > 0 {
        lemma_gs_layers_len(a, inv_zetas, len / 2, q);
    }
}

/// The forward layers give reduced entries.
proof fn lemma_ct_layers_reduced(a: Seq<u64>, zetas: Seq<u64>, len: nat, q: int)
    requires
        1 < q <= u64::MAX,
        all_below(a, q),
    ensures
        all_below(ct_layers_from(a, zetas, len, q), q),
    decreases len,
{
    if len > 0 {
        lemma_layers_reduced(a, zetas, zetas, len, q);
        lemma_ct_layers_reduced(ct_layer(a, zetas, len, q), zetas, len / 2, q);
    }
}


/// A Cooley-Tukey layer is additive modulo `q`.
proof fn lemma_ct_layer_additive(a: Seq<u64>, b: Seq<u64>, zetas: Seq<u64>, len: nat, q: int)
    requires
        1 < q <= u64::MAX,
        a.len() == b.len(),
        all_below(a, q),
        all_below(b, q),
        len >= 1,
        a.len() % (2 * len) == 0,
    ensures
        ct_layer(add_mod_seq(a, b, q), zetas, len, q) == add_mod_seq(ct_layer(a, zetas, len, q), ct_layer(b, zetas, len, q), q),
{
    let n = a.len() as int;
    let w = 2 * len as int;
    let s = add_mod_seq(a, b, q);
    let lhs = ct_layer(s, zetas, len, q);
    let rhs = add_mod_seq(ct_layer(a, zetas, len, q), ct_layer(b, zetas, len, q), q);
    assert forall|i: int| 0 <= i < n implies #[trigger] lhs[i] == rhs[i] by {
        lemma_twiddle_index(i, n, w);
        let z = zetas[n / w + i / w] as int;
        let (xi, yi) = if i % w < len { (i, i + len) } else { (i - len, i) };
        let x1 = a[xi] as int;
        let x2 = b[xi] as int;
        let y1 = a[yi] as int;
        let y2 = b[yi] as int;
        lemma_mod_bound(x1 + x2, q);
        lemma_mod_bound(y1 + y2, q);
        let sign: int = if i % w < len { 1 } else { -1 };
        lemma_butterfly_additive(x1, x2, y1, y2, z, sign, q);
        if i % w < len {
            lemma_mod_bound(x1 + (z * y1) % q, q);
            lemma_mod_bound(x2 + (z * y2) % q, q);
        } else {
            lemma_mod_bound(x1 - (z * y1) % q, q);
            lemma_mod_bound(x2 - (z * y2) % q, q);
        }
    }
    assert(lhs =~= rhs);
}

/// The forward layers are additive modulo `q`.
proof fn lemma_ct_layers_additive(a: Seq<u64>, b: Seq<u64>, zetas: Seq<u64>, len: nat, q: int)
    requires
        1 < q <= u64::MAX,
        a.len() == b.len(),
        all_below(a, q),
        all_below(b, q),
        len == 0 || (is_pow2(len as int) && a.len() % (2 * len) == 0),
    ensures
        ct_layers_from(add_mod_seq(a, b, q), zetas, len, q)
            == add_mod_seq(ct_layers_from(a, zetas, len, q), ct_layers_from(b, zetas, len, q), q),
    decreases len,
{
    if len > 0 {
        lemma_ct_layer_additive(a, b, zetas, len, q);
        lemma_layers_reduced(a, zetas, zetas, len, q);
        lemma_layers_reduced(b, zetas, zetas, len, q);
        proof_half_step(a.len(), len);
        lemma_ct_layers_additive(ct_layer(a, zetas, len, q), ct_layer(b, zetas, len, q), zetas, len / 2, q);
    }
}

/// `1` at every index divisible by `w`, `0` elsewhere.
pub open spec fn comb(n: nat, w: int) -> Seq<u64> {
    Seq::new(n, |i: int| if i % w == 0 { 1u64 } else { 0u64 })
}

/// A Cooley-Tukey layer of half-width `len` turns the comb of width `2·len` into the comb of width `len`.
proof fn lemma_ct_layer_comb(n: nat, zetas: Seq<u64>, len: nat, q: int)
    requires
        1 < q <= u64::MAX,
        len >= 1,
        n % (2 * len) == 0,
    ensures
        ct_layer(comb(n, 2 * len as int), zetas, len, q) == comb(n, len as int),
{
    let w = 2 * len as int;
    let c = comb(n, w);
    let lhs = ct_layer(c, zetas, len, q);
    assert forall|i: int| 0 <= i < n implies #[trigger] lhs[i] == comb(n, len as int)[i] by {
        lemma_twiddle_index(i, n as int, w);
        let blk = i / w;
        let off = i % w;
        let z = zetas[n as int / w + blk] as int;
        lemma_small_mod(1, q as nat);
        lemma_small_mod(0, q as nat);
        lemma_mul_basics(z);
        // i % len is the offset within the half-block
        if off < len {
            lemma_block_index(i + len, w, blk, off + len);
            assert(i == (2 * blk) * (len as int) + off) by (nonlinear_arith)
                requires i == w * blk + off, w == 2 * len;
            lemma_block_index(i, len as int, 2 * blk, off);
            assert(c[i + len] == 0);
            if off == 0 {
                assert(c[i] == 1);
            } else {
                assert(c[i] == 0);
            }
        } else {
            lemma_block_index(i - len, w, blk, off - len);
            assert(i == (2 * blk + 1) * (len as int) + (off - len)) by (nonlinear_arith)
                requires i == w * blk + off, w == 2 * len;
            lemma_block_index(i, len as int, 2 * blk + 1, off - len);
            assert(c[i] == 0);
            if off == len {
                assert(c[i - len] == 1);
            } else {
                assert(c[i - len] == 0);
            }
        }
    }
    assert(lhs =~= comb(n, len as int));
}

/// The forward layers from half-width `len` turn the comb of width `2·len` into all ones.
proof fn lemma_ct_layers_comb(n: nat, zetas: Seq<u64>, len: nat, q: int)
    requires
        1 < q <= u64::MAX,
        len == 0 || (is_pow2(len as int) && n % (2 * len) == 0),
    ensures
        ct_layers_from(comb(n, layer_factor(len)), zetas, len, q) == comb(n, 1),
    decreases len,
{
    if len > 0 {
        lemma_ct_layer_comb(n, zetas, len, q);
        proof_half_step(n, len);
        reveal(is_pow2);
        assert(layer_factor(len / 2) == len);
        lemma_ct_layers_comb(n, zetas, len / 2, q);
    }
}

/// The transform of the constant polynomial `1` is all ones.
pub proof fn lemma_forward_ntt_of_one(n: nat, zetas: Seq<u64>, q: int)
    requires
        1 < q <= u64::MAX,
        n >= 2,
        is_pow2(n as int),
    ensures
        forward_ntt_spec(comb(n, n as int), zetas, q) == comb(n, 1),
{
    reveal(is_pow2);
    assert(n % 2 == 0);
    assert(2 * (n / 2) == n);
    lemma_mod_self_0(n as int);
    lemma_ct_layers_comb(n, zetas, n / 2, q);
}

/// The inverse transform undoes the forward transform, for any twiddle tables
/// that are inverse to each other and any `n_inv` inverse to `n`.
pub proof fn lemma_ntt_roundtrip_tables(a: Seq<u64>, zetas: Seq<u64>, inv_zetas: Seq<u64>, n_inv: int, q: int)
    requires
        1 < q <= u64::MAX,
        a.len() >= 2,
        is_pow2(a.len() as int),
        zetas.len() == a.len(),
        inv_zetas.len() == a.len(),
        all_below(a, q),
        twiddles_invertible(zetas, inv_zetas, q),
        (a.len() * n_inv) % q == 1,
    ensures
        inverse_ntt_spec(forward_ntt_spec(a, zetas, q), inv_zetas, n_inv, q) == a,
{
    let n = a.len();
    let half = n / 2;
    reveal(is_pow2);
    assert(n % 2 == 0);
    assert(2 * half == n);
    assert(n % (2 * half) == 0) by {
        lemma_mod_self_0(n as int);
    }
    lemma_layers_roundtrip(a, zetas, inv_zetas, half, q);
    lemma_ct_layers_len(a, zetas, half, q);
    let s = scale_seq(a, n as int, q);
    assert forall|i: int| 0 <= i < n implies #[trigger] scale_seq(s, n_inv, q)[i] == a[i] by {
        lemma_scale_twice(a[i] as int, n as int, n_inv, q);
        lemma_mul_mod_noop_right(a[i] as int, n * n_inv, q);
        lemma_small_mod(a[i] as nat, q as nat);
        lemma_mod_bound(a[i] * n, q);
    }
    assert(scale_seq(s, n_inv, q) =~= a);
}


/// A positive multiple of `d` is at least `d`.
proof fn lemma_mod_is_zero_le(x: nat, d: nat)
    requires
        x > 0,
        d > 0,
        x % d == 0,
    ensures
        d <= x,
{
    lemma_fundamental_div_mod(x as int, d as int);
    let k = x / d;
    if k == 0 {
        assert(x == d * k);
        lemma_mul_basics(d as int);
    } else {
        lemma_mul_inequality(1, k as int, d as int);
        lemma_mul_is_commutative(d as int, k as int);
    }
}

/// Error returned when a ring cannot be built.
#[derive(Debug, PartialEq, Eq, Clone, Copy)]
pub enum RingError {
    /// No primitive `2n`-th root of unity was found modulo the given modulus.
    NoPrimitiveRoot(u64, u64),
}

/// The ring `Z_q[X]/(X^n + 1)` with precomputed twiddle factors for the negacyclic NTT.
#[derive(Debug)]
pub struct Ring {
    arith: ModArith,
    n: usize,
    zetas: Vec<u64>,
    inv_zetas: Vec<u64>,
    n_inv: u64,
}

impl Ring {
    /// The modulus.
    pub closed spec fn q(&self) -> nat {
        self.arith.q()
    }

    /// The dimension `n`.
    pub closed spec fn dim(&self) -> nat {
        self.n as nat
    }

    /// The forward twiddle table.
    pub closed spec fn zeta_table(&self) -> Seq<u64> {
        self.zetas@
    }

    /// The inverse twiddle table.
    pub closed spec fn inv_zeta_table(&self) -> Seq<u64> {
        self.inv_zetas@
    }

    /// The scaling factor applied after the inverse layers.
    pub closed spec fn n_inv_value(&self) -> nat {
        self.n_inv as nat
    }

    /// The shape every ring has: `n >= 2` a power of two with `2n | q - 1`,
    /// and both twiddle tables of length `n` with reduced entries.
    pub closed spec fn wf(&self) -> bool {
        &&& self.n >= 2
        &&& self.n < 0x4000_0000_0000_0000
        &&& is_pow2(self.n as int)
        &&& self.arith.q() >= 3
        &&& self.arith.q() < MODULUS_LIMIT
        &&& exists|psi: int|
            first_accepted_root(psi, self.arith.q() as int, 2 * self.n as int) && #[trigger] self.tables_from(psi)
        &&& (self.arith.q() - 1) % (2 * self.n as int) == 0
        &&& self.zetas@.len() == self.n
        &&& self.inv_zetas@.len() == self.n
        &&& all_below(self.zetas@, self.arith.q() as int)
        &&& all_below(self.inv_zetas@, self.arith.q() as int)
        &&& self.n_inv < self.arith.q()
    }


    /// The twiddle tables come from `psi`: `zetas[k] = psi^bitrev(k) mod q`,
    /// `inv_zetas[k] = zetas[k]^(q-2) mod q` and `n_inv = n^(q-2) mod q`.
    pub open spec fn tables_from(&self, psi: int) -> bool {
        let q = self.q() as int;
        &&& forall|k: int|
            0 <= k < self.dim() ==> #[trigger] self.zeta_table()[k] == pow(
                psi,
                bit_reverse(k as nat, log2_exact(self.dim())),
            ) % q
        &&& forall|k: int|
            0 <= k < self.dim() ==> #[trigger] self.inv_zeta_table()[k] == pow(
                self.zeta_table()[k] as int,
                (q - 2) as nat,
            ) % q
        &&& self.n_inv_value() == pow(self.dim() as int, (q - 2) as nat) % q
    }

    /// The first accepted root is unique: the search settles on one generator.
    pub proof fn lemma_first_root_unique(psi1: int, psi2: int, q: int, order: int)
        requires
            first_accepted_root(psi1, q, order),
            first_accepted_root(psi2, q, order),
        ensures
            psi1 == psi2,
    {
        let g1 = choose|g: int|
            2 <= g < q && psi1 == #[trigger] root_candidate(g, q, order) && accepted_root(psi1, q, order)
                && no_root_below(g, q, order);
        let g2 = choose|g: int|
            2 <= g < q && psi2 == #[trigger] root_candidate(g, q, order) && accepted_root(psi2, q, order)
                && no_root_below(g, q, order);
        if g1 < g2 {
            assert(!accepted_root(root_candidate(g1, q, order), q, order));
        } else if g2 < g1 {
            assert(!accepted_root(root_candidate(g2, q, order), q, order));
        }
    }

    /// Two well-formed rings with the same modulus and dimension have the same tables: the
    /// twiddles depend on `q` and `n` alone.
    pub proof fn lemma_tables_determined(&self, other: &Ring)
        requires
            self.wf(),
            other.wf(),
            self.q() == other.q(),
            self.dim() == other.dim(),
        ensures
            self.zeta_table() == other.zeta_table(),
            self.inv_zeta_table() == other.inv_zeta_table(),
            self.n_inv_value() == other.n_inv_value(),
    {
        let q = self.q() as int;
        let n = self.dim();
        let psi1 = choose|psi: int| first_accepted_root(psi, q, 2 * n as int) && #[trigger] self.tables_from(psi);
        let psi2 = choose|psi: int| first_accepted_root(psi, q, 2 * n as int) && #[trigger] other.tables_from(psi);
        Self::lemma_first_root_unique(psi1, psi2, q, 2 * n as int);
        self.lemma_wf_bounds();
        other.lemma_wf_bounds();
        assert(self.zeta_table() =~= other.zeta_table());
        assert(self.inv_zeta_table() =~= other.inv_zeta_table());
    }

    /// Builds the ring of dimension `n` over `arith`, with twiddle factors from the
    /// primitive `2n`-th root of unity that `primitive_root_of_unity` finds.
    pub fn new(arith: ModArith, n: usize) -> (res: Result<Ring, RingError>)
        requires
            n >= 2,
            n < 0x4000_0000_0000_0000,
            is_pow2(n as int),
            arith.q() >= 1,
            (arith.q() - 1) % (2 * n as int) == 0,
        ensures
            match res {
                Ok(r) => {
                    &&& r.wf()
                    &&& r.q() == arith.q()
                    &&& r.dim() == n
                    &&& exists|psi: int|
                        first_accepted_root(psi, arith.q() as int, 2 * n as int) && #[trigger] r.tables_from(psi)
                },
                Err(e) => {
                    &&& e == RingError::NoPrimitiveRoot(arith.q() as u64, (2 * n) as u64)
                    &&& no_root_below(arith.q() as int, arith.q() as int, 2 * n as int)
                },
            },
            spec_prime(arith.q() as int) ==> res is Ok,
    {
        let order = 2 * (n as u64);
        let psi = match arith.primitive_root_of_unity(order) {
            Some(p) => p,
            None => {
                return Err(RingError::NoPrimitiveRoot(arith.modulus(), order));
            },
        };
        let ghost q = arith.q() as int;
        proof {
            let g = choose|g: int|
                2 <= g < q && psi == #[trigger] root_candidate(g, q, order as int)
                    && accepted_root(psi as int, q, order as int)
                    && no_root_below(g, q, order as int);
            assert(q >= 3);
        }
        let log_n = log2_of(n);
        let mut zetas: Vec<u64> = Vec::new();
        let mut inv_zetas: Vec<u64> = Vec::new();
        let mut k: usize = 0;
        while k < n
            invariant
                q == arith.q() as int,
                q >= 3,
                0 <= k <= n,
                pow2(log_n as nat) == n,
                log_n == log2_exact(n as nat),
                log_n < 64,
                zetas@.len() == k,
                inv_zetas@.len() == k,
                all_below(zetas@, q),
                all_below(inv_zetas@, q),
                forall|i: int| 0 <= i < k ==> #[trigger] zetas@[i] == pow(
                    psi as int,
                    bit_reverse(i as nat, log2_exact(n as nat)),
                ) % q,
                forall|i: int| 0 <= i < k ==> #[trigger] inv_zetas@[i] == pow(
                    zetas@[i] as int,
                    (q - 2) as nat,
                ) % q,
            decreases n - k,
        {
            let exp = Self::bit_rev(k, log_n) as u64;
            let z = arith.pow(psi, exp);
            let zi = arith.inv(z);
            zetas.push(z);
            inv_zetas.push(zi);
            k = k + 1;
        }
        let n_inv = arith.inv(n as u64);
        let ring = Ring { arith, n, zetas, inv_zetas, n_inv };
        proof {
            assert(ring.tables_from(psi as int));
            assert(first_accepted_root(psi as int, q, order as int));
        }
        Ok(ring)
    }


    /// The inverse twiddles invert the twiddles and `n_inv` inverts `n`, modulo `q`: what the
    /// round trip of the transforms rests on.
    pub open spec fn inverse_tables_ok(&self) -> bool {
        &&& twiddles_invertible(self.zeta_table(), self.inv_zeta_table(), self.q() as int)
        &&& ((self.dim() * self.n_inv_value()) as int) % (self.q() as int) == 1
    }

    /// For a prime modulus the tables are inverses.
    pub proof fn lemma_prime_tables_ok(&self)
        requires
            self.wf(),
            spec_prime(self.q() as int),
        ensures
            self.inverse_tables_ok(),
    {
        let q = self.q() as int;
        let n = self.dim();
        let psi = choose|psi: int|
            first_accepted_root(psi, q, 2 * n as int) && #[trigger] self.tables_from(psi);
        // psi is not a multiple of q: psi^n ≡ -1
        assert(psi % q != 0) by {
            let g = choose|g: int|
                2 <= g < q && psi == #[trigger] root_candidate(g, q, 2 * n as int) && accepted_root(psi, q, 2 * n as int)
                    && no_root_below(g, q, 2 * n as int);
            assert((2 * n as int) / 2 == n);
            assert(pow(psi, n) % q == q - 1);
            if psi % q == 0 {
                lemma_pow_mod_noop(psi, n, q);
                lemma0_pow(n);
                lemma_small_mod(0, q as nat);
                assert(pow(0, n) % q == 0);
            }
        }
        assert(twiddles_invertible(self.zeta_table(), self.inv_zeta_table(), q)) by {
            assert forall|k: int| 1 <= k < self.zeta_table().len() implies #[trigger] ((self.zeta_table()[k] * self.inv_zeta_table()[k]) % q) == 1 by {
                let e = bit_reverse(k as nat, log2_exact(n));
                let z = self.zeta_table()[k] as int;
                assert(z == pow(psi, e) % q);
                lemma_pow_nonzero_mod_prime(psi, e, q);
                lemma_mod_bound(pow(psi, e), q);
                lemma_small_mod(z as nat, q as nat);
                lemma_invert_by_fermat(z, q);
                assert(self.inv_zeta_table()[k] == pow(z, (q - 2) as nat) % q);
            }
        }
        assert(((n * self.n_inv_value()) as int) % q == 1) by {
            assert(2 * n <= q - 1) by {
                lemma_mod_is_zero_le((q - 1) as nat, 2 * n);
            }
            lemma_small_mod(n, q as nat);
            lemma_invert_by_fermat(n as int, q);
        }
    }

    /// The inverse transform undoes the forward transform when the tables are inverses (in
    /// particular for a prime modulus).
    pub proof fn lemma_ntt_roundtrip(&self, a: Seq<u64>)
        requires
            self.wf(),
            self.inverse_tables_ok(),
            a.len() == self.dim(),
            all_below(a, self.q() as int),
        ensures
            inverse_ntt_spec(
                forward_ntt_spec(a, self.zeta_table(), self.q() as int),
                self.inv_zeta_table(),
                self.n_inv_value() as int,
                self.q() as int,
            ) == a,
    {
        self.lemma_wf_bounds();
        lemma_ntt_roundtrip_tables(a, self.zeta_table(), self.inv_zeta_table(), self.n_inv_value() as int, self.q() as int);
    }

    /// Whether the tables are inverses, checked entry by entry.
    pub fn has_inverse_tables(&self) -> (b: bool)
        requires
            self.wf(),
        ensures
            b == self.inverse_tables_ok(),
    {
        let q = self.arith.modulus();
        let n = self.n;
        proof {
            assert(2 * n <= q - 1) by {
                lemma_mod_is_zero_le((q - 1) as nat, (2 * n) as nat);
            }
        }
        let mut k: usize = 1;
        while k < n
            invariant
                self.wf(),
                q == self.q(),
                n == self.dim(),
                1 <= k <= n,
                forall|t: int| 1 <= t < k ==> #[trigger] ((self.zeta_table()[t] * self.inv_zeta_table()[t]) % (q as int)) == 1,
            decreases n - k,
        {
            proof {
                assert(self.zetas@[k as int] < q);
                assert(self.inv_zetas@[k as int] < q);
            }
            if self.arith.mul(self.zetas[k], self.inv_zetas[k]) != 1 {
                return false;
            }
            k = k + 1;
        }
        self.arith.mul(n as u64, self.n_inv) == 1
    }

    /// What every well-formed ring knows of its modulus and dimension.
    pub proof fn lemma_wf_bounds(&self)
        requires
            self.wf(),
        ensures
            3 <= self.q() < MODULUS_LIMIT,
            2 <= self.dim() < 0x4000_0000_0000_0000,
            is_pow2(self.dim() as int),
            self.zeta_table().len() == self.dim(),
            self.inv_zeta_table().len() == self.dim(),
            self.n_inv_value() < self.q(),
    {
    }



    /// When the tables are inverses, adding two transforms pointwise and transforming back
    /// gives the coefficient-wise sum: the transform is additive.
    pub proof fn lemma_ntt_add_matches_coeff_add(&self, a: Seq<u64>, b: Seq<u64>)
        requires
            self.wf(),
            self.inverse_tables_ok(),
            a.len() == self.dim(),
            b.len() == self.dim(),
            all_below(a, self.q() as int),
            all_below(b, self.q() as int),
        ensures
            inverse_ntt_spec(
                add_mod_seq(
                    forward_ntt_spec(a, self.zeta_table(), self.q() as int),
                    forward_ntt_spec(b, self.zeta_table(), self.q() as int),
                    self.q() as int,
                ),
                self.inv_zeta_table(),
                self.n_inv_value() as int,
                self.q() as int,
            ) == add_mod_seq(a, b, self.q() as int),
    {
        let q = self.q() as int;
        let n = self.dim();
        reveal(is_pow2);
        assert(n % 2 == 0);
        assert(2 * (n / 2) == n);
        lemma_mod_self_0(n as int);
        lemma_ct_layers_additive(a, b, self.zeta_table(), n / 2, q);
        let s = add_mod_seq(a, b, q);
        assert(all_below(s, q)) by {
            assert forall|i: int| 0 <= i < s.len() implies #[trigger] s[i] < q by {
                lemma_mod_bound(a[i] + b[i], q);
            }
        }
        self.lemma_ntt_roundtrip(s);
    }

    /// When the tables are inverses, multiplying a transform pointwise by the transform of the
    /// constant `1` and transforming back gives the input back.
    pub proof fn lemma_ntt_mul_identity(&self, a: Seq<u64>)
        requires
            self.wf(),
            self.inverse_tables_ok(),
            a.len() == self.dim(),
            all_below(a, self.q() as int),
        ensures
            inverse_ntt_spec(
                mul_mod_seq(
                    forward_ntt_spec(a, self.zeta_table(), self.q() as int),
                    forward_ntt_spec(comb(self.dim(), self.dim() as int), self.zeta_table(), self.q() as int),
                    self.q() as int,
                ),
                self.inv_zeta_table(),
                self.n_inv_value() as int,
                self.q() as int,
            ) == a,
    {
        let q = self.q() as int;
        let n = self.dim();
        lemma_forward_ntt_of_one(n, self.zeta_table(), q);
        let fa = forward_ntt_spec(a, self.zeta_table(), q);
        self.lemma_transforms_reduced(a);
        let prod = mul_mod_seq(fa, comb(n, 1), q);
        assert forall|i: int| 0 <= i < fa.len() implies #[trigger] prod[i] == fa[i] by {
            lemma_mod_self_0(1);
            lemma_small_mod(fa[i] as nat, q as nat);
        }
        assert(prod =~= fa);
        self.lemma_ntt_roundtrip(a);
    }

    /// The root the twiddle tables come from: `zetas[k] = ψ^rev(k) mod q` with `ψ^n ≡ -1`.
    proof fn lemma_root(&self) -> (psi: int)
        requires
            self.wf(),
        ensures
            pow2(log2_exact(self.dim())) == self.dim(),
            log2_exact(self.dim()) >= 1,
            forall|k: int|
                0 <= k < self.dim() ==> #[trigger] self.zeta_table()[k] == pow(
                    psi,
                    bit_reverse(k as nat, log2_exact(self.dim())),
                ) % (self.q() as int),
            pow(psi, self.dim()) % (self.q() as int) == self.q() - 1,
    {
        let q = self.q() as int;
        let n = self.dim();
        let psi = choose|psi: int| first_accepted_root(psi, q, 2 * n as int) && #[trigger] self.tables_from(psi);
        let l = log2_exact(n);
        lemma_pow2_log2(n);
        assert(l >= 1) by {
            if l == 0 {
                lemma_pow2(0);
                lemma_pow0(2);
            }
        }
        assert(pow(psi, n) % q == q - 1) by {
            let g = choose|g: int|
                2 <= g < q && psi == #[trigger] root_candidate(g, q, 2 * n as int) && accepted_root(psi, q, 2 * n as int)
                    && no_root_below(g, q, 2 * n as int);
            assert((2 * n as int) / 2 == n);
        }
        psi
    }

    /// The transform of a negacyclic product is the pointwise product of the transforms.
    pub proof fn lemma_ntt_of_negacyclic(&self, a: Seq<u64>, b: Seq<u64>)
        requires
            self.wf(),
            a.len() == self.dim(),
            b.len() == self.dim(),
            all_below(a, self.q() as int),
            all_below(b, self.q() as int),
        ensures
            forward_ntt_spec(negacyclic_product(a, b, self.q() as int), self.zeta_table(), self.q() as int)
                == mul_mod_seq(
                forward_ntt_spec(a, self.zeta_table(), self.q() as int),
                forward_ntt_spec(b, self.zeta_table(), self.q() as int),
                self.q() as int,
            ),
    {
        let q = self.q() as int;
        let n = self.dim();
        let zetas = self.zeta_table();
        let psi = self.lemma_root();
        let l = log2_exact(n);
        let c = negacyclic_product(a, b, q);
        assert(all_below(c, q));
        lemma_forward_ntt_evaluates(a, zetas, psi, l, q);
        lemma_forward_ntt_evaluates(b, zetas, psi, l, q);
        lemma_forward_ntt_evaluates(c, zetas, psi, l, q);
        let fa = forward_ntt_spec(a, zetas, q);
        let fb = forward_ntt_spec(b, zetas, q);
        let fc = forward_ntt_spec(c, zetas, q);
        let prod = mul_mod_seq(fa, fb, q);
        assert forall|i: int| 0 <= i < n implies #[trigger] fc[i] == prod[i] by {
            let ex = (2 * bit_reverse(i as nat, l) + 1) as nat;
            let r = pow(psi, ex);
            // r^n ≡ -1: an odd power of ψ^n
            assert(pow(r, n) % q == q - 1) by {
                lemma_pow_multiplies(psi, ex, n);
                lemma_pow_multiplies(psi, n, ex);
                lemma_mul_is_commutative(ex as int, n as int);
                lemma_pow_mod_noop(pow(psi, n), ex, q);
                lemma_pow_minus_one_odd(q, bit_reverse(i as nat, l));
            }
            lemma_product_evaluates(a, b, r, q);
            lemma_mul_mod_noop(eval(a, r), eval(b, r), q);
        }
        assert(fc =~= prod);
    }

    /// The transform of a coefficient-wise sum is the sum of the transforms.
    pub proof fn lemma_ntt_of_sum(&self, a: Seq<u64>, b: Seq<u64>)
        requires
            self.wf(),
            a.len() == self.dim(),
            b.len() == self.dim(),
            all_below(a, self.q() as int),
            all_below(b, self.q() as int),
        ensures
            forward_ntt_spec(add_mod_seq(a, b, self.q() as int), self.zeta_table(), self.q() as int)
                == add_mod_seq(
                forward_ntt_spec(a, self.zeta_table(), self.q() as int),
                forward_ntt_spec(b, self.zeta_table(), self.q() as int),
                self.q() as int,
            ),
    {
        let q = self.q() as int;
        let n = self.dim();
        let zetas = self.zeta_table();
        let psi = self.lemma_root();
        let l = log2_exact(n);
        let c = add_mod_seq(a, b, q);
        assert(all_below(c, q));
        lemma_forward_ntt_evaluates(a, zetas, psi, l, q);
        lemma_forward_ntt_evaluates(b, zetas, psi, l, q);
        lemma_forward_ntt_evaluates(c, zetas, psi, l, q);
        let fa = forward_ntt_spec(a, zetas, q);
        let fb = forward_ntt_spec(b, zetas, q);
        let fc = forward_ntt_spec(c, zetas, q);
        let sum = add_mod_seq(fa, fb, q);
        assert forall|i: int| 0 <= i < n implies #[trigger] fc[i] == sum[i] by {
            let r = pow(psi, (2 * bit_reverse(i as nat, l) + 1) as nat);
            lemma_sum_evaluates(a, b, r, q);
            lemma_add_mod_noop(eval(a, r), eval(b, r), q);
        }
        assert(fc =~= sum);
    }

    /// Multiplying transforms pointwise and transforming back is multiplication in
    /// `Z_q[X]/(X^n + 1)`: the result is the negacyclic product of the inputs (when the tables
    /// are inverses, as for a prime `q`).
    pub proof fn lemma_ntt_mul_negacyclic(&self, a: Seq<u64>, b: Seq<u64>)
        requires
            self.wf(),
            self.inverse_tables_ok(),
            a.len() == self.dim(),
            b.len() == self.dim(),
            all_below(a, self.q() as int),
            all_below(b, self.q() as int),
        ensures
            inverse_ntt_spec(
                mul_mod_seq(
                    forward_ntt_spec(a, self.zeta_table(), self.q() as int),
                    forward_ntt_spec(b, self.zeta_table(), self.q() as int),
                    self.q() as int,
                ),
                self.inv_zeta_table(),
                self.n_inv_value() as int,
                self.q() as int,
            ) == negacyclic_product(a, b, self.q() as int),
    {
        let q = self.q() as int;
        self.lemma_ntt_of_negacyclic(a, b);
        let c = negacyclic_product(a, b, q);
        assert(all_below(c, q));
        self.lemma_ntt_roundtrip(c);
    }

    /// Both transforms keep the length and give reduced entries.
    pub proof fn lemma_transforms_reduced(&self, a: Seq<u64>)
        requires
            self.wf(),
            a.len() == self.dim(),
            all_below(a, self.q() as int),
        ensures
            forward_ntt_spec(a, self.zeta_table(), self.q() as int).len() == self.dim(),
            all_below(forward_ntt_spec(a, self.zeta_table(), self.q() as int), self.q() as int),
            inverse_ntt_spec(a, self.inv_zeta_table(), self.n_inv_value() as int, self.q() as int).len() == self.dim(),
            all_below(inverse_ntt_spec(a, self.inv_zeta_table(), self.n_inv_value() as int, self.q() as int), self.q() as int),
    {
        let q = self.q() as int;
        lemma_ct_layers_len(a, self.zeta_table(), a.len() / 2, q);
        lemma_ct_layers_reduced(a, self.zeta_table(), a.len() / 2, q);
        lemma_gs_layers_len(a, self.inv_zeta_table(), a.len() / 2, q);
        lemma_layers_reduced(gs_layers_upto(a, self.inv_zeta_table(), a.len() / 2, q), self.zeta_table(), self.inv_zeta_table(), 1, q);
    }

    pub fn n(&self) -> (r: usize)
        ensures
            r == self.dim(),
    {
        self.n
    }

    pub fn modulus(&self) -> (r: u64)
        ensures
            r == self.q(),
    {
        self.arith.modulus()
    }

    pub fn arith(&self) -> (r: &ModArith)
        ensures
            r.q() == self.q(),
    {
        &self.arith
    }

    /// The low `log_n` bits of `x` in reverse order.
    pub(crate) fn bit_rev(x: usize, log_n: u32) -> (r: usize)
        requires
            log_n <= 63,
            pow2(log_n as nat) <= usize::MAX,
        ensures
            r == bit_reverse(x as nat, log_n as nat),
            r < pow2(log_n as nat),
    {
        let mut acc: usize = 0;
        let mut y = x;
        let mut i: u32 = 0;
        proof { lemma_pow2(0); lemma_pow0(2); }
        while i < log_n
            invariant
                i <= log_n <= 63,
                pow2(log_n as nat) <= usize::MAX,
                acc < pow2(i as nat),
                rev_acc(y as nat, acc as nat, (log_n - i) as nat) == bit_reverse(x as nat, log_n as nat),
            decreases log_n - i,
        {
            proof {
                lemma_pow2_unfold((i + 1) as nat);
                if i + 1 < log_n {
                    lemma_pow2_strictly_increases((i + 1) as nat, log_n as nat);
                }
                assert(y & 1 == y % 2) by (bit_vector);
                assert(y >> 1 == y / 2) by (bit_vector);
            }
            acc = 2 * acc + (y & 1);
            y = y >> 1;
            i = i + 1;
        }
        acc
    }

    /// One forward layer of half-width `len`, whose first block uses `zetas[kb]`.
    fn ct_layer_exec(&self, a: &mut [u64], len: usize, kb: usize)
        requires
            self.wf(),
            old(a)@.len() == self.dim(),
            all_below(old(a)@, self.q() as int),
            len >= 1,
            kb >= 1,
            kb * (2 * len) == self.dim(),
        ensures
            final(a)@ == ct_layer(old(a)@, self.zeta_table(), len as nat, self.q() as int),
            all_below(final(a)@, self.q() as int),
    {
        let ghost a0 = a@;
        let ghost q = self.q() as int;
        let ghost w = 2 * len as int;
        let ghost target = ct_layer(a0, self.zeta_table(), len as nat, q);
        let n = self.n;
        proof {
            lemma_div_by_multiple(kb as int, w);
            assert(n as int / w == kb);
        }
        let mut start: usize = 0;
        let mut blk: usize = 0;
        while start < n
            invariant
                self.wf(),
                n == self.dim(),
                q == self.q() as int,
                w == 2 * len,
                len >= 1,
                kb * w == n,
                n as int / w == kb,
                start == w * blk,
                blk <= kb,
                a@.len() == n,
                a0.len() == n,
                all_below(a0, q),
                target == ct_layer(a0, self.zeta_table(), len as nat, q),
                forall|i: int| 0 <= i < start ==> a@[i] == target[i] && #[trigger] a@[i] < q,
                forall|i: int| start <= i < n ==> a@[i] == a0[i],
            decreases n - start,
        {
            proof {
                if blk >= kb {
                    lemma_mul_inequality(kb as int, blk as int, w);
                    lemma_mul_is_commutative(w, blk as int);
                }
                assert(blk < kb);
                lemma_mul_inequality(2, w, kb as int);
                lemma_mul_is_commutative(w, kb as int);
                assert(kb + blk < n);
                lemma_mul_inequality((blk + 1) as int, kb as int, w);
                lemma_mul_is_distributive_add(w, blk as int, 1);
                lemma_mul_is_commutative(w, (blk + 1) as int);
                lemma_mul_is_commutative(w, kb as int);
            }
            let zeta = self.zetas[kb + blk];
            proof { assert(zeta < q) by { assert(self.zetas@[(kb + blk) as int] < q); } }
            let mut j = start;
            while j < start + len
                invariant
                    self.wf(),
                    n == self.dim(),
                    q == self.q() as int,
                    w == 2 * len,
                    len >= 1,
                    n as int / w == kb,
                    start == w * blk,
                    blk < kb,
                    start + w <= n,
                    start <= j <= start + len,
                    zeta == self.zeta_table()[(kb + blk) as int],
                    zeta < q,
                    a@.len() == n,
                    a0.len() == n,
                    all_below(a0, q),
                    target == ct_layer(a0, self.zeta_table(), len as nat, q),
                    forall|i: int| 0 <= i < start ==> a@[i] == target[i] && #[trigger] a@[i] < q,
                    forall|i: int| start <= i < j ==> a@[i] == target[i] && #[trigger] a@[i] < q,
                    forall|i: int| start + len <= i < j + len ==> a@[i] == target[i] && #[trigger] a@[i] < q,
                    forall|i: int| j <= i < start + len ==> a@[i] == a0[i],
                    forall|i: int| j + len <= i < n ==> a@[i] == a0[i],
                decreases start + len - j,
            {
                let hi = a[j + len];
                let lo = a[j];
                proof {
                    assert(hi == a0[j + len] && lo == a0[j as int]);
                    assert(hi < q && lo < q);
                }
                let t = self.arith.mul(zeta, hi);
                let new_hi = self.arith.sub(lo, t);
                let new_lo = self.arith.add(lo, t);
                a[j + len] = new_hi;
                a[j] = new_lo;
                proof {
                    lemma_block_index(j as int, w, blk as int, j - start);
                    lemma_block_index(j + len, w, blk as int, j + len - start);
                    assert(a@[j as int] == target[j as int]);
                    assert(a@[j + len] == target[j + len]);
                }
                j = j + 1;
            }
            start = start + 2 * len;
            blk = blk + 1;
            proof {
                lemma_mul_is_distributive_add(w, (blk - 1) as int, 1);
            }
        }
        proof {
            assert(a@ =~= target);
        }
    }

    /// One inverse layer of half-width `len`, whose first block uses `inv_zetas[kb]`.
    fn gs_layer_exec(&self, a: &mut [u64], len: usize, kb: usize)
        requires
            self.wf(),
            old(a)@.len() == self.dim(),
            all_below(old(a)@, self.q() as int),
            len >= 1,
            kb >= 1,
            kb * (2 * len) == self.dim(),
        ensures
            final(a)@ == gs_layer(old(a)@, self.inv_zeta_table(), len as nat, self.q() as int),
            all_below(final(a)@, self.q() as int),
    {
        let ghost a0 = a@;
        let ghost q = self.q() as int;
        let ghost w = 2 * len as int;
        let ghost target = gs_layer(a0, self.inv_zeta_table(), len as nat, q);
        let n = self.n;
        proof {
            lemma_div_by_multiple(kb as int, w);
            assert(n as int / w == kb);
        }
        let mut start: usize = 0;
        let mut block: usize = 0;
        while start < n
            invariant
                self.wf(),
                n == self.dim(),
                q == self.q() as int,
                w == 2 * len,
                len >= 1,
                kb * w == n,
                n as int / w == kb,
                start == w * block,
                block <= kb,
                a@.len() == n,
                a0.len() == n,
                all_below(a0, q),
                target == gs_layer(a0, self.inv_zeta_table(), len as nat, q),
                forall|i: int| 0 <= i < start ==> a@[i] == target[i] && #[trigger] a@[i] < q,
                forall|i: int| start <= i < n ==> a@[i] == a0[i],
            decreases n - start,
        {
            proof {
                if block >= kb {
                    lemma_mul_inequality(kb as int, block as int, w);
                    lemma_mul_is_commutative(w, block as int);
                }
                assert(block < kb);
                lemma_mul_inequality(2, w, kb as int);
                lemma_mul_is_commutative(w, kb as int);
                assert(kb + block < n);
                lemma_mul_inequality((block + 1) as int, kb as int, w);
                lemma_mul_is_distributive_add(w, block as int, 1);
                lemma_mul_is_commutative(w, (block + 1) as int);
            }
            let zeta_inv = self.inv_zetas[kb + block];
            proof { assert(zeta_inv < q) by { assert(self.inv_zetas@[(kb + block) as int] < q); } }
            let mut j = start;
            while j < start + len
                invariant
                    self.wf(),
                    n == self.dim(),
                    q == self.q() as int,
                    w == 2 * len,
                    len >= 1,
                    n as int / w == kb,
                    start == w * block,
                    block < kb,
                    start + w <= n,
                    start <= j <= start + len,
                    zeta_inv == self.inv_zeta_table()[(kb + block) as int],
                    zeta_inv < q,
                    a@.len() == n,
                    a0.len() == n,
                    all_below(a0, q),
                    target == gs_layer(a0, self.inv_zeta_table(), len as nat, q),
                    forall|i: int| 0 <= i < start ==> a@[i] == target[i] && #[trigger] a@[i] < q,
                    forall|i: int| start <= i < j ==> a@[i] == target[i] && #[trigger] a@[i] < q,
                    forall|i: int| start + len <= i < j + len ==> a@[i] == target[i] && #[trigger] a@[i] < q,
                    forall|i: int| j <= i < start + len ==> a@[i] == a0[i],
                    forall|i: int| j + len <= i < n ==> a@[i] == a0[i],
                decreases start + len - j,
            {
                let t = a[j];
                let u = a[j + len];
                proof {
                    assert(u == a0[j + len] && t == a0[j as int]);
                    assert(u < q && t < q);
                }
                a[j] = self.arith.add(t, u);
                let d = self.arith.sub(t, u);
                a[j + len] = self.arith.mul(zeta_inv, d);
                proof {
                    lemma_block_index(j as int, w, block as int, j - start);
                    lemma_block_index(j + len, w, block as int, j + len - start);
                    assert(a@[j as int] == target[j as int]);
                    assert(a@[j + len] == target[j + len]);
                }
                j = j + 1;
            }
            start = start + 2 * len;
            block = block + 1;
            proof {
                lemma_mul_is_distributive_add(w, (block - 1) as int, 1);
            }
        }
        proof {
            assert(a@ =~= target);
        }
    }

    /// Forward negacyclic NTT in place (Cooley-Tukey, bit-reversed output order).
    pub fn forward_ntt_ct(&self, a: &mut [u64])
        requires
            self.wf(),
            old(a)@.len() == self.dim(),
            all_below(old(a)@, self.q() as int),
        ensures
            final(a)@ == forward_ntt_spec(old(a)@, self.zeta_table(), self.q() as int),
            all_below(final(a)@, self.q() as int),
    {
        let ghost a0 = a@;
        let ghost q = self.q() as int;
        let n = self.n;
        let mut k: usize = 1;
        let mut len = n / 2;
        proof {
            reveal(is_pow2);
            assert(n % 2 == 0);
            assert(is_pow2(len as int));
        }
        while len >= 1
            invariant
                self.wf(),
                n == self.dim(),
                q == self.q() as int,
                a@.len() == n,
                a0.len() == n,
                all_below(a@, q),
                ct_layers_from(a@, self.zeta_table(), len as nat, q) == forward_ntt_spec(a0, self.zeta_table(), q),
                len >= 1 ==> k * (2 * len) == n && k >= 1 && is_pow2(len as int),
            decreases len,
        {
            self.ct_layer_exec(a, len, k);
            proof {
                reveal(is_pow2);
                if len >= 2 {
                    assert(len % 2 == 0);
                    assert(is_pow2((len / 2) as int));
                    assert((2 * k) * (2 * (len / 2)) == k * (2 * len)) by (nonlinear_arith)
                        requires len % 2 == 0;
                    assert(2 * k <= k * (2 * len)) by (nonlinear_arith)
                        requires len >= 2, k >= 1;
                }
            }
            if len >= 2 {
                k = 2 * k;
            }
            len = len / 2;
        }
    }

    /// Inverse negacyclic NTT in place (Gentleman-Sande), including the final scaling by `n⁻¹`.
    pub fn inverse_ntt_gs(&self, a: &mut [u64])
        requires
            self.wf(),
            old(a)@.len() == self.dim(),
            all_below(old(a)@, self.q() as int),
        ensures
            final(a)@ == inverse_ntt_spec(old(a)@, self.inv_zeta_table(), self.n_inv_value() as int, self.q() as int),
            all_below(final(a)@, self.q() as int),
    {
        let ghost a0 = a@;
        let ghost q = self.q() as int;
        let n = self.n;
        let mut len: usize = 1;
        let ghost mut m: int = n as int;
        proof {
            reveal(is_pow2);
        }
        while len < n
            invariant
                self.wf(),
                n == self.dim(),
                q == self.q() as int,
                a@.len() == n,
                a0.len() == n,
                all_below(a@, q),
                a@ == gs_layers_upto(a0, self.inv_zeta_table(), (len / 2) as nat, q),
                len >= 1,
                len * m == n,
                m >= 1,
                is_pow2(m),
                len == 1 || len % 2 == 0,
            decreases n - len,
        {
            proof {
                reveal(is_pow2);
                if m < 2 {
                    assert(m == 1);
                    assert(len * 1 == len);
                }
                assert(m % 2 == 0);
                assert((m / 2) * (2 * len) == len * m) by (nonlinear_arith)
                    requires m % 2 == 0;
                lemma_div_by_multiple((m / 2) as int, (2 * len) as int);
                assert(m / 2 >= 1);
                lemma_mul_inequality(1, m / 2, 2 * len as int);
            }
            let k_base = n / (2 * len);
            self.gs_layer_exec(a, len, k_base);
            proof {
                assert(gs_layers_upto(a0, self.inv_zeta_table(), len as nat, q)
                    == gs_layer(gs_layers_upto(a0, self.inv_zeta_table(), (len / 2) as nat, q), self.inv_zeta_table(), len as nat, q));
                m = m / 2;
                assert((2 * len) * m == n) by (nonlinear_arith)
                    requires (m) * (2 * len) == n;
            }
            len = 2 * len;
        }
        proof {
            assert(len == n) by {
                lemma_mul_inequality(1, m, len as int);
                lemma_mul_is_commutative(len as int, m);
            }
        }
        let ghost mid = a@;
        self.arith.mul_vec_const(a, self.n_inv);
        proof {
            assert(a@ =~= scale_seq(mid, self.n_inv as int, q));
        }
    }
}

} // verus!
