use vstd::arithmetic::div_mod::*;
use vstd::arithmetic::mul::*;
use vstd::arithmetic::power::*;
use vstd::arithmetic::power2::*;
use vstd::prelude::*;

use crate::ring::{bit_reverse, rev_acc};

verus! {

/// `Σ_{t < k} a[j + t·s] · r^t`: the coefficient of `X^j` in `a` reduced modulo `X^s - r`,
/// summed over the first `k` strides.
pub open spec fn fold(a: Seq<u64>, s: int, r: int, j: int, k: nat) -> int
    decreases k,
{
    if k == 0 {
        0
    } else {
        fold(a, s, r, j, (k - 1) as nat) + a[j + (k - 1) * s] * pow(r, (k - 1) as nat)
    }
}

/// `a(r) = Σ_t a[t] · r^t`, as an integer.
pub open spec fn eval(a: Seq<u64>, r: int) -> int {
    fold(a, 1, r, 0, a.len())
}

/// `z^(2u) = (z²)^u` and `z^(2u+1) = z · (z²)^u`.
proof fn lemma_pow_even_odd(z: int, u: nat)
    ensures
        pow(z, 2 * u) == pow(z * z, u),
        pow(z, 2 * u + 1) == z * pow(z * z, u),
{
    lemma_pow_multiplies(z, 2, u);
    assert(pow(z, 2) == z * z) by {
        lemma_pow_adds(z, 1, 1);
        lemma_pow1(z);
    }
    lemma_pow_adds(z, 2 * u, 1);
    lemma_pow1(z);
    lemma_mul_is_commutative(z, pow(z * z, u));
}

/// Splitting a stride-`len` fold by the parity of the stride index: the even strides form a
/// stride-`2len` fold at `z²`, the odd ones `z` times the one starting at `j + len`.
pub proof fn lemma_fold_split(a: Seq<u64>, len: int, z: int, j: int, k: nat)
    requires
        len > 0,
    ensures
        fold(a, len, z, j, 2 * k) == fold(a, 2 * len, z * z, j, k) + z * fold(a, 2 * len, z * z, j + len, k),
    decreases k,
{
    if k > 0 {
        let k1 = (k - 1) as nat;
        lemma_fold_split(a, len, z, j, k1);
        let zz = z * z;
        let e = 2 * k1;
        assert(fold(a, len, z, j, 2 * k) == fold(a, len, z, j, (e + 1) as nat) + a[j + (e + 1) * len] * pow(
            z,
            (e + 1) as nat,
        ));
        assert(fold(a, len, z, j, (e + 1) as nat) == fold(a, len, z, j, e) + a[j + e * len] * pow(z, e));
        lemma_pow_even_odd(z, k1);
        assert(j + e * len == j + k1 * (2 * len)) by (nonlinear_arith)
            requires
                e == 2 * k1,
        ;
        assert(j + (e + 1) * len == (j + len) + k1 * (2 * len)) by (nonlinear_arith)
            requires
                e == 2 * k1,
        ;
        let x = a[j + k1 * (2 * len)] as int;
        let y = a[(j + len) + k1 * (2 * len)] as int;
        let p = pow(zz, k1);
        let f0 = fold(a, 2 * len, zz, j, k1);
        let f1 = fold(a, 2 * len, zz, j + len, k1);
        assert(y * (z * p) == z * (y * p)) by (nonlinear_arith);
        assert(z * (f1 + y * p) == z * f1 + z * (y * p)) by (nonlinear_arith);
    }
}

/// Folds at congruent points are congruent.
pub proof fn lemma_fold_congruent(a: Seq<u64>, s: int, r1: int, r2: int, j: int, k: nat, q: int)
    requires
        q > 0,
        r1 % q == r2 % q,
    ensures
        fold(a, s, r1, j, k) % q == fold(a, s, r2, j, k) % q,
    decreases k,
{
    if k > 0 {
        let k1 = (k - 1) as nat;
        lemma_fold_congruent(a, s, r1, r2, j, k1, q);
        let c = a[j + k1 * s] as int;
        lemma_pow_mod_noop(r1, k1, q);
        lemma_pow_mod_noop(r2, k1, q);
        let p1 = pow(r1, k1);
        let p2 = pow(r2, k1);
        lemma_mul_mod_noop_right(c, p1, q);
        lemma_mul_mod_noop_right(c, p2, q);
        lemma_add_mod_noop(fold(a, s, r1, j, k1), c * p1, q);
        lemma_add_mod_noop(fold(a, s, r2, j, k1), c * p2, q);
    }
}

/// `rev_acc` pushes the accumulator above the reversed bits.
pub proof fn lemma_rev_acc_shift(x: nat, acc: nat, k: nat)
    ensures
        rev_acc(x, acc, k) == acc * pow2(k) + rev_acc(x, 0, k),
    decreases k,
{
    if k > 0 {
        let k1 = (k - 1) as nat;
        let b = x % 2;
        lemma_rev_acc_shift(x / 2, 2 * acc + b, k1);
        lemma_rev_acc_shift(x / 2, b, k1);
        assert(rev_acc(x, acc, k) == rev_acc(x / 2, 2 * acc + b, k1));
        assert(rev_acc(x, 0, k) == rev_acc(x / 2, b, k1));
        lemma_pow2_unfold(k);
        let p = pow2(k1);
        assert((2 * acc + b) * p == acc * (2 * p) + b * p) by (nonlinear_arith);
    } else {
        lemma_pow2(0);
        lemma_pow0(2);
    }
}

/// Reversing `k + 1` bits of `2b + β` puts `β` on top of the `k` reversed bits of `b`.
pub proof fn lemma_bit_reverse_low_bit(b: nat, beta: nat, k: nat)
    requires
        beta < 2,
    ensures
        bit_reverse(2 * b + beta, k + 1) == beta * pow2(k) + bit_reverse(b, k),
{
    assert((2 * b + beta) / 2 == b && (2 * b + beta) % 2 == beta) by (nonlinear_arith)
        requires
            beta < 2,
    ;
    assert(rev_acc(2 * b + beta, 0, k + 1) == rev_acc(b, beta, k));
    lemma_rev_acc_shift(b, beta, k);
}

/// Reversing any number of bits of zero gives zero.
proof fn lemma_bit_reverse_zero(k: nat)
    ensures
        bit_reverse(0, k) == 0,
    decreases k,
{
    if k > 0 {
        lemma_bit_reverse_zero((k - 1) as nat);
    }
}

/// The twiddle index of block `b` in a layer with `2^j` blocks: reversing `j + 1 + e` bits of
/// `2^j + x` gives `2^e · (2·rev_j(x) + 1)`.
pub proof fn lemma_bit_reverse_block(x: nat, j: nat, e: nat)
    requires
        x < pow2(j),
    ensures
        bit_reverse(pow2(j) + x, j + 1 + e) == pow2(e) * (2 * bit_reverse(x, j) + 1),
    decreases j,
{
    if j == 0 {
        lemma_pow2(0);
        lemma_pow0(2);
        assert(x == 0);
        assert(pow2(j) + x == 1);
        assert(rev_acc(1, 0, 1 + e) == rev_acc(0, 1, e));
        lemma_rev_acc_shift(0, 1, e);
        lemma_bit_reverse_zero(e);
        lemma_bit_reverse_zero(0);
        assert(bit_reverse(x, j) == 0);
        assert(bit_reverse(1, 1 + e) == pow2(e));
    } else {
        let j1 = (j - 1) as nat;
        let x1 = x / 2;
        let beta = x % 2;
        lemma_pow2_unfold(j);
        assert(x == 2 * x1 + beta);
        assert(x1 < pow2(j1));
        let h = (pow2(j1) + x1) as nat;
        assert(pow2(j) + x == 2 * h + beta);
        lemma_bit_reverse_low_bit(h, beta, j + e);
        assert(bit_reverse(pow2(j) + x, j + e + 1) == beta * pow2(j + e) + bit_reverse(h, j + e));
        lemma_bit_reverse_block(x1, j1, e);
        assert(j1 + 1 + e == j + e);
        assert(bit_reverse(h, j + e) == pow2(e) * (2 * bit_reverse(x1, j1) + 1));
        lemma_bit_reverse_low_bit(x1, beta, j1);
        assert(bit_reverse(x, j) == beta * pow2(j1) + bit_reverse(x1, j1)) by {
            assert(j1 + 1 == j);
        }
        lemma_pow2_adds(j, e);
        let r = bit_reverse(x1, j1);
        assert(beta * pow2(j + e) == pow2(e) * (2 * (beta * pow2(j1)))) by (nonlinear_arith)
            requires
                pow2(j + e) == pow2(j) * pow2(e),
                pow2(j) == 2 * pow2(j1),
        ;
        assert(pow2(e) * (2 * (beta * pow2(j1) + r) + 1) == pow2(e) * (2 * (beta * pow2(j1))) + pow2(e) * (2 * r
            + 1)) by (nonlinear_arith);
    }
}

/// The point that block `c` of size `s` is reduced at, when there are `2^kb` blocks:
/// `ψ^((2·rev_kb(c) + 1)·s)`.
pub open spec fn block_root(psi: int, s: nat, kb: nat, c: nat) -> int {
    pow(psi, ((2 * bit_reverse(c, kb) + 1) * s) as nat)
}

/// After the transform layers down to `2^kb` blocks of size `s`, position `i` holds the
/// coefficient `i mod s` of `a` reduced modulo `X^s - block_root(i / s)`, modulo `q`.
pub open spec fn layer_state(arr: Seq<u64>, a: Seq<u64>, psi: int, s: nat, kb: nat, q: int) -> bool {
    &&& arr.len() == a.len()
    &&& forall|i: int|
        0 <= i < arr.len() ==> #[trigger] arr[i] == fold(
            a,
            s as int,
            block_root(psi, s, kb, (i / s as int) as nat),
            i % s as int,
            pow2(kb),
        ) % q
}

/// `i = w·b + off` with `0 <= off < w` lies in block `b` at offset `off`.
proof fn lemma_index_split(i: int, w: int, b: int, off: int)
    requires
        w > 0,
        0 <= off < w,
        i == w * b + off,
    ensures
        i / w == b,
        i % w == off,
{
    lemma_mul_is_commutative(w, b);
    lemma_fundamental_div_mod_converse(i, w, b, off);
}

/// `((x mod q) + ((z mod q)·(y mod q)) mod q) mod q == (x + z·y) mod q`, and the same with `-`.
proof fn lemma_butterfly_mod(x: int, y: int, z: int, q: int)
    requires
        q > 0,
    ensures
        ((x % q) + ((z % q) * (y % q)) % q) % q == (x + z * y) % q,
        ((x % q) - ((z % q) * (y % q)) % q) % q == (x - z * y) % q,
{
    lemma_mul_mod_noop(z, y, q);
    lemma_add_mod_noop(x, z * y, q);
    lemma_sub_mod_noop(x, z * y, q);
    lemma_mod_twice(x, q);
    lemma_mod_twice(z * y, q);
}

/// One Cooley-Tukey layer of half-width `len = 2^e` splits every block of size `2len` in two:
/// the block reduced at `Z²` becomes the blocks reduced at `Z` and at `-Z ≡ Z·ψ^n`.
pub proof fn lemma_layer_step(
    arr: Seq<u64>,
    a: Seq<u64>,
    zetas: Seq<u64>,
    psi: int,
    len: nat,
    e: nat,
    kb: nat,
    l: nat,
    q: int,
)
    requires
        1 < q <= 0x1_0000_0000_0000_0000,
        a.len() == pow2(l),
        l == kb + e + 1,
        len == pow2(e),
        zetas.len() == a.len(),
        forall|k: int| 0 <= k < a.len() ==> #[trigger] zetas[k] == pow(psi, bit_reverse(k as nat, l)) % q,
        pow(psi, a.len()) % q == q - 1,
        layer_state(arr, a, psi, 2 * len, kb, q),
    ensures
        layer_state(crate::ring::ct_layer(arr, zetas, len, q), a, psi, len, kb + 1, q),
{
    let n = a.len() as int;
    let w = (2 * len) as int;
    let m = pow2(kb) as int;
    let new = crate::ring::ct_layer(arr, zetas, len, q);
    lemma_pow2_adds(kb, e + 1);
    lemma_pow2_unfold(e + 1);
    lemma_pow2_unfold(kb + 1);
    assert(kb + (e + 1) == l);
    assert(n == m * w);
    lemma_pow2_pos(e);
    lemma_pow2_pos(kb);
    assert(n / w == m) by {
        lemma_index_split(n, w, m, 0);
    }
    assert forall|i: int| 0 <= i < new.len() implies #[trigger] new[i] == fold(
        a,
        len as int,
        block_root(psi, len, kb + 1, (i / len as int) as nat),
        i % len as int,
        pow2(kb + 1),
    ) % q by {
        let b = i / w;
        let off = i % w;
        lemma_fundamental_div_mod(i, w);
        lemma_mod_bound(i, w);
        assert(i == w * b + off);
        assert(0 <= b < m) by (nonlinear_arith)
            requires
                i == w * b + off,
                0 <= off < w,
                0 <= i < n,
                n == m * w,
                w > 0,
        ;
        assert(m + b < n) by (nonlinear_arith)
            requires
                0 <= b < m,
                n == m * w,
                w >= 2,
        ;
        assert(arr[i] == fold(a, w, block_root(psi, 2 * len, kb, b as nat), off, pow2(kb)) % q);
        let bn = b as nat;
        let br = bit_reverse(bn, kb);
        let x = ((2 * br + 1) * len) as nat;
        let zz = pow(psi, x);
        let rr = block_root(psi, 2 * len, kb, bn);
        assert(rr == zz * zz) by {
            assert((2 * br + 1) * (2 * len) == x + x) by (nonlinear_arith)
                requires
                    x == (2 * br + 1) * len,
            ;
            lemma_pow_adds(psi, x, x);
        }
        // the twiddle of block `b`
        assert(n / w + i / w == m + b);
        lemma_bit_reverse_block(bn, kb, e);
        assert(zetas[m + b] == zz % q) by {
            assert(bit_reverse((m + b) as nat, l) == pow2(e) * (2 * br + 1));
            assert(pow2(e) * (2 * br + 1) == x) by (nonlinear_arith)
                requires
                    x == (2 * br + 1) * len,
                    len == pow2(e),
            ;
        }
        let z = zetas[m + b] as int;
        assert(pow2(kb + 1) == 2 * m);
        if off < len {
            let j = off;
            assert(i == (len as int) * (2 * b) + j) by (nonlinear_arith)
                requires
                    i == w * b + off,
                    w == 2 * len,
                    j == off,
            ;
            lemma_index_split(i, len as int, 2 * b, j);
            lemma_index_split(i + len, w, b, off + len);
            assert(i + len < n) by (nonlinear_arith)
                requires
                    i == w * b + off,
                    off < len,
                    w == 2 * len,
                    0 <= b < m,
                    n == m * w,
            ;
            let f0 = fold(a, w, rr, j, m as nat);
            let f1 = fold(a, w, rr, j + len, m as nat);
            assert(arr[i] == f0 % q);
            assert(arr[i + len] == f1 % q);
            assert(new[i] == ((arr[i] + (z * arr[i + len]) % q) % q) as u64);
            lemma_butterfly_mod(f0, f1, zz, q);
            lemma_fold_split(a, len as int, zz, j, m as nat);
            lemma_bit_reverse_low_bit(bn, 0, kb);
            assert(block_root(psi, len, kb + 1, (2 * b) as nat) == zz);
        } else {
            let j = off - len;
            assert(i == (len as int) * (2 * b + 1) + j) by (nonlinear_arith)
                requires
                    i == w * b + off,
                    w == 2 * len,
                    j == off - len,
            ;
            lemma_index_split(i, len as int, 2 * b + 1, j);
            lemma_index_split(i - len, w, b, j);
            let f0 = fold(a, w, rr, j, m as nat);
            let f1 = fold(a, w, rr, j + len, m as nat);
            assert(arr[i - len] == f0 % q);
            assert(arr[i] == f1 % q);
            assert(new[i] == ((arr[i - len] - (z * arr[i]) % q) % q) as u64);
            lemma_butterfly_mod(f0, f1, zz, q);
            lemma_mul_unary_negation(zz, zz);
            lemma_mul_unary_negation(zz, -zz);
            assert((-zz) * (-zz) == zz * zz);
            lemma_fold_split(a, len as int, -zz, j, m as nat);
            lemma_mul_unary_negation(zz, f1);
            // the second half is reduced at Z·ψ^n ≡ -Z
            lemma_bit_reverse_low_bit(bn, 1, kb);
            let rt = block_root(psi, len, kb + 1, (2 * b + 1) as nat);
            let pn = pow(psi, n as nat);
            assert(rt == zz * pn) by {
                assert((2 * (m + br) + 1) * len == x + n) by (nonlinear_arith)
                    requires
                        x == (2 * br + 1) * len,
                        n == m * w,
                        w == 2 * len,
                ;
                lemma_pow_adds(psi, x, n as nat);
            }
            assert(rt % q == (-zz) % q) by {
                lemma_mul_mod_noop_right(zz, pn, q);
                assert(zz * (q - 1) == q * zz + (-zz)) by (nonlinear_arith);
                lemma_mod_multiples_vanish(zz, -zz, q);
            }
            lemma_fold_congruent(a, len as int, rt, -zz, j, (2 * m) as nat, q);
        }
    }
}

/// The layers from half-width `len = 2^e` down to `1` take the blocks of size `2len` to
/// blocks of size `1`.
proof fn lemma_layers(arr: Seq<u64>, a: Seq<u64>, zetas: Seq<u64>, psi: int, len: nat, e: nat, kb: nat, l: nat, q: int)
    requires
        1 < q <= 0x1_0000_0000_0000_0000,
        a.len() == pow2(l),
        l == kb + e + 1,
        len == pow2(e),
        zetas.len() == a.len(),
        forall|k: int| 0 <= k < a.len() ==> #[trigger] zetas[k] == pow(psi, bit_reverse(k as nat, l)) % q,
        pow(psi, a.len()) % q == q - 1,
        layer_state(arr, a, psi, 2 * len, kb, q),
    ensures
        layer_state(crate::ring::ct_layers_from(arr, zetas, len, q), a, psi, 1, l, q),
    decreases e,
{
    let next = crate::ring::ct_layer(arr, zetas, len, q);
    lemma_layer_step(arr, a, zetas, psi, len, e, kb, l, q);
    lemma_pow2_pos(e);
    if e == 0 {
        lemma_pow2(0);
        lemma_pow0(2);
        assert(len == 1);
        assert(crate::ring::ct_layers_from(arr, zetas, len, q) == crate::ring::ct_layers_from(next, zetas, 0, q));
    } else {
        lemma_pow2_unfold(e);
        let e1 = (e - 1) as nat;
        assert(len / 2 == pow2(e1));
        lemma_layers(next, a, zetas, psi, len / 2, e1, kb + 1, l, q);
    }
}

/// The forward transform evaluates: position `i` holds `a(ψ^(2·rev_l(i) + 1)) mod q`.
pub proof fn lemma_forward_ntt_evaluates(a: Seq<u64>, zetas: Seq<u64>, psi: int, l: nat, q: int)
    requires
        1 < q <= 0x1_0000_0000_0000_0000,
        l >= 1,
        a.len() == pow2(l),
        zetas.len() == a.len(),
        forall|k: int| 0 <= k < a.len() ==> #[trigger] zetas[k] == pow(psi, bit_reverse(k as nat, l)) % q,
        pow(psi, a.len()) % q == q - 1,
        forall|i: int| 0 <= i < a.len() ==> #[trigger] a[i] < q,
    ensures
        crate::ring::forward_ntt_spec(a, zetas, q).len() == a.len(),
        forall|i: int|
            0 <= i < a.len() ==> #[trigger] crate::ring::forward_ntt_spec(a, zetas, q)[i] == eval(
                a,
                pow(psi, (2 * bit_reverse(i as nat, l) + 1) as nat),
            ) % q,
{
    let n = a.len() as int;
    lemma_pow2_unfold(l);
    let e = (l - 1) as nat;
    assert(n / 2 == pow2(e));
    assert(2 * (n / 2) == n);
    lemma_pow2(0);
    lemma_pow0(2);
    lemma_bit_reverse_zero(0);
    assert(layer_state(a, a, psi, n as nat, 0, q)) by {
        assert forall|i: int| 0 <= i < a.len() implies #[trigger] a[i] == fold(
            a,
            n,
            block_root(psi, n as nat, 0, (i / n) as nat),
            i % n,
            pow2(0),
        ) % q by {
            lemma_index_split(i, n, 0, i);
            let r = block_root(psi, n as nat, 0, 0);
            lemma_pow0(r);
            assert(fold(a, n, r, i, 1) == fold(a, n, r, i, 0) + a[i + 0 * n] * pow(r, 0));
            lemma_small_mod(a[i] as nat, q as nat);
        }
    }
    lemma_layers(a, a, zetas, psi, (n / 2) as nat, e, 0, l, q);
    let out = crate::ring::ct_layers_from(a, zetas, (n / 2) as nat, q);
    assert forall|i: int| 0 <= i < a.len() implies #[trigger] crate::ring::forward_ntt_spec(a, zetas, q)[i] == eval(
        a,
        pow(psi, (2 * bit_reverse(i as nat, l) + 1) as nat),
    ) % q by {
        lemma_index_split(i, 1, i, 0);
        assert(out[i] == fold(a, 1, block_root(psi, 1, l, i as nat), 0, pow2(l)) % q);
    }
}

} // verus!
