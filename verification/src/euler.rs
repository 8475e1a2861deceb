use vstd::arithmetic::div_mod::*;
use vstd::arithmetic::mul::*;
use vstd::arithmetic::power::*;
use vstd::prelude::*;

use crate::arith::{accepted_root, root_candidate};
use crate::fermat::{binom, binom_sum, lemma_binom_absorb, lemma_binomial, lemma_fermat, lemma_sqrt_one_mod_prime};
use crate::primes::spec_prime;

verus! {

/// `Σ_{k < m} C(n, k) · (-1)^k · k^d`: an alternating sum of binomial coefficients.
pub open spec fn alt_sum(n: nat, d: nat, m: nat) -> int
    decreases m,
{
    if m == 0 {
        0
    } else {
        alt_sum(n, d, (m - 1) as nat) + binom(n, (m - 1) as nat) * pow(-1, (m - 1) as nat) * pow(
            (m - 1) as int,
            d,
        )
    }
}

/// `Σ_{j < m} C(n, j) · (-1)^j · (j + 1)^d`: the same sum shifted by one.
pub open spec fn shifted_alt_sum(n: nat, d: nat, m: nat) -> int
    decreases m,
{
    if m == 0 {
        0
    } else {
        shifted_alt_sum(n, d, (m - 1) as nat) + binom(n, (m - 1) as nat) * pow(-1, (m - 1) as nat) * pow(
            m as int,
            d,
        )
    }
}

/// `Σ_{t < u} C(e, t) · alt_sum(n, t, m)`.
spec fn mixed_sum(n: nat, e: nat, m: nat, u: nat) -> int
    decreases u,
{
    if u == 0 {
        0
    } else {
        mixed_sum(n, e, m, (u - 1) as nat) + binom(e, (u - 1) as nat) * alt_sum(n, (u - 1) as nat, m)
    }
}

/// `Σ_{j < m} C(n, j) · (-1)^j · Σ_{t < u} C(e, t) · j^t`.
spec fn nested_sum(n: nat, e: nat, m: nat, u: nat) -> int
    decreases m,
{
    if m == 0 {
        0
    } else {
        nested_sum(n, e, (m - 1) as nat, u) + binom(n, (m - 1) as nat) * pow(-1, (m - 1) as nat) * binom_sum(
            (m - 1) as int,
            e,
            u,
        )
    }
}

/// With no power (`d = 0`) the alternating sum is the binomial expansion of `(-1 + 1)^n`.
proof fn lemma_alt_sum_zero_power(n: nat, m: nat)
    ensures
        alt_sum(n, 0, m) == binom_sum(-1, n, m),
    decreases m,
{
    if m > 0 {
        lemma_alt_sum_zero_power(n, (m - 1) as nat);
        lemma_pow0((m - 1) as int);
    }
}

/// One more row of the nested sum adds one column to each mixed term.
proof fn lemma_mixed_step(n: nat, e: nat, m: nat, u: nat)
    ensures
        mixed_sum(n, e, m + 1, u) == mixed_sum(n, e, m, u) + binom(n, m) * pow(-1, m) * binom_sum(m as int, e, u),
    decreases u,
{
    if u > 0 {
        let u1 = (u - 1) as nat;
        lemma_mixed_step(n, e, m, u1);
        let c = binom(n, m) * pow(-1, m);
        let b = binom(e, u1) as int;
        let x = pow(m as int, u1);
        assert(alt_sum(n, u1, m + 1) == alt_sum(n, u1, m) + c * x);
        assert(b * (alt_sum(n, u1, m) + c * x) == b * alt_sum(n, u1, m) + c * (b * x)) by (nonlinear_arith);
        assert(c * (binom_sum(m as int, e, u1) + b * x) == c * binom_sum(m as int, e, u1) + c * (b * x))
            by (nonlinear_arith);
    }
}

/// Exchanging the two sums.
proof fn lemma_nested_is_mixed(n: nat, e: nat, m: nat, u: nat)
    ensures
        nested_sum(n, e, m, u) == mixed_sum(n, e, m, u),
    decreases m,
{
    if m == 0 {
        lemma_mixed_zero(n, e, u);
    } else {
        lemma_nested_is_mixed(n, e, (m - 1) as nat, u);
        lemma_mixed_step(n, e, (m - 1) as nat, u);
    }
}

/// Mixed sums over no rows vanish.
proof fn lemma_mixed_zero(n: nat, e: nat, u: nat)
    ensures
        mixed_sum(n, e, 0, u) == 0,
    decreases u,
{
    if u > 0 {
        lemma_mixed_zero(n, e, (u - 1) as nat);
    }
}

/// The shifted sum is the nested sum with the binomial expansion of `(j + 1)^d`.
proof fn lemma_shifted_is_nested(n: nat, d: nat, m: nat)
    ensures
        shifted_alt_sum(n, d, m) == nested_sum(n, d, m, d + 1),
    decreases m,
{
    if m > 0 {
        lemma_shifted_is_nested(n, d, (m - 1) as nat);
        lemma_binomial((m - 1) as int, d);
    }
}

/// Absorbing `k` into `C(n, k)`: `alt_sum(n, d + 1, k + 1) == -n · shifted_alt_sum(n - 1, d, k)`.
proof fn lemma_alt_sum_absorb(n: nat, d: nat, k: nat)
    requires
        n >= 1,
    ensures
        alt_sum(n, d + 1, k + 1) == -(n * shifted_alt_sum((n - 1) as nat, d, k)),
    decreases k,
{
    let n1 = (n - 1) as nat;
    if k == 0 {
        lemma0_pow(d + 1);
        assert(alt_sum(n, d + 1, 1) == alt_sum(n, d + 1, 0) + binom(n, 0) * pow(-1, 0) * pow(0, d + 1));
        assert(binom(n, 0) * pow(-1, 0) * pow(0, d + 1) == 0) by (nonlinear_arith)
            requires
                pow(0, d + 1) == 0,
        ;
    } else {
        let k1 = (k - 1) as nat;
        lemma_alt_sum_absorb(n, d, k1);
        // the term of index k
        lemma_binom_absorb(n, k);
        let c = binom(n, k) as int;
        let c1 = binom(n1, k1) as int;
        let s = pow(-1, k);
        let s1 = pow(-1, k1);
        assert(s == -s1) by {
            lemma_pow_adds(-1, 1, k1);
            lemma_pow1(-1);
            assert(1 + k1 == k);
        }
        let pk = pow(k as int, d);
        assert(pow(k as int, d + 1) == k * pk) by {
            lemma_pow_adds(k as int, 1, d);
            lemma_pow1(k as int);
            assert(1 + d == d + 1);
        }
        assert(c * s * (k * pk) == -(n * (c1 * s1 * pk))) by (nonlinear_arith)
            requires
                k * c == n * c1,
                s == -s1,
        ;
        assert(alt_sum(n, d + 1, k + 1) == alt_sum(n, d + 1, k) + c * s * pow(k as int, d + 1));
        assert(shifted_alt_sum(n1, d, k) == shifted_alt_sum(n1, d, k1) + c1 * s1 * pk);
        assert(-(n * shifted_alt_sum(n1, d, k1)) + -(n * (c1 * s1 * pk)) == -(n * (shifted_alt_sum(n1, d, k1) + c1
            * s1 * pk))) by (nonlinear_arith);
    }
}

/// The `(n)`-th finite difference of a power below `n` vanishes:
/// `Σ_{k <= n} C(n, k) · (-1)^k · k^d == 0` for `d < n`.
pub proof fn lemma_finite_difference(n: nat, d: nat)
    requires
        d < n,
    ensures
        alt_sum(n, d, n + 1) == 0,
    decreases d, 1nat,
{
    if d == 0 {
        lemma_alt_sum_zero_power(n, n + 1);
        lemma_binomial(-1, n);
        lemma0_pow(n);
    } else {
        let e = (d - 1) as nat;
        let n1 = (n - 1) as nat;
        lemma_alt_sum_absorb(n, e, n);
        lemma_shifted_is_nested(n1, e, n);
        lemma_nested_is_mixed(n1, e, n, e + 1);
        lemma_mixed_vanishes(n1, e, e + 1);
        assert(n1 + 1 == n);
    }
}

/// Every mixed term vanishes when the powers stay below `n`.
proof fn lemma_mixed_vanishes(n: nat, e: nat, u: nat)
    requires
        u <= e + 1,
        e < n,
    ensures
        mixed_sum(n, e, n + 1, u) == 0,
    decreases u, 0nat,
{
    if u > 0 {
        let u1 = (u - 1) as nat;
        lemma_mixed_vanishes(n, e, u1);
        lemma_finite_difference(n, u1);
    }
}

/// If every `k` in `1..=m+1` had `k^m ≡ 1 (mod q)`, the alternating sum would be congruent to
/// the binomial expansion of `(-1 + 1)^(m+1)` less its constant term.
proof fn lemma_alt_sum_all_ones(m: nat, q: int, len: nat)
    requires
        q > 1,
        m >= 1,
        len <= m + 2,
        forall|k: int| 1 <= k <= m + 1 ==> #[trigger] pow(k, m) % q == 1,
    ensures
        alt_sum(m + 1, m, len) % q == (binom_sum(-1, m + 1, len) - (if len >= 1 { 1int } else { 0int })) % q,
    decreases len,
{
    if len == 0 {
        lemma_small_mod(0, q as nat);
    } else if len == 1 {
        lemma0_pow(m);
        lemma_pow0(-1);
        lemma_pow0(0);
        assert(binom(m + 1, 0) == 1);
        reveal_with_fuel(alt_sum, 2);
        reveal_with_fuel(binom_sum, 2);
        assert(alt_sum(m + 1, m, 1) == binom(m + 1, 0) * pow(-1, 0) * pow(0, m));
        assert(binom_sum(-1, m + 1, 1) == binom(m + 1, 0) * pow(-1, 0));
        lemma_small_mod(0, q as nat);
    } else {
        let k = (len - 1) as nat;
        lemma_alt_sum_all_ones(m, q, k);
        let c = binom(m + 1, k) * pow(-1, k);
        let x = alt_sum(m + 1, m, k);
        let y = binom_sum(-1, m + 1, k) - 1;
        let pk = pow(k as int, m);
        assert(pk % q == 1);
        assert(alt_sum(m + 1, m, len) == x + c * pk);
        assert(binom_sum(-1, m + 1, len) - 1 == y + c);
        lemma_mul_mod_noop_right(c, pk, q);
        lemma_add_mod_noop(x, c * pk, q);
        lemma_add_mod_noop(y, c, q);
        lemma_mod_twice(c, q);
    }
}

/// Modulo an odd prime `q`, some `g` in `2..q` has `g^((q-1)/2) ≢ 1`: the polynomial
/// `X^((q-1)/2) - 1` cannot vanish on all of `1..q`, since its `((q-1)/2 + 1)`-th finite
/// difference would then be `-1` instead of `0`.
pub proof fn lemma_non_residue_exists(q: int) -> (g: int)
    requires
        spec_prime(q),
        q >= 3,
    ensures
        2 <= g < q,
        pow(g, ((q - 1) / 2) as nat) % q != 1,
{
    let m = ((q - 1) / 2) as nat;
    if forall|g: int| 2 <= g < q ==> #[trigger] pow(g, m) % q == 1 {
        assert(m >= 1);
        assert forall|k: int| 1 <= k <= m + 1 implies #[trigger] pow(k, m) % q == 1 by {
            if k == 1 {
                lemma1_pow(m);
                lemma_small_mod(1, q as nat);
            } else {
                assert(pow(k, m) % q == 1);
            }
        }
        lemma_alt_sum_all_ones(m, q, m + 2);
        lemma_finite_difference(m + 1, m);
        lemma_binomial(-1, m + 1);
        lemma0_pow(m + 1);
        lemma_small_mod(0, q as nat);
        assert(false) by {
            // 0 ≡ -1 (mod q)
            assert((-1int) % q == q - 1) by {
                lemma_mod_multiples_vanish(-1, q - 1, q);
                lemma_small_mod((q - 1) as nat, q as nat);
            }
        }
    }
    let g = choose|g: int| !(2 <= g < q ==> #[trigger] pow(g, m) % q == 1);
    g
}

/// For a prime `q` and an even `order` dividing `q - 1`, some generator `g` in `2..q` yields an
/// accepted primitive `order`-th root of unity: any quadratic non-residue does.
pub proof fn lemma_root_exists(q: int, order: int) -> (g: int)
    requires
        spec_prime(q),
        order >= 2,
        order % 2 == 0,
        (q - 1) % order == 0,
    ensures
        2 <= g < q,
        accepted_root(root_candidate(g, q, order), q, order),
{
    // q == 2 would need order | 1
    assert(q >= 3) by {
        if q == 2 {
            lemma_small_mod(1, order as nat);
        }
    }
    let g = lemma_non_residue_exists(q);
    let e = (q - 1) / order;
    let h = order / 2;
    let m = (q - 1) / 2;
    lemma_fundamental_div_mod(q - 1, order);
    assert(q - 1 == order * e);
    assert(order == 2 * h);
    assert(e >= 0) by {
        lemma_div_pos_is_pos(q - 1, order);
    }
    assert(q - 1 == 2 * (e * h)) by (nonlinear_arith)
        requires
            q - 1 == order * e,
            order == 2 * h,
    ;
    assert(m == e * h);
    assert(e * h >= 0) by (nonlinear_arith)
        requires
            e >= 0,
            h >= 1,
    ;
    // x = g^m mod q squares to 1
    let x = pow(g, m as nat) % q;
    lemma_small_mod(g as nat, q as nat);
    lemma_fermat(g, q);
    lemma_pow_adds(g, m as nat, m as nat);
    assert(m as nat + m as nat == (q - 1) as nat);
    lemma_mul_mod_noop(pow(g, m as nat), pow(g, m as nat), q);
    lemma_mod_bound(pow(g, m as nat), q);
    lemma_sqrt_one_mod_prime(x, q);
    assert(x == q - 1);
    // r = g^e mod q, and r^h ≡ g^(e·h) = g^m
    let r = pow(g, e as nat) % q;
    lemma_pow_mod_noop(pow(g, e as nat), h as nat, q);
    lemma_pow_multiplies(g, e as nat, h as nat);
    assert((e as nat) * (h as nat) == m as nat);
    assert(pow(r, h as nat) % q == q - 1);
    if r == 1 {
        lemma1_pow(h as nat);
        lemma_small_mod(1, q as nat);
    }
    g
}

} // verus!
