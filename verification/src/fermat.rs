use vstd::arithmetic::div_mod::*;
use vstd::arithmetic::mul::*;
use vstd::arithmetic::power::*;
use vstd::prelude::*;

use crate::primes::spec_prime;

verus! {

/// The binomial coefficient `C(n, k)`, by Pascal's rule.
pub open spec fn binom(n: nat, k: nat) -> nat
    decreases n,
{
    if k == 0 {
        1
    } else if n == 0 {
        0
    } else {
        binom((n - 1) as nat, (k - 1) as nat) + binom((n - 1) as nat, k)
    }
}

/// `Σ_{k < m} C(n, k) · x^k`.
pub open spec fn binom_sum(x: int, n: nat, m: nat) -> int
    decreases m,
{
    if m == 0 {
        0
    } else {
        binom_sum(x, n, (m - 1) as nat) + binom(n, (m - 1) as nat) * pow(x, (m - 1) as nat)
    }
}

proof fn lemma_binom_above(n: nat, k: nat)
    requires
        k > n,
    ensures
        binom(n, k) == 0,
    decreases n,
{
    if n > 0 {
        lemma_binom_above((n - 1) as nat, (k - 1) as nat);
        lemma_binom_above((n - 1) as nat, k);
    }
}

proof fn lemma_binom_diag(n: nat)
    ensures
        binom(n, n) == 1,
    decreases n,
{
    if n > 0 {
        lemma_binom_diag((n - 1) as nat);
        lemma_binom_above((n - 1) as nat, n);
    }
}

/// Pascal's rule on partial sums: `S_{n+1}(m) = x · S_n(m - 1) + S_n(m)`.
proof fn lemma_binom_sum_step(x: int, n: nat, m: nat)
    requires
        m >= 1,
    ensures
        binom_sum(x, n + 1, m) == x * binom_sum(x, n, (m - 1) as nat) + binom_sum(x, n, m),
    decreases m,
{
    if m == 1 {
        lemma_pow0(x);
        assert(binom_sum(x, n + 1, 1) == binom_sum(x, n + 1, 0) + binom(n + 1, 0) * pow(x, 0));
        assert(binom_sum(x, n, 1) == binom_sum(x, n, 0) + binom(n, 0) * pow(x, 0));
        lemma_mul_basics(x);
    } else {
        let k = (m - 1) as nat;
        lemma_binom_sum_step(x, n, k);
        // new term of S_{n+1}: C(n+1, k) x^k = (C(n, k-1) + C(n, k)) x^k
        assert(binom(n + 1, k) == binom(n, (k - 1) as nat) + binom(n, k));
        lemma_pow_adds(x, 1, (k - 1) as nat);
        lemma_pow1(x);
        assert(pow(x, k) == x * pow(x, (k - 1) as nat));
        let c1 = binom(n, (k - 1) as nat) as int;
        let c2 = binom(n, k) as int;
        let pk = pow(x, k);
        let pk1 = pow(x, (k - 1) as nat);
        let s1 = binom_sum(x, n, (k - 1) as nat);
        assert(binom_sum(x, n, k) == s1 + c1 * pk1);
        assert((c1 + c2) * pk == x * (s1 + c1 * pk1) - x * s1 + c2 * pk) by (nonlinear_arith)
            requires pk == x * pk1;
    }
}

/// The binomial theorem for `(x + 1)^n`.
pub proof fn lemma_binomial(x: int, n: nat)
    ensures
        pow(x + 1, n) == binom_sum(x, n, n + 1),
    decreases n,
{
    if n == 0 {
        lemma_pow0(x + 1);
        lemma_pow0(x);
        assert(binom_sum(x, 0, 1) == binom_sum(x, 0, 0) + binom(0, 0) * pow(x, 0));
    } else {
        let m = (n - 1) as nat;
        lemma_binomial(x, m);
        lemma_binom_sum_step(x, m, n + 1);
        lemma_binom_above(m, n);
        assert(binom_sum(x, m, n + 1) == binom_sum(x, m, n) + binom(m, n) * pow(x, n));
        lemma_pow_adds(x + 1, 1, m);
        lemma_pow1(x + 1);
        let s = binom_sum(x, m, n);
        assert((x + 1) * s == x * s + s) by (nonlinear_arith);
    }
}

/// Absorption: `k · C(n, k) = n · C(n - 1, k - 1)`.
pub proof fn lemma_binom_absorb(n: nat, k: nat)
    requires
        n >= 1,
        k >= 1,
    ensures
        k * binom(n, k) == n * binom((n - 1) as nat, (k - 1) as nat),
    decreases n,
{
    if n == 1 {
        if k >= 2 {
            lemma_binom_above(1, k);
            lemma_binom_above(0, (k - 1) as nat);
            assert(k * binom(n, k) == n * binom((n - 1) as nat, (k - 1) as nat)) by (nonlinear_arith)
                requires binom(n, k) == 0, binom((n - 1) as nat, (k - 1) as nat) == 0;
        } else {
            assert(binom(0, 0) == 1);
            assert(binom(0, 1) == 0);
            assert(binom(1, 1) == binom(0, 0) + binom(0, 1));
            assert(k * binom(n, k) == n * binom((n - 1) as nat, (k - 1) as nat)) by (nonlinear_arith)
                requires k == 1, n == 1, binom(n, k) == 1, binom((n - 1) as nat, (k - 1) as nat) == 1;
        }
    } else {
        let n1 = (n - 1) as nat;
        let k1 = (k - 1) as nat;
        assert(binom(n, k) == binom(n1, k1) + binom(n1, k));
        lemma_binom_absorb(n1, k);
        // k * C(n1, k) == n1 * C(n1 - 1, k - 1)
        if k == 1 {
            lemma_binom_absorb(n1, 1);
            assert(binom(n1, 0) == 1);
            assert(binom((n1 - 1) as nat, 0) == 1);
            assert(binom(n, 1) == 1 + binom(n1, 1));
            let c0 = binom((n1 - 1) as nat, 0);
            let b1 = binom(n1, 1);
            assert(1 * b1 == n1 * c0);
            assert(b1 == n1) by (nonlinear_arith)
                requires 1 * b1 == n1 * c0, c0 == 1;
            assert(k * binom(n, k) == n * binom(n1, 0)) by (nonlinear_arith)
                requires k == 1, binom(n, k) == 1 + b1, b1 == n1, n == n1 + 1, binom(n1, 0) == 1;
        } else {
            lemma_binom_absorb(n1, k1);
            // k1 * C(n1, k1) == n1 * C(n1-1, k1-1)
            let a = binom(n1, k1) as int;
            let b = binom(n1, k) as int;
            let c = binom((n1 - 1) as nat, (k1 - 1) as nat) as int;
            let d = binom((n1 - 1) as nat, k1) as int;
            assert(a == c + d);
            assert(k * (a + b) == n * a) by (nonlinear_arith)
                requires
                    k1 * a == n1 * c,
                    k * b == n1 * d,
                    a == c + d,
                    k == k1 + 1,
                    n == n1 + 1;
        }
    }
}

/// Euclid's lemma, for `0 < a < p`: if `p | a·b` then `p | b`.
proof fn lemma_euclid_reduced(a: nat, b: nat, p: nat)
    requires
        spec_prime(p as int),
        0 < a < p,
        (a * b) % p == 0,
    ensures
        b % p == 0,
    decreases a,
{
    if a == 1 {
        lemma_mul_basics(b as int);
    } else {
        let q = p / a;
        let s = p % a;
        lemma_fundamental_div_mod(p as int, a as int);
        assert(p % a != 0);
        lemma_mod_bound(p as int, a as int);
        assert(0 < s < a);
        // s * b = p * b - q * (a * b)
        assert(s * b == p * b - q * (a * b)) by (nonlinear_arith)
            requires p == a * q + s;
        lemma_mod_multiples_basic(b as int, p as int);
        lemma_mul_mod_noop_right(q as int, (a * b) as int, p as int);
        lemma_mul_basics(q as int);
        lemma_sub_mod_noop((p * b) as int, (q * (a * b)) as int, p as int);
        assert((s * b) % p == 0) by {
            assert(((p * b) % p) == 0) by {
                lemma_mul_is_commutative(p as int, b as int);
            }
        }
        lemma_euclid_reduced(s, b, p);
    }
}

/// Euclid's lemma: a prime dividing a product divides a factor.
pub proof fn lemma_euclid(a: nat, b: nat, p: nat)
    requires
        spec_prime(p as int),
        (a * b) % p == 0,
    ensures
        a % p == 0 || b % p == 0,
{
    if a % p != 0 {
        let r = a % p;
        lemma_mod_bound(a as int, p as int);
        lemma_mul_mod_noop_left(a as int, b as int, p as int);
        lemma_euclid_reduced(r, b, p);
    }
}

/// `p` divides `C(p, k)` for `0 < k < p` when `p` is prime.
proof fn lemma_prime_divides_binom(p: nat, k: nat)
    requires
        spec_prime(p as int),
        0 < k < p,
    ensures
        binom(p, k) % p == 0,
{
    lemma_binom_absorb(p, k);
    let c = binom((p - 1) as nat, (k - 1) as nat);
    lemma_mod_multiples_basic(c as int, p as int);
    lemma_mul_is_commutative(p as int, c as int);
    lemma_euclid(k, binom(p, k), p);
    lemma_small_mod(k, p);
}

/// Modulo a prime `p`, `Σ_{k < m} C(p, k) x^k ≡ 1` for `1 <= m <= p`.
proof fn lemma_binom_sum_mod_prime(x: int, p: nat, m: nat)
    requires
        spec_prime(p as int),
        1 <= m <= p,
    ensures
        binom_sum(x, p, m) % (p as int) == 1,
    decreases m,
{
    if m == 1 {
        lemma_pow0(x);
        assert(binom_sum(x, p, 1) == binom_sum(x, p, 0) + binom(p, 0) * pow(x, 0));
        lemma_small_mod(1, p);
    } else {
        let k = (m - 1) as nat;
        lemma_binom_sum_mod_prime(x, p, k);
        lemma_prime_divides_binom(p, k);
        let c = binom(p, k) as int;
        lemma_mul_mod_noop_left(c, pow(x, k), p as int);
        assert((c * pow(x, k)) % (p as int) == 0) by {
            lemma_mul_basics(pow(x, k));
            assert((c % (p as int)) * pow(x, k) == 0);
            lemma_small_mod(0, p);
        }
        lemma_add_mod_noop(binom_sum(x, p, k), c * pow(x, k), p as int);
        lemma_small_mod(1, p);
    }
}

/// Fermat's little theorem, `a^p ≡ a (mod p)`, for natural `a`.
proof fn lemma_fermat_nat(a: nat, p: nat)
    requires
        spec_prime(p as int),
    ensures
        pow(a as int, p) % (p as int) == (a as int) % (p as int),
    decreases a,
{
    if a == 0 {
        lemma0_pow(p);
    } else {
        let b = (a - 1) as nat;
        lemma_fermat_nat(b, p);
        lemma_binomial(b as int, p);
        // (b + 1)^p = S(p) + C(p, p) b^p
        assert(binom_sum(b as int, p, p + 1) == binom_sum(b as int, p, p) + binom(p, p) * pow(b as int, p));
        lemma_binom_diag(p);
        lemma_binom_sum_mod_prime(b as int, p, p);
        lemma_add_mod_noop(binom_sum(b as int, p, p), pow(b as int, p), p as int);
        lemma_add_mod_noop(1, b as int, p as int);
        lemma_small_mod(1, p);
    }
}

/// Fermat's little theorem: `a^(p-1) ≡ 1 (mod p)` for a prime `p` not dividing `a`.
pub proof fn lemma_fermat(a: int, p: int)
    requires
        spec_prime(p),
        a % p != 0,
    ensures
        pow(a, (p - 1) as nat) % p == 1,
{
    let r = a % p;
    lemma_mod_bound(a, p);
    lemma_fermat_nat(r as nat, p as nat);
    lemma_small_mod(r as nat, p as nat);
    // r * r^(p-1) = r^p ≡ r
    lemma_pow_adds(r, 1, (p - 1) as nat);
    lemma_pow1(r);
    lemma_pow_positive(r, (p - 1) as nat);
    let e = pow(r, (p - 1) as nat);
    assert(1 + (p - 1) as nat == p as nat);
    assert(r * e == pow(r, p as nat));
    assert(pow(r, p as nat) % p == r % p);
    // r * (e - 1) ≡ 0
    assert(r * (e - 1) == r * e - r) by (nonlinear_arith);
    lemma_sub_mod_noop(r * e, r, p);
    assert(((r * e) % p - r % p) % p == (r * e - r) % p);
    assert((r * e) % p - r % p == 0);
    lemma_small_mod(0, p as nat);
    assert((r * (e - 1)) % p == 0);
    lemma_euclid(r as nat, (e - 1) as nat, p as nat);
    // (e - 1) % p == 0, so e % p == 1
    lemma_add_mod_noop(e - 1, 1, p);
    lemma_small_mod(1, p as nat);
    lemma_pow_mod_noop(a, (p - 1) as nat, p);
}

/// A power of a number not divisible by the prime `p` is not divisible by `p`.
pub proof fn lemma_pow_nonzero_mod_prime(a: int, e: nat, p: int)
    requires
        spec_prime(p),
        a % p != 0,
    ensures
        pow(a, e) % p != 0,
    decreases e,
{
    if e == 0 {
        lemma_pow0(a);
        lemma_small_mod(1, p as nat);
    } else {
        lemma_pow_nonzero_mod_prime(a, (e - 1) as nat, p);
        lemma_pow_adds(a, 1, (e - 1) as nat);
        lemma_pow1(a);
        let r = a % p;
        let s = pow(a, (e - 1) as nat) % p;
        lemma_mod_bound(a, p);
        lemma_mod_bound(pow(a, (e - 1) as nat), p);
        lemma_mul_mod_noop(a, pow(a, (e - 1) as nat), p);
        if (r * s) % p == 0 {
            lemma_euclid(r as nat, s as nat, p as nat);
            lemma_small_mod(r as nat, p as nat);
            lemma_small_mod(s as nat, p as nat);
        }
    }
}

/// Modulo a prime, the only square roots of `1` are `1` and `-1`.
pub proof fn lemma_sqrt_one_mod_prime(x: int, p: int)
    requires
        spec_prime(p),
        0 <= x < p,
        (x * x) % p == 1,
    ensures
        x == 1 || x == p - 1,
{
    if x == 0 {
        assert(x * x == 0);
    } else {
        // (x - 1)(x + 1) = x^2 - 1 ≡ 0
        assert((x - 1) * (x + 1) == x * x - 1) by (nonlinear_arith);
        lemma_sub_mod_noop(x * x, 1, p);
        lemma_small_mod(1, p as nat);
        lemma_small_mod(0, p as nat);
        assert(((x * x) % p - 1int % p) % p == (x * x - 1) % p);
        assert(((x - 1) * (x + 1)) % p == 0);
        lemma_euclid((x - 1) as nat, (x + 1) as nat, p as nat);
        if (x - 1) % p == 0 {
            lemma_small_mod((x - 1) as nat, p as nat);
        } else {
            if x + 1 < p {
                lemma_small_mod((x + 1) as nat, p as nat);
            }
        }
    }
}

/// For a prime `q` and `z` not divisible by `q`, `z^(q-2) mod q` is the inverse of `z`:
/// `z · (z^(q-2) mod q) ≡ 1 (mod q)`.
pub proof fn lemma_invert_by_fermat(z: int, q: int)
    requires
        spec_prime(q),
        z % q != 0,
    ensures
        (z * (pow(z, (q - 2) as nat) % q)) % q == 1,
{
    lemma_fermat(z, q);
    lemma_mul_mod_noop_right(z, pow(z, (q - 2) as nat), q);
    lemma_pow_adds(z, 1, (q - 2) as nat);
    lemma_pow1(z);
    assert(1 + (q - 2) as nat == (q - 1) as nat);
}

} // verus!
