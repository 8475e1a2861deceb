use vstd::arithmetic::div_mod::*;
use vstd::arithmetic::mul::*;
use vstd::arithmetic::power::*;
use vstd::prelude::*;

use crate::fermat::{lemma_euclid, lemma_invert_by_fermat};
use crate::primes::spec_prime;
use crate::rns::{convert_sum, prod_except};

verus! {

/// The moduli are pairwise distinct primes.
pub open spec fn distinct_primes(m: Seq<u64>) -> bool {
    &&& forall|i: int| 0 <= i < m.len() ==> spec_prime(#[trigger] m[i] as int)
    &&& forall|i: int, j: int| 0 <= i < j < m.len() ==> m[i] != m[j]
}

/// `Σ_{i < k} y[i] · Π_{j != i} m[j]`: the exact value that fast base conversion reduces.
pub open spec fn crt_sum(m: Seq<u64>, y: Seq<int>, k: nat) -> int
    decreases k,
{
    if k == 0 {
        0
    } else {
        crt_sum(m, y, (k - 1) as nat) + y[k - 1] * prod_except(m, k - 1, m.len() as int)
    }
}

/// A prime divides another prime only when they are equal.
proof fn lemma_prime_divides_prime(p: int, r: int)
    requires
        spec_prime(p),
        spec_prime(r),
        p != r,
    ensures
        r % p != 0,
{
    if p < r {
        assert(r % p != 0);
    } else {
        lemma_small_mod(r as nat, p as nat);
    }
}

/// A product of positive moduli is positive.
proof fn lemma_prod_positive(m: Seq<u64>, i: int, k: int)
    requires
        k <= m.len(),
        forall|t: int| 0 <= t < m.len() ==> #[trigger] m[t] >= 1,
    ensures
        prod_except(m, i, k) >= 1,
    decreases k,
{
    if k > 0 {
        lemma_prod_positive(m, i, k - 1);
        let f: int = if k - 1 == i { 1 } else { m[k - 1] as int };
        lemma_mul_increases(f, prod_except(m, i, k - 1));
        lemma_mul_is_commutative(f, prod_except(m, i, k - 1));
    }
}

/// Every included modulus divides the product.
proof fn lemma_prod_divisible(m: Seq<u64>, i: int, j: int, k: int)
    requires
        0 <= j < k <= m.len(),
        j != i,
        m[j] > 0,
    ensures
        prod_except(m, i, k) % (m[j] as int) == 0,
    decreases k,
{
    let f: int = if k - 1 == i { 1 } else { m[k - 1] as int };
    if j < k - 1 {
        lemma_prod_divisible(m, i, j, k - 1);
        lemma_mul_mod_noop_left(prod_except(m, i, k - 1), f, m[j] as int);
        assert(0 * f == 0);
        lemma_small_mod(0, m[j] as nat);
    } else {
        lemma_mod_multiples_basic(prod_except(m, i, k - 1), m[j] as int);
        lemma_mul_is_commutative(prod_except(m, i, k - 1), m[j] as int);
    }
}

/// A prime that differs from every included modulus does not divide the product.
proof fn lemma_prod_not_divisible(m: Seq<u64>, i: int, p: int, k: int)
    requires
        0 <= k <= m.len(),
        spec_prime(p),
        forall|t: int| 0 <= t < m.len() ==> spec_prime(#[trigger] m[t] as int),
        forall|t: int| 0 <= t < k && t != i ==> #[trigger] m[t] != p,
    ensures
        prod_except(m, i, k) % p != 0,
    decreases k,
{
    if k == 0 {
        lemma_small_mod(1, p as nat);
    } else {
        lemma_prod_not_divisible(m, i, p, k - 1);
        let f: int = if k - 1 == i { 1 } else { m[k - 1] as int };
        let a = prod_except(m, i, k - 1);
        assert forall|t: int| 0 <= t < m.len() implies #[trigger] m[t] >= 1 by {
            assert(spec_prime(m[t] as int));
        }
        lemma_prod_positive(m, i, k - 1);
        if (a * f) % p == 0 {
            lemma_euclid(a as nat, f as nat, p as nat);
            if k - 1 == i {
                lemma_small_mod(1, p as nat);
            } else {
                assert(spec_prime(m[k - 1] as int));
                lemma_prime_divides_prime(p, m[k - 1] as int);
            }
        }
    }
}

/// Removing one factor: `Π_j m[j] == (Π_{j != i} m[j]) · m[i]`.
proof fn lemma_prod_split(m: Seq<u64>, i: int, k: int)
    requires
        0 <= i < k <= m.len(),
    ensures
        prod_except(m, -1, k) == prod_except(m, i, k) * (m[i] as int),
    decreases k,
{
    if k - 1 == i {
        assert(prod_except(m, -1, k) == prod_except(m, -1, k - 1) * (m[i] as int));
        lemma_prod_except_no_skip(m, i, k - 1);
    } else {
        lemma_prod_split(m, i, k - 1);
        let f = m[k - 1] as int;
        lemma_mul_is_associative(prod_except(m, i, k - 1), m[i] as int, f);
        lemma_mul_is_associative(prod_except(m, i, k - 1), f, m[i] as int);
        lemma_mul_is_commutative(m[i] as int, f);
    }
}

/// Skipping an index at or beyond `k` skips nothing.
proof fn lemma_prod_except_no_skip(m: Seq<u64>, i: int, k: int)
    requires
        0 <= k <= i,
    ensures
        prod_except(m, i, k) == prod_except(m, -1, k),
    decreases k,
{
    if k > 0 {
        lemma_prod_except_no_skip(m, i, k - 1);
    }
}

/// Chinese remainder: a number divisible by pairwise distinct primes is divisible by their
/// product.
proof fn lemma_crt_divides(m: Seq<u64>, d: int, k: int)
    requires
        0 <= k <= m.len(),
        distinct_primes(m),
        forall|j: int| 0 <= j < k ==> d % (#[trigger] m[j] as int) == 0,
    ensures
        d % prod_except(m, -1, k) == 0,
    decreases k,
{
    assert forall|t: int| 0 <= t < m.len() implies #[trigger] m[t] >= 1 by {
        assert(spec_prime(m[t] as int));
    }
    if k == 0 {
        assert(prod_except(m, -1, 0) == 1);
        lemma_mod_multiples_basic(d, 1);
    } else {
        lemma_crt_divides(m, d, k - 1);
        let p = prod_except(m, -1, k - 1);
        let r = m[k - 1] as int;
        lemma_prod_positive(m, -1, k - 1);
        lemma_fundamental_div_mod(d, p);
        let t = d / p;
        assert(d == p * t);
        assert(spec_prime(r));
        assert(p % r != 0) by {
            lemma_prod_not_divisible(m, -1, r, k - 1);
        }
        // r divides p·t but not p, so it divides t
        let tm = t % r;
        lemma_mul_mod_noop_right(p, t, r);
        lemma_mod_bound(t, r);
        lemma_mod_bound(p, r);
        lemma_mul_mod_noop_left(p, tm, r);
        assert(((p % r) * tm) % r == 0);
        lemma_euclid((p % r) as nat, tm as nat, r as nat);
        lemma_small_mod((p % r) as nat, r as nat);
        lemma_small_mod(tm as nat, r as nat);
        assert(tm == 0);
        lemma_fundamental_div_mod(t, r);
        let s = t / r;
        assert(d == (p * r) * s) by {
            assert(t == r * s);
            lemma_mul_is_associative(p, r, s);
        }
        assert(prod_except(m, -1, k) == p * r);
        assert(p * r > 0) by (nonlinear_arith)
            requires
                p >= 1,
                r >= 2,
        ;
        lemma_mod_multiples_basic(s, p * r);
        lemma_mul_is_commutative(s, p * r);
    }
}

/// The CRT reconstruction factor of modulus `j`: `(Π_{i != j} m[i])^(m[j] - 2) mod m[j]`,
/// the inverse of the cofactor modulo the prime `m[j]`.
pub open spec fn hat_inverse(m: Seq<u64>, j: int) -> int {
    pow(prod_except(m, j, m.len() as int) % (m[j] as int), (m[j] - 2) as nat) % (m[j] as int)
}

/// Modulo `m[j]`, the sum keeps only the term of `j` (when it is among the first `k`).
proof fn lemma_crt_sum_mod(m: Seq<u64>, y: Seq<int>, k: nat, j: int)
    requires
        distinct_primes(m),
        0 <= j < m.len(),
        k <= m.len(),
    ensures
        crt_sum(m, y, k) % (m[j] as int) == (if j < k { y[j] * prod_except(m, j, m.len() as int) } else { 0 })
            % (m[j] as int),
    decreases k,
{
    let q = m[j] as int;
    assert(spec_prime(q));
    if k > 0 {
        let k1 = (k - 1) as nat;
        lemma_crt_sum_mod(m, y, k1, j);
        let pk = prod_except(m, k - 1, m.len() as int);
        let prev = crt_sum(m, y, k1);
        lemma_add_mod_noop(prev, y[k - 1] * pk, q);
        if k - 1 != j {
            lemma_prod_divisible(m, k - 1, j, m.len() as int);
            lemma_mul_mod_noop_right(y[k - 1], pk, q);
            assert(y[k - 1] * 0 == 0);
            lemma_small_mod(0, q as nat);
            lemma_mod_twice(prev, q);
        } else {
            lemma_small_mod(0, q as nat);
            lemma_mod_twice(y[j] * pk, q);
        }
    }
}

/// The term of modulus `j` restores the residue: `([x·ĥ_j]_{m_j} · Π_{i != j} m_i) ≡ x (mod m_j)`.
pub proof fn lemma_crt_term(m: Seq<u64>, j: int, x: int)
    requires
        distinct_primes(m),
        0 <= j < m.len(),
    ensures
        ((((x % (m[j] as int)) * hat_inverse(m, j)) % (m[j] as int)) * prod_except(m, j, m.len() as int)) % (
        m[j] as int) == x % (m[j] as int),
{
    let q = m[j] as int;
    let pp = prod_except(m, j, m.len() as int);
    let h = hat_inverse(m, j);
    let z = pp % q;
    assert(spec_prime(q));
    assert forall|t: int| 0 <= t < m.len() && t != j implies #[trigger] m[t] != m[j] by {
        if t < j {
            assert(m[t] != m[j]);
        } else {
            assert(m[j] != m[t]);
        }
    }
    lemma_prod_not_divisible(m, j, q, m.len() as int);
    lemma_mod_twice(pp, q);
    assert(z % q != 0);
    assert(h == pow(z, (q - 2) as nat) % q);
    lemma_invert_by_fermat(z, q);
    assert((z * h) % q == 1);
    let xr = x % q;
    lemma_mul_mod_noop_left(xr * h, pp, q);
    assert((((xr * h) % q) * pp) % q == ((xr * h) * pp) % q);
    lemma_mul_is_associative(xr, h, pp);
    lemma_mul_mod_noop_right(xr, h * pp, q);
    assert(((xr * h) * pp) % q == (xr * ((h * pp) % q)) % q);
    lemma_mul_mod_noop_right(h, pp, q);
    lemma_mul_is_commutative(h, z);
    assert((h * pp) % q == 1);
    lemma_mod_bound(x, q);
    lemma_small_mod(xr as nat, q as nat);
    assert(xr * 1 == xr);
}

/// A fold of the conversion table equals the reduced exact sum.
pub proof fn lemma_convert_sum_is_crt_sum(
    crt: Seq<Seq<u64>>,
    table: Seq<Seq<u64>>,
    t: int,
    jj: int,
    k: nat,
    p: int,
    m: Seq<u64>,
    y: Seq<int>,
)
    requires
        p > 0,
        forall|i: int| 0 <= i < k ==> #[trigger] crt[i][jj] == y[i],
        forall|i: int| 0 <= i < k ==> #[trigger] table[i][t] == prod_except(m, i, m.len() as int) % p,
    ensures
        convert_sum(crt, table, t, jj, k as int, p) == crt_sum(m, y, k) % p,
    decreases k,
{
    if k == 0 {
        lemma_small_mod(0, p as nat);
    } else {
        let k1 = (k - 1) as nat;
        lemma_convert_sum_is_crt_sum(crt, table, t, jj, k1, p, m, y);
        let pk = prod_except(m, k1 as int, m.len() as int);
        assert(crt[k1 as int][jj] == y[k1 as int]);
        assert(table[k1 as int][t] == pk % p);
        lemma_mul_mod_noop_right(y[k1 as int], pk, p);
        lemma_add_mod_noop(crt_sum(m, y, k1), y[k1 as int] * pk, p);
        lemma_mod_twice(crt_sum(m, y, k1), p);
        lemma_mod_twice(y[k1 as int] * pk, p);
    }
}

/// Each partial sum lies in `[0, k·Q)` when every `y[i]` is reduced modulo `m[i]`.
proof fn lemma_crt_sum_bounds(m: Seq<u64>, y: Seq<int>, k: nat)
    requires
        k <= m.len(),
        distinct_primes(m),
        forall|i: int| 0 <= i < m.len() ==> 0 <= #[trigger] y[i] < m[i],
    ensures
        0 <= crt_sum(m, y, k) <= k * (prod_except(m, -1, m.len() as int) - 1),
    decreases k,
{
    if k > 0 {
        let k1 = (k - 1) as nat;
        lemma_crt_sum_bounds(m, y, k1);
        let i = k1 as int;
        let pp = prod_except(m, i, m.len() as int);
        let big_q = prod_except(m, -1, m.len() as int);
        assert forall|t: int| 0 <= t < m.len() implies #[trigger] m[t] >= 1 by {
            assert(spec_prime(m[t] as int));
        }
        lemma_prod_positive(m, i, m.len() as int);
        lemma_prod_split(m, i, m.len() as int);
        assert(0 <= y[i] < m[i]);
        assert(0 <= y[i] * pp <= big_q - 1) by (nonlinear_arith)
            requires
                0 <= y[i] < m[i],
                pp >= 1,
                big_q == pp * (m[i] as int),
        ;
        assert(k1 * (big_q - 1) + (big_q - 1) == k * (big_q - 1)) by (nonlinear_arith)
            requires
                k == k1 + 1,
        ;
    }
}

/// Fast base conversion is exact up to a small multiple of `Q`: for `0 <= x < Q` and
/// `y[i] = [x · ĥ_i]_{m_i}`, `Σ_i y[i] · Π_{j != i} m[j] == x + u·Q` with `0 <= u < L`.
pub proof fn lemma_crt_sum_overflow(m: Seq<u64>, x: int, y: Seq<int>) -> (u: int)
    requires
        m.len() >= 1,
        distinct_primes(m),
        0 <= x < prod_except(m, -1, m.len() as int),
        y.len() == m.len(),
        forall|i: int| 0 <= i < m.len() ==> #[trigger] y[i] == ((x % (m[i] as int)) * hat_inverse(m, i)) % (
        m[i] as int),
    ensures
        0 <= u < m.len(),
        crt_sum(m, y, m.len()) == x + u * prod_except(m, -1, m.len() as int),
{
    let l = m.len();
    let big_q = prod_except(m, -1, l as int);
    let s = crt_sum(m, y, l);
    assert forall|t: int| 0 <= t < m.len() implies #[trigger] m[t] >= 1 by {
        assert(spec_prime(m[t] as int));
    }
    assert forall|i: int| 0 <= i < m.len() implies 0 <= #[trigger] y[i] < m[i] by {
        lemma_mod_bound((x % (m[i] as int)) * hat_inverse(m, i), m[i] as int);
    }
    lemma_crt_sum_bounds(m, y, l);
    assert forall|j: int| 0 <= j < l implies (s - x) % (#[trigger] m[j] as int) == 0 by {
        let q = m[j] as int;
        lemma_crt_sum_mod(m, y, l, j);
        lemma_crt_term(m, j, x);
        lemma_sub_mod_noop(s, x, q);
        lemma_mod_twice(x, q);
        lemma_sub_mod_noop(x, x, q);
        lemma_small_mod(0, q as nat);
    }
    lemma_crt_divides(m, s - x, l as int);
    lemma_prod_positive(m, -1, l as int);
    lemma_fundamental_div_mod(s - x, big_q);
    let u = (s - x) / big_q;
    assert(s - x == big_q * u);
    if u < 0 {
        assert(big_q * u <= -big_q) by (nonlinear_arith)
            requires
                u <= -1,
                big_q >= 1,
        ;
    }
    if u >= l {
        assert(big_q * u >= big_q * l) by (nonlinear_arith)
            requires
                u >= l,
                big_q >= 1,
        ;
        assert(l * (big_q - 1) == big_q * l - l) by (nonlinear_arith);
    }
    lemma_mul_is_commutative(big_q, u);
    u
}

} // verus!
