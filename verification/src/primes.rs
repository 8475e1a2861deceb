use rand::rngs::ThreadRng;
use vstd::arithmetic::div_mod::*;
use vstd::arithmetic::mul::*;
use vstd::arithmetic::power::*;
use vstd::arithmetic::power2::*;
use vstd::prelude::*;

use crate::fermat::{lemma_fermat, lemma_sqrt_one_mod_prime};
use crate::math::lemma_pow_square_step;

verus! {

/// `n` is a prime number.
pub open spec fn spec_prime(n: int) -> bool {
    n >= 2 && forall|d: int| 2 <= d < n ==> #[trigger] (n % d) != 0
}

/// The odd part `d` of `m = d · 2^r` (`0` for `m == 0`).
pub open spec fn odd_part(m: nat) -> nat
    decreases m,
{
    if m == 0 {
        0
    } else if m % 2 == 0 {
        odd_part(m / 2)
    } else {
        m
    }
}

/// The exponent `r` of the largest power of two dividing `m` (`0` for `m == 0`).
pub open spec fn two_adicity(m: nat) -> nat
    decreases m,
{
    if m == 0 {
        0
    } else if m % 2 == 0 {
        1 + two_adicity(m / 2)
    } else {
        0
    }
}

/// The bases of the Miller test: the first twelve primes.
pub open spec fn witness_seq() -> Seq<u64> {
    seq![2u64, 3, 5, 7, 11, 13, 17, 19, 23, 29, 31, 37]
}

/// `n` is a strong probable prime to base `a`: writing `n - 1 = d · 2^r` with `d` odd,
/// `a^d ≡ 1` or `a^(d·2^i) ≡ -1 (mod n)` for some `i < r`.
pub open spec fn strong_probable_prime(n: int, a: int) -> bool {
    let d = odd_part((n - 1) as nat);
    let r = two_adicity((n - 1) as nat);
    pow(a, d) % n == 1 || exists|i: nat| i < r && #[trigger] pow(a, d * pow2(i)) % n == n - 1
}

/// What the Miller test accepts: `n >= 2`, and either `n` is one of the bases,
/// or `n` is odd and a strong probable prime to every base.
pub open spec fn miller_accepts(n: int) -> bool {
    n >= 2 && (witness_seq().contains(n as u64) || (n % 2 == 1 && forall|k: int|
        0 <= k < 12 ==> #[trigger] strong_probable_prime(n, witness_seq()[k] as int)))
}

/// `x` is a multiple of `m` (with only `0` a multiple of `0`).
pub open spec fn multiple_of(x: int, m: int) -> bool {
    if m == 0 { x == 0 } else { x % m == 0 }
}

/// `p` has exactly `size` bits: its highest set bit is bit `size - 1`.
pub open spec fn has_bit_length(p: u64, size: u32) -> bool {
    (p >> ((size - 1) as u64)) == 1u64
}

/// `p` is an odd number of exactly `size` bits with `2n | p - 1`, accepted by the Miller test.
pub open spec fn is_ntt_prime(p: u64, size: u32, n: usize) -> bool {
    &&& has_bit_length(p, size)
    &&& p % 2 == 1
    &&& multiple_of(p - 1, 2 * n)
    &&& miller_accepts(p as int)
}

/// `base^exp mod modulus`, computed in 128-bit arithmetic.
pub fn mod_pow(base: u64, exp: u64, modulus: u64) -> (r: u64)
    requires
        modulus > 0,
    ensures
        r == pow(base as int, exp as nat) % (modulus as int),
        r < modulus,
{
    if modulus == 1 {
        proof { lemma_mod_basics_one(pow(base as int, exp as nat)); }
        return 0;
    }
    let m = modulus as u128;
    let ghost q = modulus as int;
    let mut result: u128 = 1;
    let base_red = base % modulus;
    let mut b = base_red as u128;
    let mut e = exp;
    proof {
        lemma_small_mod(1, modulus as nat);
        lemma_pow_mod_noop(base as int, exp as nat, q);
        lemma_mul_basics(pow(b as int, e as nat));
    }
    while e > 0
        invariant
            q == modulus as int,
            m == modulus,
            q >= 2,
            result < q,
            b < q,
            (result * pow(b as int, e as nat)) % q == pow(base as int, exp as nat) % q,
        decreases e,
    {
        let ghost old_res = result;
        let ghost old_b = b;
        let ghost old_e = e;
        proof {
            lemma_pow_square_step(b as int, e as nat, q);
            assert(e & 1 == 1 <==> e % 2 == 1) by (bit_vector);
            assert(result * b < 0x1_0000_0000_0000_0000 * 0x1_0000_0000_0000_0000) by (nonlinear_arith)
                requires result < 0x1_0000_0000_0000_0000int, b < 0x1_0000_0000_0000_0000int;
            assert(b * b < 0x1_0000_0000_0000_0000 * 0x1_0000_0000_0000_0000) by (nonlinear_arith)
                requires b < 0x1_0000_0000_0000_0000int;
        }
        if e & 1 == 1 {
            result = result * b % m;
        }
        e = e >> 1;
        b = b * b % m;
        proof {
            assert(e == old_e / 2) by (bit_vector) requires e == old_e >> 1;
            lemma_mod_pos_bound(old_b * old_b, q);
            let p1 = pow(old_b as int, (old_e % 2) as nat);
            let p2 = pow(b as int, e as nat);
            lemma_mul_mod_noop_right(old_res as int, pow(old_b as int, old_e as nat), q);
            lemma_mul_mod_noop_right(old_res as int, p1 * p2, q);
            lemma_mul_is_associative(old_res as int, p1, p2);
            if old_e % 2 == 1 {
                lemma_pow1(old_b as int);
                lemma_mod_pos_bound(old_res * old_b, q);
                lemma_mul_mod_noop_left(old_res * old_b, p2, q);
            } else {
                lemma_pow0(old_b as int);
                lemma_mul_basics(old_res as int);
            }
        }
    }
    proof {
        lemma_pow0(b as int);
        lemma_mul_basics(result as int);
        lemma_small_mod(result as nat, q as nat);
    }
    result as u64
}

proof fn lemma_mod_basics_one(x: int)
    ensures
        x % 1 == 0,
{
}

/// The twelve bases of the Miller test.
fn witnesses() -> (w: [u64; 12])
    ensures
        w@ == witness_seq(),
{
    let w: [u64; 12] = [2, 3, 5, 7, 11, 13, 17, 19, 23, 29, 31, 37];
    assert(w@ =~= witness_seq());
    w
}

/// `pow(a, d·2^(i+1)) % n` is the square of `pow(a, d·2^i) % n`, reduced.
proof fn lemma_square_chain(a: int, d: nat, i: nat, n: int)
    requires
        n > 0,
    ensures
        pow(pow(a, d * pow2(i)) % n, 2) % n == pow(a, d * pow2(i + 1)) % n,
{
    lemma_pow_mod_noop(pow(a, d * pow2(i)), 2, n);
    lemma_pow_multiplies(a, d * pow2(i), 2);
    lemma_pow2_unfold(i + 1);
    assert(d * pow2(i) * 2 == d * pow2(i + 1)) by {
        lemma_mul_is_associative(d as int, pow2(i) as int, 2);
    }
}

/// Runs the strong probable prime test of `n` to base `a`, given `n - 1 = d · 2^r`.
fn passes_base(n: u64, a: u64, d: u64, r: u32) -> (res: bool)
    requires
        n >= 3,
        r >= 1,
        d == odd_part((n - 1) as nat),
        r == two_adicity((n - 1) as nat),
    ensures
        res == strong_probable_prime(n as int, a as int),
{
    let ghost ni = n as int;
    let mut x = mod_pow(a, d, n);
    proof {
        assert(d * pow2(0) == d) by { lemma_pow2(0); lemma_pow0(2); }
    }
    if x == 1 {
        return true;
    }
    if x == n - 1 {
        proof {
            assert(pow(a as int, d as nat * pow2(0)) % ni == ni - 1);
        }
        return true;
    }
    let mut j: u32 = 0;
    while j < r - 1
        invariant
            ni == n as int,
            n >= 3,
            r >= 1,
            j <= r - 1,
            d == odd_part((n - 1) as nat),
            r == two_adicity((n - 1) as nat),
            pow(a as int, d as nat) % ni != 1,
            x == pow(a as int, d as nat * pow2(j as nat)) % ni,
            forall|i: nat| i <= j ==> #[trigger] pow(a as int, d as nat * pow2(i)) % ni != ni - 1,
        decreases r - 1 - j,
    {
        let ghost old_x = x;
        x = mod_pow(x, 2, n);
        proof {
            lemma_square_chain(a as int, d as nat, j as nat, ni);
        }
        j = j + 1;
        if x == n - 1 {
            proof {
                assert(pow(a as int, d as nat * pow2(j as nat)) % ni == ni - 1);
            }
            return true;
        }
        proof {
            assert forall|i: nat| i <= j implies #[trigger] pow(a as int, d as nat * pow2(i)) % ni != ni - 1 by {
                if i == j {
                } else {
                }
            }
        }
    }
    proof {
        assert(!strong_probable_prime(n as int, a as int)) by {
            assert forall|i: nat| i < r implies !(#[trigger] pow(a as int, d as nat * pow2(i)) % ni == ni - 1) by {
                assert(i <= j);
            }
        }
    }
    false
}

/// Miller test with the first twelve primes as bases, which decides
/// primality for every `n` below 2^64.
pub fn is_prime(n: u64) -> (res: bool)
    ensures
        res == miller_accepts(n as int),
{
    if n < 2 {
        return false;
    }
    let w = witnesses();
    let mut k: usize = 0;
    while k < 12
        invariant
            w@ == witness_seq(),
            k <= 12,
            forall|j: int| 0 <= j < k ==> witness_seq()[j] != n,
        decreases 12 - k,
    {
        if w[k] == n {
            proof { assert(witness_seq()[k as int] == n); }
            return true;
        }
        k = k + 1;
    }
    proof {
        assert(!witness_seq().contains(n)) by {
            if witness_seq().contains(n) {
                let j = choose|j: int| 0 <= j < witness_seq().len() && witness_seq()[j] == n;
                assert(witness_seq()[j] != n);
            }
        }
    }
    if n % 2 == 0 {
        return false;
    }
    let mut d = n - 1;
    let mut r: u32 = 0;
    proof { lemma_pow2(0); lemma_pow0(2); }
    while d % 2 == 0
        invariant
            n >= 3,
            n % 2 == 1,
            d > 0,
            r <= 64,
            r == 0 ==> d == n - 1,
            d * pow2(r as nat) == n - 1,
            odd_part(d as nat) == odd_part((n - 1) as nat),
            two_adicity(d as nat) + r == two_adicity((n - 1) as nat),
        decreases d,
    {
        proof {
            lemma_pow2_unfold((r + 1) as nat);
            lemma_mul_is_associative((d / 2) as int, 2, pow2(r as nat) as int);
            if r >= 63 {
                lemma_pow2_strictly_increases(63, (r + 1) as nat);
                lemma2_to64_rest();
                assert(d / 2 >= 1);
                lemma_mul_increases((d / 2) as int, pow2((r + 1) as nat) as int);
            }
        }
        d = d / 2;
        r = r + 1;
    }
    let mut i: usize = 0;
    while i < 12
        invariant
            w@ == witness_seq(),
            n >= 3,
            n % 2 == 1,
            r >= 1,
            d == odd_part((n - 1) as nat),
            r == two_adicity((n - 1) as nat),
            i <= 12,
            !witness_seq().contains(n),
            forall|j: int| 0 <= j < i ==> #[trigger] strong_probable_prime(n as int, witness_seq()[j] as int),
        decreases 12 - i,
    {
        if !passes_base(n, w[i], d, r) {
            proof {
                assert(!strong_probable_prime(n as int, witness_seq()[i as int] as int));
            }
            return false;
        }
        i = i + 1;
    }
    true
}

/// The candidate built from the draw `raw`: its low `size` bits, with bit `size - 1` and bit
/// `0` set.
pub open spec fn candidate_of(raw: u64, size: u32) -> u64 {
    let mask: u64 = if size == 64 { 0xffff_ffff_ffff_ffffu64 } else { ((1u64 << (size as u64)) - 1) as u64 };
    (raw & mask) | (1u64 << ((size - 1) as u64)) | 1u64
}

/// The candidate that a draw yields: masked to `size` bits, with the top and lowest bits set.
pub fn ntt_candidate(raw: u64, size: u32) -> (p: u64)
    requires
        2 <= size <= 64,
    ensures
        p == candidate_of(raw, size),
        has_bit_length(p, size),
        p % 2 == 1,
        p >= 2,
{
    let s = size as u64;
    proof {
        assert(s < 64 ==> (1u64 << s) >= 1) by (bit_vector);
    }
    let mask = if size == 64 { 0xffff_ffff_ffff_ffffu64 } else { (1u64 << s) - 1 };
    let s1 = s - 1;
    let msb = 1u64 << s1;
    let p = (raw & mask) | msb | 1;
    proof {
        if size == 64 {
            assert((((raw & mask) | msb | 1) >> s1) == 1u64 && ((raw & mask) | msb | 1) >= 2) by (bit_vector)
                requires s1 == 63u64, msb == 1u64 << s1;
        } else {
            assert((((raw & mask) | msb | 1) >> s1) == 1u64 && ((raw & mask) | msb | 1) >= 2) by (bit_vector)
                requires 2 <= s < 64, s1 == s - 1, mask == (1u64 << s) - 1, msb == 1u64 << s1;
        }
        assert(((raw & mask) | msb | 1) % 2 == 1) by (bit_vector);
    }
    p
}

/// Every NTT prime of `size` bits for dimension `n` occurs in `prev`.
pub open spec fn covers_ntt_primes(prev: Seq<u64>, size: u32, n: usize) -> bool {
    forall|p: u64| #[trigger] is_ntt_prime(p, size, n) ==> prev.contains(p)
}

/// A sequence covering every NTT prime of a size is at least as long as any list of distinct
/// such primes: `covers_ntt_primes(prev, ..)` bounds their number by `prev.len()`.
pub proof fn lemma_cover_bounds_primes(prev: Seq<u64>, s: Seq<u64>, size: u32, n: usize)
    requires
        covers_ntt_primes(prev, size, n),
        s.no_duplicates(),
        forall|i: int| 0 <= i < s.len() ==> #[trigger] is_ntt_prime(s[i], size, n),
    ensures
        s.len() <= prev.len(),
{
    assert(s.to_set().subset_of(prev.to_set())) by {
        assert forall|p: u64| s.to_set().contains(p) implies prev.to_set().contains(p) by {
            let i = choose|i: int| 0 <= i < s.len() && s[i] == p;
            assert(is_ntt_prime(s[i], size, n));
        }
    }
    vstd::seq_lib::seq_to_set_is_finite(prev);
    s.unique_seq_to_set();
    vstd::set_lib::lemma_len_subset(s.to_set(), prev.to_set());
    prev.lemma_cardinality_of_set();
}

/// A number of exactly `size` bits lies in `2^(size-1) ..= 2^size - 1`.
proof fn lemma_bit_length_range(p: u64, size: u32)
    requires
        2 <= size <= 64,
        has_bit_length(p, size),
    ensures
        p >= 1u64 << ((size - 1) as u64),
        size < 64 ==> p <= ((1u64 << (size as u64)) - 1) as u64,
{
    let s = size as u64;
    let s1 = (size - 1) as u64;
    assert(p >> s1 == 1u64 && 1 <= s1 <= 63 ==> p >= 1u64 << s1) by (bit_vector);
    assert(p >> s1 == 1u64 && 2 <= s < 64 && s1 == s - 1 ==> (1u64 << s) >= 1 && p <= (1u64 << s) - 1)
        by (bit_vector);
}

/// The smallest NTT prime of `size` bits for dimension `n` that is not in `excluded`, found by
/// scanning the `size`-bit numbers in order; `None` when every such prime is in `excluded`.
fn first_ntt_prime_outside(size: u32, n: usize, excluded: &Vec<u64>) -> (res: Option<u64>)
    requires
        2 <= size <= 64,
        n < 0x8000_0000_0000_0000,
    ensures
        res matches Some(p) ==> is_ntt_prime(p, size, n) && !excluded@.contains(p),
        res is None ==> covers_ntt_primes(excluded@, size, n),
{
    let two_n = 2 * (n as u64);
    let s1 = (size - 1) as u64;
    let lo = 1u64 << s1;
    proof {
        assert(1 <= s1 <= 63 ==> (1u64 << s1) >= 2) by (bit_vector);
    }
    let hi: u64 = if size == 64 {
        0xffff_ffff_ffff_ffffu64
    } else {
        let s = size as u64;
        proof {
            assert(2 <= s < 64 ==> (1u64 << s) >= 1) by (bit_vector);
        }
        (1u64 << s) - 1
    };
    proof {
        let s = size as u64;
        assert(2 <= s < 64 && s1 == s - 1 ==> (1u64 << s1) <= (1u64 << s) - 1) by (bit_vector);
    }
    let mut p = lo;
    loop
        invariant
            2 <= size <= 64,
            s1 == size - 1,
            two_n == 2 * n,
            lo == 1u64 << s1,
            lo >= 2,
            size < 64 ==> hi == ((1u64 << (size as u64)) - 1) as u64,
            size == 64 ==> hi == 0xffff_ffff_ffff_ffffu64,
            lo <= p <= hi,
            forall|q: u64| lo <= q < p && #[trigger] is_ntt_prime(q, size, n) ==> excluded@.contains(q),
        decreases hi - p,
    {
        let divisible = if two_n == 0 { p - 1 == 0 } else { (p - 1) % two_n == 0 };
        if (p >> s1) == 1 && p % 2 == 1 && divisible && !contains_value(excluded, p) && is_prime(p) {
            return Some(p);
        }
        proof {
            assert(is_ntt_prime(p, size, n) ==> excluded@.contains(p));
        }
        if p == hi {
            proof {
                assert forall|q: u64| #[trigger] is_ntt_prime(q, size, n) implies excluded@.contains(q) by {
                    lemma_bit_length_range(q, size);
                }
            }
            return None;
        }
        p = p + 1;
    }
}

/// Generates a `size`-bit prime `p` with `2n | p - 1` by drawing candidates from the
/// thread-local generator until one passes. Should 2^64 - 1 draws fail, the `size`-bit numbers
/// are scanned in order; `None` only when there is no such prime at all.
pub fn random_ntt_prime(size: u32, n: usize) -> (res: Option<u64>)
    requires
        2 <= size <= 64,
        n < 0x8000_0000_0000_0000,
    ensures
        res matches Some(p) ==> is_ntt_prime(p, size, n),
        res is None ==> forall|p: u64| !#[trigger] is_ntt_prime(p, size, n),
{
    let mut rng = crate::rng::thread_rng();
    let two_n = 2 * (n as u64);
    let mut attempts: u64 = 0;
    while attempts < 0xffff_ffff_ffff_ffffu64
        invariant
            2 <= size <= 64,
            two_n == 2 * n,
        decreases 0xffff_ffff_ffff_ffffu64 - attempts,
    {
        attempts = attempts + 1;
        let raw = crate::rng::random_u64(&mut rng);
        let p = ntt_candidate(raw, size);
        let divisible = if two_n == 0 { p - 1 == 0 } else { (p - 1) % two_n == 0 };
        if divisible && is_prime(p) {
            return Some(p);
        }
    }
    let none: Vec<u64> = Vec::new();
    first_ntt_prime_outside(size, n, &none)
}

/// Whether `x` occurs in `v`.
fn contains_value(v: &Vec<u64>, x: u64) -> (res: bool)
    ensures
        res == v@.contains(x),
{
    let mut i: usize = 0;
    while i < v.len()
        invariant
            i <= v.len(),
            forall|j: int| 0 <= j < i ==> v@[j] != x,
        decreases v.len() - i,
    {
        if v[i] == x {
            proof { assert(v@[i as int] == x); }
            return true;
        }
        i = i + 1;
    }
    proof {
        if v@.contains(x) {
            let j = choose|j: int| 0 <= j < v@.len() && v@[j] == x;
            assert(v@[j] != x);
        }
    }
    false
}

/// One pairwise distinct NTT prime per entry of `sizes`, the `i`-th of `sizes[i]` bits.
/// Each is drawn at random until it differs from the earlier ones; should 2^64 - 1 draws not
/// give one, the smallest prime not yet chosen is taken. `None` only when, for some `k`, every
/// NTT prime of `sizes[k]` bits is among the `k` primes chosen before it.
pub fn distinct_random_ntt_primes(sizes: &[u32], n: usize) -> (res: Option<Vec<u64>>)
    requires
        forall|i: int| 0 <= i < sizes@.len() ==> 2 <= #[trigger] sizes@[i] <= 64,
        n < 0x8000_0000_0000_0000,
    ensures
        sizes@.len() == 0 ==> (res matches Some(v) && v@.len() == 0),
        res is None ==> exists|k: int, prev: Seq<u64>|
            0 <= k < sizes@.len() && prev.len() == k && #[trigger] covers_ntt_primes(prev, sizes@[k], n),
        res matches Some(v) ==> {
            &&& v@.len() == sizes@.len()
            &&& forall|i: int| 0 <= i < v@.len() ==> is_ntt_prime(#[trigger] v@[i], sizes@[i], n)
            &&& forall|i: int, j: int| 0 <= i < j < v@.len() ==> v@[i] != v@[j]
        },
{
    let mut res: Vec<u64> = Vec::new();
    let mut k: usize = 0;
    while k < sizes.len()
        invariant
            k <= sizes@.len(),
            n < 0x8000_0000_0000_0000,
            forall|i: int| 0 <= i < sizes@.len() ==> 2 <= #[trigger] sizes@[i] <= 64,
            res@.len() == k,
            forall|i: int| 0 <= i < k ==> is_ntt_prime(#[trigger] res@[i], sizes@[i], n),
            forall|i: int, j: int| 0 <= i < j < k ==> res@[i] != res@[j],
        decreases sizes@.len() - k,
    {
        let size = sizes[k];
        let mut attempts: u64 = 0;
        let mut found = false;
        while attempts < 0xffff_ffff_ffff_ffffu64 && !found
            invariant
                k < sizes@.len(),
                size == sizes@[k as int],
                2 <= size <= 64,
                n < 0x8000_0000_0000_0000,
                !found ==> res@.len() == k,
                found ==> res@.len() == k + 1 && is_ntt_prime(res@[k as int], size, n)
                    && forall|i: int| 0 <= i < k ==> res@[i] != res@[k as int],
                forall|i: int| 0 <= i < k ==> is_ntt_prime(#[trigger] res@[i], sizes@[i], n),
                forall|i: int, j: int| 0 <= i < j < k ==> res@[i] != res@[j],
            decreases 0xffff_ffff_ffff_ffffu64 - attempts,
        {
            attempts = attempts + 1;
            match random_ntt_prime(size, n) {
                Some(p) => {
                    if !contains_value(&res, p) {
                        let ghost before = res@;
                        res.push(p);
                        proof {
                            assert(res@[k as int] == p);
                            assert forall|i: int| 0 <= i < k implies res@[i] != res@[k as int] by {
                                assert(res@[i] == before[i]);
                                assert(before.contains(before[i]));
                            }
                        }
                        found = true;
                    }
                },
                None => {
                    proof {
                        assert(covers_ntt_primes(res@, sizes@[k as int], n));
                    }
                    return None;
                },
            }
        }
        if !found {
            match first_ntt_prime_outside(size, n, &res) {
                Some(p) => {
                    let ghost before = res@;
                    res.push(p);
                    proof {
                        assert(res@[k as int] == p);
                        assert forall|i: int| 0 <= i < k implies res@[i] != res@[k as int] by {
                            assert(res@[i] == before[i]);
                            assert(before.contains(before[i]));
                        }
                    }
                },
                None => {
                    return None;
                },
            }
        }
        k = k + 1;
    }
    Some(res)
}

/// `m = odd_part(m) · 2^two_adicity(m)` for `m > 0`.
proof fn lemma_odd_part_decomposition(m: nat)
    requires
        m > 0,
    ensures
        odd_part(m) * pow2(two_adicity(m)) == m,
        odd_part(m) % 2 == 1,
    decreases m,
{
    if m % 2 == 0 {
        lemma_odd_part_decomposition(m / 2);
        let t = two_adicity(m / 2);
        assert(two_adicity(m) == t + 1);
        assert(odd_part(m) == odd_part(m / 2));
        lemma_pow2_unfold(t + 1);
        let o = odd_part(m / 2);
        assert(o * pow2(t + 1) == m) by (nonlinear_arith)
            requires
                pow2(t + 1) == 2 * pow2(t),
                o * pow2(t) == m / 2,
                m % 2 == 0;
    } else {
        lemma_pow2(0);
        lemma_pow0(2);
        assert(pow2(0) == 1);
        assert(m * pow2(0) == m) by (nonlinear_arith)
            requires pow2(0) == 1;
    }
}

/// Going down the squaring chain `a^(d·2^i) mod n` of a prime `n` with `a^(n-1) ≡ 1`:
/// if no term from index `j` on is `-1`, then the term at `j` is `1`.
proof fn lemma_chain_down(a: int, n: int, d: nat, r: nat, j: nat)
    requires
        spec_prime(n),
        j <= r,
        d * pow2(r) == n - 1,
        pow(a, (n - 1) as nat) % n == 1,
        forall|i: nat| j <= i < r ==> #[trigger] pow(a, d * pow2(i)) % n != n - 1,
    ensures
        pow(a, d * pow2(j)) % n == 1,
    decreases r - j,
{
    if j < r {
        lemma_chain_down(a, n, d, r, j + 1);
        lemma_square_chain(a, d, j, n);
        let x = pow(a, d * pow2(j)) % n;
        lemma_mod_bound(pow(a, d * pow2(j)), n);
        assert(pow(x, 2) == x * x) by {
            reveal_with_fuel(pow, 3);
        }
        lemma_sqrt_one_mod_prime(x, n);
    }
}

/// Every prime passes the strong probable prime test to every base it does not divide.
proof fn lemma_prime_is_sprp(n: int, a: int)
    requires
        spec_prime(n),
        n >= 3,
        a % n != 0,
    ensures
        strong_probable_prime(n, a),
{
    let m = (n - 1) as nat;
    let d = odd_part(m);
    let r = two_adicity(m);
    lemma_odd_part_decomposition(m);
    lemma_fermat(a, n);
    if !(exists|i: nat| i < r && #[trigger] pow(a, d * pow2(i)) % n == n - 1) {
        lemma_chain_down(a, n, d, r, 0);
        lemma_pow2(0);
        lemma_pow0(2);
        assert(pow2(0) == 1);
        assert(d * pow2(0) == d) by (nonlinear_arith)
            requires pow2(0) == 1;
    }
}

/// Soundness of the Miller test: it accepts every prime, so `is_prime` never rejects a prime.
pub proof fn lemma_primes_accepted(n: int)
    requires
        spec_prime(n),
        n <= u64::MAX,
    ensures
        miller_accepts(n),
{
    if !witness_seq().contains(n as u64) {
        let w = witness_seq();
        assert(w[0] == 2 && w[1] == 3 && w[2] == 5 && w[3] == 7 && w[4] == 11 && w[5] == 13);
        assert(w[6] == 17 && w[7] == 19 && w[8] == 23 && w[9] == 29 && w[10] == 31 && w[11] == 37);
        assert(n > 37) by {
            if n <= 37 {
                assert(n != 2 && n != 3 && n != 5 && n != 7 && n != 11 && n != 13) by {
                    if n == 2 { assert(w[0] == n as u64); }
                    if n == 3 { assert(w[1] == n as u64); }
                    if n == 5 { assert(w[2] == n as u64); }
                    if n == 7 { assert(w[3] == n as u64); }
                    if n == 11 { assert(w[4] == n as u64); }
                    if n == 13 { assert(w[5] == n as u64); }
                }
                assert(n != 17 && n != 19 && n != 23 && n != 29 && n != 31 && n != 37) by {
                    if n == 17 { assert(w[6] == n as u64); }
                    if n == 19 { assert(w[7] == n as u64); }
                    if n == 23 { assert(w[8] == n as u64); }
                    if n == 29 { assert(w[9] == n as u64); }
                    if n == 31 { assert(w[10] == n as u64); }
                    if n == 37 { assert(w[11] == n as u64); }
                }
                let nn = n as u64;
                assert(nn % 2 == 0 || nn % 3 == 0 || nn % 5 == 0) by (bit_vector)
                    requires
                        2 <= nn <= 37,
                        nn != 2 && nn != 3 && nn != 5 && nn != 7 && nn != 11 && nn != 13,
                        nn != 17 && nn != 19 && nn != 23 && nn != 29 && nn != 31 && nn != 37;
                if n % 2 == 0 {
                    assert(n % 2 != 0);
                } else if n % 3 == 0 {
                    assert(n % 3 != 0);
                } else {
                    assert(n % 5 != 0);
                }
            }
        }
        assert(n % 2 == 1) by {
            assert(n % 2 != 0);
            lemma_mod_bound(n, 2);
        }
        assert forall|k: int| 0 <= k < 12 implies #[trigger] strong_probable_prime(n, witness_seq()[k] as int) by {
            let a = witness_seq()[k] as int;
            assert(2 <= a <= 37);
            lemma_small_mod(a as nat, n as nat);
            lemma_prime_is_sprp(n, a);
        }
    }
}

} // verus!
