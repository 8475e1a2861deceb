use rsckks::primes::{distinct_random_ntt_primes, is_prime, mod_pow, ntt_candidate, random_ntt_prime};

#[test]
fn small_values() {
    assert!(!is_prime(0));
    assert!(!is_prime(1));
    assert!(is_prime(2));
    assert!(is_prime(3));
    assert!(!is_prime(4));
    assert!(is_prime(5));
}

#[test]
fn known_primes() {
    let primes = [
        7,
        13,
        97,
        541,
        7919,
        104729,
        1299709,
        2147483647,     // Mersenne prime M31
        67280421310721, // prime factor of Fermat's number F6
    ];
    for p in primes {
        assert!(is_prime(p), "{p} should be prime");
    }
}

#[test]
fn pseudoprimes() {
    let pseudoprimes = [
        9,
        15,
        21,
        25,
        33,
        35,
        49,
        85,
        91,
        121,
        133,
        169,
        217,
        221,
        341,
        545,
        781,
        1687,
        2047, // least strong pseudoprimes to small bases
        25326001,
        161304001,
        960946321,
        1157839381,
        3215031751,
        3697278427,
        5764643587,
        6770862367,
        14386156093,
        15579919981,
        18459366157,
        19887974881,
        21276028621,
        27716349961,
        29118033181,
        37131467521,
        41752650241,
        42550716781,
        43536545821, // strong pseudoprimes to bases 2, 3 and 5
    ];
    for c in pseudoprimes {
        assert!(!is_prime(c), "{c} should be composite");
    }
}

#[test]
fn large_u64() {
    // Largest prime below 2^64
    assert!(is_prime(u64::MAX - 58));
    assert!(!is_prime(u64::MAX)); // 2^64 - 1 = 3 * 5 * 17 * ...
}

#[test]
fn distinct_prime_generator() {
    let count = 10;
    let sizes = vec![55u32; count];
    let primes = distinct_random_ntt_primes(&sizes, 256).unwrap();
    assert_eq!(
        primes.len(),
        count,
        "generated {} number of primes instead of {count}",
        primes.len()
    );
}

#[test]
fn products_of_primes_are_composite() {
    let cases: [(u64, u64); 4] = [(65537, 65537), (2147483647, 3), (4294967291, 4294967279), (97, 101)];
    for (a, b) in cases {
        assert!(is_prime(a) && is_prime(b));
        assert!(!is_prime(a * b), "{} should be composite", a * b);
    }
}

#[test]
fn mod_pow_values() {
    assert_eq!(mod_pow(2, 10, 1000), 24);
    assert_eq!(mod_pow(3, 0, 7), 1);
    assert_eq!(mod_pow(5, 3, 1), 0);
    assert_eq!(mod_pow(u64::MAX, 2, u64::MAX - 1), 1);
    // Fermat: a^(p-1) = 1 mod p
    assert_eq!(mod_pow(123456789, 998244352, 998244353), 1);
}

#[test]
fn random_ntt_prime_has_size_and_root() {
    for size in [20u32, 40, 55, 61] {
        let p = random_ntt_prime(size, 256).unwrap();
        assert!(is_prime(p));
        assert!(p >= 1u64 << (size - 1));
        assert!(size == 64 || p < 1u64 << size);
        assert_eq!((p - 1) % 512, 0);
    }
}

#[test]
fn distinct_primes_match_sizes() {
    let sizes = [30u32, 40, 30, 61, 40];
    let primes = distinct_random_ntt_primes(&sizes, 16).unwrap();
    assert_eq!(primes.len(), sizes.len());
    for (i, p) in primes.iter().enumerate() {
        assert!(is_prime(*p));
        assert!(*p >= 1u64 << (sizes[i] - 1) && *p < 1u64 << sizes[i]);
        assert_eq!((*p - 1) % 32, 0);
        for q in &primes[i + 1..] {
            assert_ne!(p, q);
        }
    }
}

#[test]
fn candidates_from_draws() {
    assert_eq!(ntt_candidate(0, 10), 513);
    assert_eq!(ntt_candidate(0xff, 4), 15);
    assert_eq!(ntt_candidate(0x1234_5678, 16), 0x5679 | 0x8000);
    assert_eq!(ntt_candidate(u64::MAX, 64), u64::MAX);
    assert_eq!(ntt_candidate(0, 64), (1u64 << 63) | 1);
}

#[test]
fn no_sizes_no_primes() {
    assert_eq!(distinct_random_ntt_primes(&[], 16), Some(vec![]));
}
