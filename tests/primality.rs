use miller_rabin::{miller_rabin, miller_rabin_with_bases, BigUInt};

const TIMES: usize = 100;

fn small(v: u64) -> BigUInt<1> {
    BigUInt::<1>::from_word(v)
}

/// `2^(64·W) − c`.
fn below_top<const W: usize>(c: u64) -> BigUInt<W> {
    BigUInt::<W>::zero().sub(&BigUInt::<W>::from_word(c))
}

#[test]
fn test_miller_rabin() {
    assert!(miller_rabin(&small(2), TIMES));
    assert!(miller_rabin(&small(3), TIMES));
    assert!(miller_rabin(&small(5), TIMES));
    assert!(miller_rabin(&small(7), TIMES));

    assert!(!miller_rabin(&small(4), TIMES));
}

#[test]
fn test_ecc_curves() {
    // big primes of well known ECC curves

    // Curve 25519
    let p25519 = BigUInt::<4>::one().shl(63).shl(63).shl(63).shl(63).shl(3).sub(&BigUInt::<4>::from_word(19));
    assert!(miller_rabin(&p25519, TIMES));
    // NIST Curve P-192
    let one = BigUInt::<3>::one();
    let p192 = BigUInt::<3>::zero().sub(&one.shl(32).shl(32)).sub(&one);
    assert!(miller_rabin(&p192, TIMES));
    // NIST Curve P-521
    let p521 = BigUInt::<9>::from_hex_str(&format!("1{}", "f".repeat(130)));
    assert!(miller_rabin(&p521, TIMES));
}

#[test]
fn test_generated_prime() {
    // 2^128 - 173, 2^1024 - 105, 2^2048 - 1557, 2^4096 - 2549 are prime
    assert!(miller_rabin(&below_top::<2>(173), TIMES));
    assert!(miller_rabin(&below_top::<16>(105), TIMES));
    assert!(miller_rabin(&below_top::<32>(1557), 10));
    assert!(miller_rabin(&below_top::<64>(2549), 10));
}

#[test]
fn test_generated_composite() {
    // (2^64 - 59)^2, a 128-bit square of a prime
    let n = BigUInt::<2>::from_hex_str("ffffffffffffff8a0000000000000d99");
    assert!(!miller_rabin(&n, TIMES));
}

#[test]
fn prime_128_bits_ten_and_hundred_rounds() {
    let p = below_top::<2>(159);
    assert!(miller_rabin(&p, 10));
    assert!(miller_rabin(&p, 100));
}

#[test]
fn small_inputs_for_any_round_count() {
    for k in [0usize, 1, 2, 50] {
        assert!(!miller_rabin(&small(0), k));
        assert!(!miller_rabin(&small(1), k));
        assert!(miller_rabin(&small(2), k));
        assert!(miller_rabin(&small(3), k));
        assert!(!miller_rabin(&small(4), k));
        assert!(!miller_rabin(&small(1000), k));
    }
}

#[test]
fn composites_never_reported_prime() {
    // Carmichael numbers, strong pseudoprimes to base two, and plain composites
    let composites = [
        9u64, 15, 21, 25, 49, 91, 561, 1105, 1729, 2047, 2465, 2821, 3277, 4033, 6601, 8911,
        3215031751, 0xffff_fffb_0000_0005,
    ];
    for &c in composites.iter() {
        for _ in 0..20 {
            assert!(!miller_rabin(&small(c), 40), "{} reported prime", c);
        }
    }
}

#[test]
fn primes_reported_prime() {
    for p in [5u64, 7, 11, 13, 97, 7919, 1000003, 0xffff_ffff_ffff_ffc5] {
        assert!(miller_rabin(&small(p), 50));
    }
}

#[test]
fn fixed_bases_decide_as_the_rounds_say() {
    let n = small(2047); // 23 · 89, a strong pseudoprime to base two
    assert!(miller_rabin_with_bases(&n, &vec![small(2)]));
    assert!(!miller_rabin_with_bases(&n, &vec![small(3)]));
    assert!(!miller_rabin_with_bases(&n, &vec![small(2), small(3)]));
    // bases out of [2, n - 2] are no rounds
    assert!(miller_rabin_with_bases(&n, &vec![small(0), small(1), small(2046), small(5000)]));
    assert!(miller_rabin_with_bases(&small(7919), &vec![small(2), small(3), small(5)]));
    assert!(!miller_rabin_with_bases(&small(4), &vec![]));
    assert!(miller_rabin_with_bases(&small(3), &vec![]));
}
