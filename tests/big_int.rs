use miller_rabin::{extended_gcd, inverse_pow2_bits, BigUInt};

const C: usize = 2;

#[test]
fn equals() {
    assert_eq!(BigUInt::<C>::zero(), BigUInt::<C>::zero());
    assert_eq!(BigUInt::<C>::one(), BigUInt::<C>::one());
    assert_ne!(BigUInt::<C>::zero(), BigUInt::<C>::one());
    assert_ne!(BigUInt::<C>::zero(), BigUInt::<C>::one());
}

#[test]
fn add() {
    assert_eq!(BigUInt::<C>::zero().add_word(1), BigUInt::<C>::one());
    assert_eq!(BigUInt::<C>::zero().add_word(2), BigUInt::<C>::two());
    assert_eq!(BigUInt::<C>::one().add_word(0), BigUInt::<C>::one());
    assert_eq!(BigUInt::<C>::one().add_word(1), BigUInt::<C>::two());
    assert_eq!(
        BigUInt::<C>::one().add(BigUInt::<C>::one()),
        BigUInt::<C>::two()
    );
}

#[test]
fn shl() {
    assert_eq!(BigUInt::<C>::zero().shl(1), BigUInt::<C>::zero());
    assert_eq!(BigUInt::<C>::zero().shl(2), BigUInt::<C>::zero());
    assert_eq!(BigUInt::<C>::one().shl(0), BigUInt::<C>::one());
    assert_eq!(BigUInt::<C>::one().shl(1), BigUInt::<C>::two());
    assert_eq!(BigUInt::<C>::one().shl(3), BigUInt::<C>::two().shl(2));
}

#[test]
fn shr() {
    assert_eq!(BigUInt::<C>::zero().shr(1), BigUInt::<C>::zero());
    assert_eq!(BigUInt::<C>::zero().shr(2), BigUInt::<C>::zero());
    assert_eq!(BigUInt::<C>::one().shr(0), BigUInt::<C>::one());
    assert_eq!(BigUInt::<C>::one().shr(1), BigUInt::<C>::zero());
    assert_eq!(BigUInt::<C>::two().shr(1), BigUInt::<C>::one());
}

#[test]
fn from_hex_str() {
    assert_eq!(BigUInt::<C>::from_hex_str("0"), BigUInt::<C>::zero());
    assert_eq!(BigUInt::<C>::from_hex_str("1"), BigUInt::<C>::one());
    assert_eq!(BigUInt::<C>::from_hex_str("2"), BigUInt::<C>::two());
    assert_eq!(BigUInt::<C>::from_hex_str("10"), BigUInt::<C>::one().shl(4));
    assert_eq!(BigUInt::<C>::from_hex_str("100"), BigUInt::<C>::one().shl(8));
}

#[test]
fn test_inverse_pow2_bits() {
    assert_eq!(inverse_pow2_bits(0x3a79c436_46842eff), 0x3857b70d_56252f01);
    assert_eq!(inverse_pow2_bits(0xffffffff_ffffffed), 0x86bca1af_286bca1b);
}

#[test]
fn inverse_times_word_is_minus_one() {
    for n in [1u64, 3, 5, 0x3a79c436_46842eff, 0xffffffff_ffffffff] {
        assert_eq!(n.wrapping_mul(inverse_pow2_bits(n)), u64::MAX);
    }
}

#[test]
fn extended_gcd_bezout() {
    let (x, y) = extended_gcd(240, 46);
    assert_eq!(240u64.wrapping_mul(x).wrapping_add(46u64.wrapping_mul(y)), 2);
    let (x, y) = extended_gcd(0, 9);
    assert_eq!((x, y), (0, 1));
    assert_eq!(extended_gcd(3, 5), (2, u64::MAX));
    let (x, y) = extended_gcd(17, 5);
    assert_eq!(17u64.wrapping_mul(x).wrapping_add(5u64.wrapping_mul(y)), 1);
}

#[test]
fn from_hex_str_letters_both_cases() {
    assert_eq!(BigUInt::<C>::from_hex_str("ff"), BigUInt::<C>::from_word(255));
    assert_eq!(BigUInt::<C>::from_hex_str("FF"), BigUInt::<C>::from_word(255));
    assert_eq!(BigUInt::<C>::from_hex_str("aBcD"), BigUInt::<C>::from_word(0xabcd));
    assert_eq!(
        BigUInt::<C>::from_hex_str("123456789abcdef0fedcba9876543210"),
        BigUInt { num: [0xfedcba9876543210, 0x123456789abcdef0] }
    );
}

#[test]
fn from_hex_str_keeps_low_digits_when_too_long() {
    assert_eq!(
        BigUInt::<1>::from_hex_str("1234567890abcdef01"),
        BigUInt::<1>::from_word(0x567890abcdef01)
            .add(BigUInt::<1>::from_word(0x34).shl(56))
    );
}

#[test]
fn add_carries_and_wraps() {
    let max = BigUInt::<C> { num: [u64::MAX, u64::MAX] };
    assert_eq!(max.add_word(1), BigUInt::<C>::zero());
    assert_eq!(max.add(BigUInt::<C>::two()), BigUInt::<C>::one());
    let low = BigUInt::<C> { num: [u64::MAX, 0] };
    assert_eq!(low.add_word(1), BigUInt::<C> { num: [0, 1] });
    assert_eq!(low.add(low), BigUInt::<C> { num: [u64::MAX - 1, 1] });
}

#[test]
fn sub_borrows_and_wraps() {
    let x = BigUInt::<C> { num: [0, 1] };
    assert_eq!(x.sub(&BigUInt::<C>::one()), BigUInt::<C> { num: [u64::MAX, 0] });
    assert_eq!(
        BigUInt::<C>::zero().sub(&BigUInt::<C>::one()),
        BigUInt::<C> { num: [u64::MAX, u64::MAX] }
    );
    let a = BigUInt::<C>::from_hex_str("1234567890abcdef1234567890abcdef");
    let b = BigUInt::<C>::from_hex_str("fedcba0987654321");
    assert_eq!(a.add(b).sub(&b), a);
}

#[test]
fn shifts_cross_words() {
    let x = BigUInt::<C> { num: [0x8000_0000_0000_0001, 0] };
    assert_eq!(x.shl(1), BigUInt::<C> { num: [2, 1] });
    assert_eq!(BigUInt::<C> { num: [2, 1] }.shr(1), x);
    let top = BigUInt::<C> { num: [0, 0x8000_0000_0000_0000] };
    assert_eq!(top.shl(1), BigUInt::<C>::zero());
    let y = BigUInt::<C>::from_hex_str("123456789abcdef0fedcba9876543217");
    assert_eq!(
        y.shr(4).shl(4),
        BigUInt::<C>::from_hex_str("123456789abcdef0fedcba9876543210")
    );
}

#[test]
fn compare_by_value() {
    let small = BigUInt::<C> { num: [u64::MAX, 0] };
    let big = BigUInt::<C> { num: [0, 1] };
    assert_eq!(small.cmp(&big), std::cmp::Ordering::Less);
    assert_eq!(big.cmp(&small), std::cmp::Ordering::Greater);
    assert_eq!(big.cmp(&big), std::cmp::Ordering::Equal);
    assert!(small < big);
    assert!(big >= small);
}

#[test]
fn is_zero_and_low_bit() {
    assert!(BigUInt::<C>::zero().is_zero());
    assert!(!BigUInt::<C> { num: [0, 1] }.is_zero());
    assert!(BigUInt::<C>::three().low_bit());
    assert!(!BigUInt::<C>::two().low_bit());
}

#[test]
fn hex_string_is_fixed_width() {
    assert_eq!(BigUInt::<C>::zero().to_hex_string(), format!("0x{}", "0".repeat(32)));
    assert_eq!(
        BigUInt::<C>::from_word(0xab).to_hex_string(),
        "0x000000000000000000000000000000AB"
    );
    assert_eq!(
        BigUInt::<C> { num: [0xfedcba9876543210, 0x1] }.to_hex_string(),
        "0x0000000000000001FEDCBA9876543210"
    );
}

#[test]
fn hex_string_round_trip() {
    for x in [
        BigUInt::<C>::zero(),
        BigUInt::<C>::three(),
        BigUInt::<C> { num: [u64::MAX, u64::MAX] },
        BigUInt::<C> { num: [0x0123456789abcdef, 0xfedcba9876543210] },
    ] {
        assert_eq!(BigUInt::<C>::from_hex_str(&x.to_hex_string()), x);
    }
}
