use miller_rabin::BigUInt;

const C: usize = 2;

fn big(v: u64) -> BigUInt<C> {
    BigUInt::<C>::from_word(v)
}

#[test]
fn r2n_small_modulus() {
    // 2^256 mod 7 = 2 (2^3 = 1 mod 7, 256 = 3·85 + 1)
    assert_eq!(big(7).r2n(), big(2));
    // 2^256 mod 1000003
    assert_eq!(big(1000003).r2n(), big(156649));
    assert_eq!(big(1).r2n(), big(0));
}

#[test]
fn montgomery_constant_of_modulus() {
    let n = BigUInt::<C>::from_hex_str("fffffffffffffffffffffffffffffff1");
    let mc = n.calc_montgomery_constant();
    assert_eq!(mc.wrapping_mul(n.num[0]), u64::MAX);
}

#[test]
fn monty_mul_by_montgomery_one() {
    let n = BigUInt::<C>::from_hex_str("ffffffffffffffffffffffffffffff61");
    let mc = n.calc_montgomery_constant();
    let r2 = n.r2n();
    let one_m = r2.monty_mul(&BigUInt::<C>::one(), &n, mc);
    let a = BigUInt::<C>::from_hex_str("123456789abcdef0fedcba9876543210");
    assert_eq!(a.monty_mul(&one_m, &n, mc), a);
    assert_eq!(big(5).monty_mul(&one_m, &n, mc), big(5));
}

#[test]
fn pow_mod_values() {
    let n = big(7);
    assert_eq!(big(3).pow_mod(&big(5), &n), big(5));
    assert_eq!(big(10).pow_mod(&big(0), &n), big(1));
    assert_eq!(big(10).pow_mod(&big(1), &n), big(3));
    assert_eq!(big(2).pow_mod(&big(100), &big(1000003)), big(253109));
    assert_eq!(big(4).pow_mod(&big(3), &big(1)), big(0));
}

#[test]
fn pow_mod_near_full_width() {
    // n = 2^128 - 159 is prime, so a^(n-1) = 1 (mod n)
    let n = BigUInt::<C>::zero().sub(&big(159));
    let e = n.sub(&big(1));
    assert_eq!(big(3).pow_mod(&e, &n), big(1));
    let a = BigUInt::<C>::from_hex_str("fedcba9876543210123456789abcdef0");
    assert_eq!(a.pow_mod(&e, &n), big(1));
}
