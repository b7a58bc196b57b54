use vstd::prelude::*;
use vstd::arithmetic::div_mod::*;
use vstd::arithmetic::mul::*;
use vstd::arithmetic::power2::*;
use crate::big_int::base;

verus! {

/// Greatest common divisor by Euclid's recursion.
pub open spec fn gcd(a: nat, b: nat) -> nat
    decreases a,
{
    if a == 0 {
        b
    } else {
        gcd(b % a, a)
    }
}

/// The gcd divides both arguments, and is positive unless both are zero.
pub proof fn lemma_gcd_divides(a: nat, b: nat)
    ensures
        a > 0 || b > 0 ==> gcd(a, b) > 0,
        gcd(a, b) > 0 ==> a % gcd(a, b) == 0 && b % gcd(a, b) == 0,
        gcd(a, b) <= if a > b { a } else { b },
    decreases a,
{
    if a == 0 {
        if b > 0 {
            lemma_mod_self_0(b as int);
            lemma_mod_of_zero(b as int);
        }
    } else {
        let r = b % a;
        lemma_mod_bound(b as int, a as int);
        lemma_gcd_divides(r, a);
        let g = gcd(r, a);
        assert(g > 0);
        lemma_fundamental_div_mod(b as int, a as int);
        lemma_divisible_combination(a as int, (b / a) as int, r as int, g as int);
        assert(b == a * (b / a) + r);
    }
}

proof fn lemma_mod_of_zero(g: int)
    requires
        g > 0,
    ensures
        0int % g == 0,
{
}

/// If `g` divides `a` and `c`, it divides `a·k + c`.
proof fn lemma_divisible_combination(a: int, k: int, c: int, g: int)
    requires
        g > 0,
        a % g == 0,
        c % g == 0,
    ensures
        (a * k + c) % g == 0,
{
    lemma_fundamental_div_mod(a, g);
    lemma_fundamental_div_mod(c, g);
    let qa = a / g;
    let qc = c / g;
    assert(a * k + c == g * (qa * k + qc)) by (nonlinear_arith)
        requires
            a == g * qa,
            c == g * qc,
    ;
    lemma_mod_multiples_basic(qa * k + qc, g);
    lemma_mul_is_commutative(g, qa * k + qc);
}

/// An odd number that divides a power of two is one.
proof fn lemma_odd_divisor_of_pow2(g: nat, k: nat)
    requires
        g % 2 == 1,
        pow2(k) % g == 0,
    ensures
        g == 1,
    decreases k,
{
    if k == 0 {
        lemma2_to64();
        if g > 1 {
            lemma_small_mod(1, g);
        }
    } else {
        let p = pow2((k - 1) as nat);
        lemma_pow2_unfold(k);
        assert(pow2(k) == 2 * p);
        lemma_fundamental_div_mod(pow2(k) as int, g as int);
        let m = pow2(k) as int / g as int;
        assert(2 * p == g * m);
        lemma_fundamental_div_mod(m, 2);
        let j = m / 2;
        if m % 2 == 1 {
            lemma_fundamental_div_mod(g as int, 2);
            let i = g as int / 2;
            assert(g * m == 2 * (2 * i * j + i + j) + 1) by (nonlinear_arith)
                requires
                    g == 2 * i + 1,
                    m == 2 * j + 1,
            ;
            assert(false);
        }
        assert(m == 2 * j);
        assert(p == g * j) by (nonlinear_arith)
            requires
                2 * p == g * m,
                m == 2 * j,
        ;
        lemma_mod_multiples_basic(j, g as int);
        lemma_mul_is_commutative(j, g as int);
        lemma_odd_divisor_of_pow2(g, (k - 1) as nat);
    }
}

/// An odd word is coprime to the word base.
proof fn lemma_odd_coprime_base(n: nat)
    requires
        n % 2 == 1,
    ensures
        gcd(n, base()) == 1,
{
    lemma2_to64();
    lemma2_to64_rest();
    assert(pow2(64) == base());
    lemma_gcd_divides(n, base());
    let g = gcd(n, base());
    if g % 2 == 0 {
        lemma_fundamental_div_mod(n as int, g as int);
        lemma_fundamental_div_mod(g as int, 2);
        let q = n as int / g as int;
        let h = g as int / 2;
        assert(n == 2 * (h * q)) by (nonlinear_arith)
            requires
                n == g * q,
                g == 2 * h,
        ;
        lemma_mod_multiples_basic(h * q, 2);
        lemma_mul_is_commutative(h * q, 2);
        assert(false);
    }
    lemma_odd_divisor_of_pow2(g, 64);
}

/// Congruent factors give congruent linear combinations modulo `m`.
proof fn lemma_mod_mul_add_congruent(a: int, x: int, y: int, c: int, m: int)
    requires
        m > 0,
        x % m == y % m,
    ensures
        (a * x + c) % m == (a * y + c) % m,
{
    lemma_add_mod_noop(a * x, c, m);
    lemma_add_mod_noop(a * y, c, m);
    lemma_mul_mod_noop_right(a, x, m);
    lemma_mul_mod_noop_right(a, y, m);
}

/// The pair that extended Euclid computes on words: `(0, 1)` when `a` is zero, else
/// `(y1 − (b / a)·x1, x1)` with wrapping arithmetic, from the pair `(x1, y1)` of
/// `(b mod a, a)`.
pub open spec fn extended_gcd_pair(a: u64, b: u64) -> (u64, u64)
    decreases a,
{
    if a == 0 {
        (0, 1)
    } else {
        let (x1, y1) = extended_gcd_pair(b % a, a);
        let m = base() as int;
        (((y1 - ((b / a) * x1) % m) % m) as u64, x1)
    }
}

/// Extended Euclid on words: `(x, y)` with `a·x + b·y ≡ gcd(a, b)` modulo the word base.
/// The coefficients are computed with wrapping arithmetic, so only their residues
/// modulo the word base are meaningful.
pub fn extended_gcd(a: u64, b: u64) -> (r: (u64, u64))
    ensures
        r == extended_gcd_pair(a, b),
        (a * r.0 + b * r.1) % (base() as int) == gcd(a as nat, b as nat),
    decreases a,
{
    proof {
        lemma_gcd_divides(a as nat, b as nat);
    }
    if a == 0 {
        proof {
            lemma_small_mod(b as nat, base());
        }
        return (0, 1);
    }
    let (x1, y1) = extended_gcd(b % a, a);
    let q = b / a;
    let x = y1.wrapping_sub(q.wrapping_mul(x1));
    let y = x1;
    proof {
        let m = base() as int;
        let (ai, bi, qi, ri) = (a as int, b as int, q as int, (b % a) as int);
        lemma_fundamental_div_mod(bi, ai);
        assert(bi == ai * qi + ri);
        let w = (qi * x1) % m;
        assert(q.wrapping_mul(x1) as int == w);
        assert(x as int == (y1 - w) % m);
        // x ≡ y1 - q·x1 (mod m)
        lemma_mod_twice(y1 - qi * x1, m);
        lemma_sub_mod_noop_right(y1 as int, qi * x1, m);
        assert(x as int % m == (y1 - qi * x1) % m) by {
            lemma_mod_twice(y1 - w, m);
            lemma_small_mod(x as nat, m as nat);
        }
        lemma_mod_mul_add_congruent(ai, x as int, y1 - qi * x1, bi * x1, m);
        assert(ai * (y1 - qi * x1) + bi * x1 == ri * x1 + ai * y1) by (nonlinear_arith)
            requires
                bi == ai * qi + ri,
        ;
    }
    (x, y)
}

/// The word `−num⁻¹ mod 2^64` of an odd word `num`: the constant that makes
/// Montgomery reduction clear the low word.
pub fn inverse_pow2_bits(num: u64) -> (r: u64)
    requires
        num % 2 == 1,
    ensures
        (num * r) % (base() as int) == base() - 1,
{
    proof {
        assert(!num == 0xffff_ffff_ffff_ffffu64 - num) by (bit_vector);
    }
    // b % a = (-a) % a, with b = 2^64 and a = num
    let neg = !num + 1;
    let a = neg % num;
    let (x1, y1) = extended_gcd(a, num);
    // b / a, wrapped: exactly b / a unless num is one
    let q = (neg / num).wrapping_add(1);
    let x = y1.wrapping_sub(q.wrapping_mul(x1));
    proof {
        let m = base() as int;
        let (n, ai, qi) = (num as int, a as int, q as int);
        assert(neg as int == m - n);
        lemma_fundamental_div_mod(m - n, n);
        lemma_fundamental_div_mod(m, n);
        lemma_mod_add_multiples_vanish(m - n, n);
        assert(ai == m % n);
        lemma_div_plus_one(m - n, n);
        assert(m / n == (m - n) / n + 1);
        // q ≡ m / n (mod m)
        assert(qi % m == (m / n) % m) by {
            lemma_small_mod(q as nat, m as nat);
        }
        // num·(m/n) = m - a
        assert(n * (m / n) == m - ai);
        lemma_odd_coprime_base(num as nat);
        assert(gcd(a as nat, num as nat) == 1);
        assert((ai * x1 + n * y1) % m == 1);
        let w = (qi * x1) % m;
        assert(x as int == (y1 - w) % m);
        assert(x as int % m == (y1 - qi * x1) % m) by {
            lemma_mod_twice(y1 - w, m);
            lemma_small_mod(x as nat, m as nat);
            lemma_sub_mod_noop_right(y1 as int, qi * x1, m);
        }
        lemma_mod_mul_add_congruent(n, x as int, y1 - qi * x1, 0, m);
        lemma_mul_mod_noop_right(x1 as int, qi, m);
        lemma_mul_mod_noop_right(x1 as int, m / n, m);
        assert((qi * x1) % m == ((m / n) * x1) % m) by {
            lemma_mul_is_commutative(qi, x1 as int);
            lemma_mul_is_commutative(m / n, x1 as int);
        }
        assert(n * (y1 - qi * x1) == n * y1 - n * qi * x1) by (nonlinear_arith);
        lemma_mod_mul_add_congruent(-n, qi * x1, (m / n) * x1, n * y1, m);
        assert(-n * ((m / n) * x1) + n * y1 == ai * x1 + n * y1 + (-x1) * m) by (nonlinear_arith)
            requires
                n * (m / n) == m - ai,
        ;
        lemma_mod_multiples_vanish(-x1, ai * x1 + n * y1, m);
        assert((n * x) % m == 1) by (nonlinear_arith)
            requires
                (n * x) % m == (n * (y1 - qi * x1)) % m,
                (-n * (qi * x1) + n * y1) % m == (-n * ((m / n) * x1) + n * y1) % m,
                (-n * ((m / n) * x1) + n * y1) % m == (ai * x1 + n * y1 + (-x1) * m) % m,
                (ai * x1 + n * y1 + (-x1) * m) % m == (ai * x1 + n * y1) % m,
                (ai * x1 + n * y1) % m == 1,
        ;
        assert(x != 0) by {
            if x == 0 {
                assert((n * 0) % m == 0);
            }
        }
        assert(!x == 0xffff_ffff_ffff_ffffu64 - x) by (bit_vector);
    }
    let r = !x + 1;
    proof {
        let m = base() as int;
        let n = num as int;
        assert(r as int == m - x);
        assert(n * (m - x) == n * m - n * x) by (nonlinear_arith);
        lemma_mod_multiples_vanish(n, -(n * x), m);
        lemma_mul_is_commutative(n, m);
        lemma_fundamental_div_mod(n * x, m);
        let k = (n * x) / m;
        assert(-(n * x) == (-k - 1) * m + (m - 1)) by (nonlinear_arith)
            requires
                n * x == m * k + 1,
        ;
        lemma_mod_multiples_vanish(-k - 1, m - 1, m);
        lemma_small_mod((m - 1) as nat, m as nat);
    }
    r
}

} // verus!
