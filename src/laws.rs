use vstd::prelude::*;
use vstd::arithmetic::div_mod::*;
use vstd::arithmetic::mul::*;
use vstd::arithmetic::power::*;
use vstd::arithmetic::power2::*;
use crate::big_int::{cmp_values, lemma_seq_val_bound, lemma_seq_val_injective, wpow, BigUInt};
use crate::hex::{hex_prefix, hex_value, lemma_hex_prefix_value, lemma_words_hex_value, words_hex};
use crate::montgomery::lemma_cancel_modulus;
use crate::primality::verdict;

verus! {

/// Two integers of one width with one value are the same integer.
pub proof fn lemma_value_determines<const WORDS: usize>(x: BigUInt<WORDS>, y: BigUInt<WORDS>)
    requires
        x.value() == y.value(),
    ensures
        x == y,
{
    lemma_seq_val_injective(x.num@, y.num@);
    vstd::array::axiom_array_ext_equal(x.num, y.num);
}

/// Addition is commutative: `a + b` and `b + a` give the same integer.
pub proof fn law_add_commutative<const WORDS: usize>(
    a: BigUInt<WORDS>,
    b: BigUInt<WORDS>,
    ab: BigUInt<WORDS>,
    ba: BigUInt<WORDS>,
)
    requires
        ab.value() == (a.value() + b.value()) as int % (BigUInt::<WORDS>::modulus() as int),
        ba.value() == (b.value() + a.value()) as int % (BigUInt::<WORDS>::modulus() as int),
    ensures
        ab == ba,
{
    lemma_value_determines(ab, ba);
}

/// Addition is associative modulo `2^(64·WORDS)`: `(a + b) + c` and `a + (b + c)` give
/// the same integer.
pub proof fn law_add_associative<const WORDS: usize>(
    a: BigUInt<WORDS>,
    b: BigUInt<WORDS>,
    c: BigUInt<WORDS>,
    ab: BigUInt<WORDS>,
    ab_c: BigUInt<WORDS>,
    bc: BigUInt<WORDS>,
    a_bc: BigUInt<WORDS>,
)
    requires
        ab.value() == (a.value() + b.value()) as int % (BigUInt::<WORDS>::modulus() as int),
        ab_c.value() == (ab.value() + c.value()) as int % (BigUInt::<WORDS>::modulus() as int),
        bc.value() == (b.value() + c.value()) as int % (BigUInt::<WORDS>::modulus() as int),
        a_bc.value() == (a.value() + bc.value()) as int % (BigUInt::<WORDS>::modulus() as int),
    ensures
        ab_c == a_bc,
{
    let m = BigUInt::<WORDS>::modulus() as int;
    lemma_seq_val_bound(a.num@);
    lemma_seq_val_bound(c.num@);
    assert(m > 0);
    lemma_add_mod_noop((a.value() + b.value()) as int, c.value() as int, m);
    lemma_add_mod_noop(a.value() as int, (b.value() + c.value()) as int, m);
    lemma_mod_twice((a.value() + b.value()) as int, m);
    lemma_mod_twice((b.value() + c.value()) as int, m);
    lemma_small_mod(c.value(), m as nat);
    lemma_small_mod(a.value(), m as nat);
    lemma_value_determines(ab_c, a_bc);
}

/// Subtracting `b` after adding it gives `a` back.
pub proof fn law_add_sub_round_trip<const WORDS: usize>(
    a: BigUInt<WORDS>,
    b: BigUInt<WORDS>,
    sum: BigUInt<WORDS>,
    diff: BigUInt<WORDS>,
)
    requires
        sum.value() == (a.value() + b.value()) as int % (BigUInt::<WORDS>::modulus() as int),
        diff.value() == (sum.value() - b.value()) % (BigUInt::<WORDS>::modulus() as int),
    ensures
        diff == a,
{
    let m = BigUInt::<WORDS>::modulus() as int;
    lemma_seq_val_bound(a.num@);
    lemma_fundamental_div_mod((a.value() + b.value()) as int, m);
    let q = (a.value() + b.value()) as int / m;
    assert(sum.value() - b.value() == a.value() + (-q) * m) by (nonlinear_arith)
        requires
            a.value() + b.value() == m * q + sum.value(),
    ;
    lemma_mod_multiples_vanish(-q, a.value() as int, m);
    lemma_mul_is_commutative(-q, m);
    lemma_small_mod(a.value(), m as nat);
    lemma_value_determines(diff, a);
}

/// Shifting right by `k` and back left clears the low `k` bits and keeps the rest.
pub proof fn law_shift_round_trip<const WORDS: usize>(
    x: BigUInt<WORDS>,
    k: nat,
    down: BigUInt<WORDS>,
    back: BigUInt<WORDS>,
)
    requires
        0 < k < 64,
        down.value() == x.value() / pow2(k),
        back.value() == (down.value() * pow2(k)) as int % (BigUInt::<WORDS>::modulus() as int),
    ensures
        back.value() == x.value() - x.value() % pow2(k),
{
    let m = BigUInt::<WORDS>::modulus() as int;
    let p = pow2(k) as int;
    lemma_pow2_pos(k);
    lemma_seq_val_bound(x.num@);
    lemma_fundamental_div_mod(x.value() as int, p);
    lemma_mod_bound(x.value() as int, p);
    lemma_mul_is_commutative(p, down.value() as int);
    lemma_small_mod((down.value() * p) as nat, m as nat);
}

/// Comparison is a total order on values, agrees in both directions, and reports
/// equality exactly when the two integers are the same.
pub proof fn law_total_order<const WORDS: usize>(a: BigUInt<WORDS>, b: BigUInt<WORDS>)
    ensures
        (a.value() < b.value()) as int + (a.value() == b.value()) as int + (a.value()
            > b.value()) as int == 1,
        (cmp_values(a.value(), b.value()) == core::cmp::Ordering::Less) == (cmp_values(
            b.value(),
            a.value(),
        ) == core::cmp::Ordering::Greater),
        (cmp_values(a.value(), b.value()) == core::cmp::Ordering::Equal) == (a == b),
{
    if a.value() == b.value() {
        lemma_value_determines(a, b);
    }
}

/// Montgomery multiplication by the Montgomery form of one, `R mod n`, gives back any
/// `a < n`.
pub proof fn law_montgomery_identity<const WORDS: usize>(
    a: BigUInt<WORDS>,
    one_m: BigUInt<WORDS>,
    n: BigUInt<WORDS>,
    r: BigUInt<WORDS>,
)
    requires
        n.value() % 2 == 1,
        a.value() < n.value(),
        one_m.value() == BigUInt::<WORDS>::modulus() as int % (n.value() as int),
        r.value() < n.value(),
        (r.value() * BigUInt::<WORDS>::modulus()) as int % (n.value() as int) == (a.value()
            * one_m.value()) as int % (n.value() as int),
    ensures
        r == a,
{
    let nv = n.value() as int;
    let rr = BigUInt::<WORDS>::modulus() as int;
    lemma_mul_mod_noop_right(a.value() as int, rr, nv);
    lemma_mul_is_commutative(a.value() as int, rr);
    lemma_cancel_modulus(r.value() as int, a.value() as int, nv, WORDS as nat);
    lemma_small_mod(r.value(), nv as nat);
    lemma_small_mod(a.value(), nv as nat);
    lemma_value_determines(r, a);
}

/// Raising to the power zero gives `1 mod n`, and to the power one gives `a mod n`.
pub proof fn law_pow_mod_small_exponents(a: nat, n: nat, r0: nat, r1: nat)
    requires
        n > 0,
        r0 == pow(a as int, 0) % (n as int),
        r1 == pow(a as int, 1) % (n as int),
    ensures
        r0 == 1int % (n as int),
        r1 == (a as int) % (n as int),
{
    lemma_pow0(a as int);
    lemma_pow1(a as int);
}

/// Four is composite and two and three are prime, whatever bases the rounds use.
pub proof fn law_small_inputs(bases: Seq<nat>)
    ensures
        !verdict(4, bases),
        verdict(2, bases),
        verdict(3, bases),
{
}

/// Parsing the fixed-width hexadecimal text of `x` gives `x` back.
pub proof fn law_hex_round_trip<const WORDS: usize>(x: BigUInt<WORDS>, text: Seq<char>, y: BigUInt<WORDS>)
    requires
        text == hex_prefix() + words_hex(x.num@),
        y.value() == hex_value(text) as int % (BigUInt::<WORDS>::modulus() as int),
    ensures
        y == x,
{
    lemma_words_hex_value(x.num@);
    lemma_hex_prefix_value(words_hex(x.num@));
    lemma_seq_val_bound(x.num@);
    lemma_small_mod(x.value(), BigUInt::<WORDS>::modulus());
    lemma_value_determines(y, x);
}

} // verus!
