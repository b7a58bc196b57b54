use vstd::prelude::*;
use vstd::arithmetic::div_mod::*;
use vstd::arithmetic::power::*;
use vstd::arithmetic::power2::*;
use num_bigint::RandBigInt;
use crate::big_int::{cmp_values, lemma_seq_val_split, lemma_seq_val_zero, seq_val, wpow, BigUInt};
use crate::montgomery::lemma_wpow_pow2;

verus! {

/// How many times a base is drawn for one round before falling back to base two.
pub const MAX_DRAWS: usize = 256;

/// The number of times two divides `m` (zero for zero).
pub open spec fn two_adicity(m: nat) -> nat
    decreases m,
{
    if m > 0 && m % 2 == 0 {
        1 + two_adicity(m / 2)
    } else {
        0
    }
}

/// `m` with every factor two taken out.
pub open spec fn odd_part(m: nat) -> nat
    decreases m,
{
    if m > 0 && m % 2 == 0 {
        odd_part(m / 2)
    } else {
        m
    }
}

/// `a` is no witness of compositeness for `n`: with `n − 1 = 2^s·d` and `d` odd, either
/// `a^d ≡ 1`, or `a^(d·2^k) ≡ n − 1 (mod n)` for some `k < s`.
pub open spec fn passes_base(n: nat, a: nat) -> bool {
    let d = odd_part((n - 1) as nat);
    let s = two_adicity((n - 1) as nat);
    pow(a as int, d) % (n as int) == 1 || exists|k: nat|
        k < s && #[trigger] (pow(a as int, d * pow2(k)) % (n as int)) == n - 1
}

/// `a` is a base that a round may use for `n`: `2 ≤ a ≤ n − 2`.
pub open spec fn base_in_range(n: nat, a: nat) -> bool {
    2 <= a && a + 2 <= n
}

/// The verdict on `n` of a test whose rounds use the bases `bases`; bases out of range
/// are no rounds.
pub open spec fn verdict(n: nat, bases: Seq<nat>) -> bool {
    if n < 2 {
        false
    } else if n <= 3 {
        true
    } else if n % 2 == 0 {
        false
    } else {
        forall|i: int|
            0 <= i < bases.len() && base_in_range(n, #[trigger] bases[i]) ==> passes_base(n, bases[i])
    }
}

/// `2^two_adicity(m)` divides into `m`, so it is at most `m`.
proof fn lemma_two_adicity_bound(m: nat)
    requires
        m > 0,
    ensures
        pow2(two_adicity(m)) <= m,
    decreases m,
{
    if m % 2 == 0 {
        lemma_two_adicity_bound(m / 2);
        lemma_pow2_unfold(1 + two_adicity(m / 2));
    } else {
        lemma2_to64();
    }
}

/// Writes `m = 2^r·d` with `d` odd, for `m > 0`.
fn decompose<const WORDS: usize>(m: &BigUInt<WORDS>) -> (res: (BigUInt<WORDS>, u64))
    requires
        1 <= WORDS <= 0x0200_0000_0000_0000,
        m.value() > 0,
    ensures
        res.0.value() == odd_part(m.value()),
        res.1 == two_adicity(m.value()),
        res.0.value() % 2 == 1,
{
    let mut d = *m;
    let mut r: u64 = 0;
    proof {
        lemma_two_adicity_bound(m.value());
        m.lemma_value_bound();
        lemma_wpow_pow2(WORDS as nat);
        if two_adicity(m.value()) >= 64 * WORDS {
            lemma_pow2_monotone(64 * WORDS as nat, two_adicity(m.value()));
        }
    }
    while !d.low_bit()
        invariant
            1 <= WORDS,
            d.value() > 0,
            odd_part(d.value()) == odd_part(m.value()),
            two_adicity(m.value()) == r + two_adicity(d.value()),
            two_adicity(m.value()) < 64 * WORDS,
            64 * WORDS < u64::MAX,
        decreases d.value(),
    {
        proof {
            lemma_pow2_unfold(1);
            lemma2_to64();
            assert(d.value() / 2 < d.value());
        }
        d = d.shr(1);
        r = r + 1;
    }
    (d, r)
}

proof fn lemma_pow2_monotone(a: nat, b: nat)
    requires
        a <= b,
    ensures
        pow2(a) <= pow2(b),
{
    if a < b {
        lemma_pow2_strictly_increases(a, b);
    }
}

/// `x` has the value `v`, compared by value.
fn has_value<const WORDS: usize>(x: &BigUInt<WORDS>, y: &BigUInt<WORDS>) -> (r: bool)
    ensures
        r == (x.value() == y.value()),
{
    matches!(x.cmp(y), core::cmp::Ordering::Equal)
}

/// One round of the test on odd `n ≥ 5` with `n − 1 = 2^r·d`: true when `a` is no
/// witness of compositeness.
fn strong_round<const WORDS: usize>(
    n: &BigUInt<WORDS>,
    n1: &BigUInt<WORDS>,
    d: &BigUInt<WORDS>,
    r: u64,
    a: &BigUInt<WORDS>,
) -> (res: bool)
    requires
        WORDS >= 1,
        n.value() % 2 == 1,
        n.value() >= 5,
        n1.value() == n.value() - 1,
        d.value() == odd_part(n1.value()),
        r == two_adicity(n1.value()),
    ensures
        res == passes_base(n.value(), a.value()),
{
    let ghost nv = n.value() as int;
    let ghost av = a.value() as int;
    let ghost dv = d.value();
    let mut x = a.pow_mod(d, n);
    let one = BigUInt::<WORDS>::one();
    if has_value(&x, &one) {
        return true;
    }
    if has_value(&x, n1) {
        proof {
            lemma2_to64();
            assert(dv * pow2(0) == dv);
            assert(r >= 1) by {
                lemma_two_adicity_even(n1.value());
            }
            assert(pow(av, dv * pow2(0)) % nv == nv - 1);
        }
        return true;
    }
    let two = BigUInt::<WORDS>::two();
    let mut k: u64 = 1;
    proof {
        lemma2_to64();
        assert(dv * pow2(0) == dv);
        lemma_two_adicity_even(n1.value());
    }
    while k < r
        invariant
            1 <= WORDS,
            1 <= k <= r,
            nv == n.value(),
            nv % 2 == 1,
            nv >= 5,
            n1.value() == nv - 1,
            av == a.value(),
            dv == d.value(),
            dv == odd_part(n1.value()),
            r == two_adicity(n1.value()),
            two.value() == 2,
            x.value() == pow(av, dv * pow2((k - 1) as nat)) % nv,
            pow(av, dv) % nv != 1,
            forall|j: nat| j < k ==> #[trigger] (pow(av, dv * pow2(j)) % nv) != nv - 1,
        decreases r - k,
    {
        let ghost e = dv * pow2((k - 1) as nat);
        x = x.pow_mod(&two, n);
        proof {
            lemma_pow_mod_noop(pow(av, e), 2, nv);
            lemma_pow_multiplies(av, e, 2);
            lemma_pow2_unfold(k as nat);
            assert(e * 2 == dv * pow2(k as nat)) by (nonlinear_arith)
                requires
                    e == dv * pow2((k - 1) as nat),
                    pow2(k as nat) == 2 * pow2((k - 1) as nat),
            ;
        }
        if has_value(&x, n1) {
            return true;
        }
        k = k + 1;
    }
    proof {
        assert forall|j: nat| j < r implies #[trigger] (pow(av, dv * pow2(j)) % nv) != nv - 1 by {
        }
    }
    false
}

/// An even positive number is divisible by two at least once.
proof fn lemma_two_adicity_even(m: nat)
    requires
        m > 0,
        m % 2 == 0,
    ensures
        two_adicity(m) >= 1,
{
}


/// The values of a sequence of integers.
pub open spec fn values<const WORDS: usize>(xs: Seq<BigUInt<WORDS>>) -> Seq<nat> {
    xs.map_values(|x: BigUInt<WORDS>| x.value())
}

/// Where `n` is odd and at least five, the constants a round needs: `n − 1`, and
/// `d`, `r` with `n − 1 = 2^r·d`, `d` odd.
fn round_setup<const WORDS: usize>(n: &BigUInt<WORDS>) -> (res: (BigUInt<WORDS>, BigUInt<WORDS>, u64))
    requires
        1 <= WORDS <= 0x0200_0000_0000_0000,
        n.value() % 2 == 1,
        n.value() >= 5,
    ensures
        res.0.value() == n.value() - 1,
        res.1.value() == odd_part((n.value() - 1) as nat),
        res.2 == two_adicity((n.value() - 1) as nat),
{
    let one = BigUInt::<WORDS>::one();
    let n1 = n.sub(&one);
    let (d, r) = decompose(&n1);
    (n1, d, r)
}

/// Tells apart the inputs that need no round: `Some(verdict)` for `n < 4` and for
/// even `n`, `None` for odd `n ≥ 5`.
fn trivial_verdict<const WORDS: usize>(n: &BigUInt<WORDS>) -> (r: Option<bool>)
    requires
        WORDS >= 1,
    ensures
        r == (if n.value() < 2 {
            Some(false)
        } else if n.value() <= 3 {
            Some(true)
        } else if n.value() % 2 == 0 {
            Some(false)
        } else {
            None::<bool>
        }),
{
    let two = BigUInt::<WORDS>::two();
    let three = BigUInt::<WORDS>::three();
    if matches!(n.cmp(&two), core::cmp::Ordering::Less) {
        Some(false)
    } else if has_value(n, &two) || has_value(n, &three) {
        Some(true)
    } else if !n.low_bit() {
        Some(false)
    } else {
        None
    }
}

/// `a` lies in `[2, n − 2]`, given `n1 = n − 1`.
fn in_range<const WORDS: usize>(n1: &BigUInt<WORDS>, a: &BigUInt<WORDS>) -> (r: bool)
    requires
        WORDS >= 1,
    ensures
        r == (2 <= a.value() && a.value() + 2 <= n1.value() + 1),
{
    let two = BigUInt::<WORDS>::two();
    !matches!(a.cmp(&two), core::cmp::Ordering::Less) && matches!(a.cmp(n1), core::cmp::Ordering::Less)
}

/// The Miller–Rabin test on `n` with the bases given, one round for each base in
/// `[2, n − 2]`; the others are skipped. Answers false as soon as a round finds a
/// witness of compositeness.
pub fn miller_rabin_with_bases<const WORDS: usize>(n: &BigUInt<WORDS>, bases: &Vec<BigUInt<WORDS>>) -> (r: bool)
    requires
        1 <= WORDS <= 0x0200_0000_0000_0000,
    ensures
        r == verdict(n.value(), values(bases@)),
{
    if let Some(v) = trivial_verdict(n) {
        return v;
    }
    let (n1, d, r) = round_setup(n);
    let mut i: usize = 0;
    while i < bases.len()
        invariant
            1 <= WORDS,
            n.value() % 2 == 1,
            n.value() >= 5,
            n1.value() == n.value() - 1,
            d.value() == odd_part(n1.value()),
            r == two_adicity(n1.value()),
            i <= bases.len(),
            forall|j: int|
                0 <= j < i && base_in_range(n.value(), #[trigger] values(bases@)[j]) ==> passes_base(
                    n.value(),
                    values(bases@)[j],
                ),
        decreases bases.len() - i,
    {
        proof {
            assert(values(bases@)[i as int] == bases@[i as int].value());
        }
        if in_range(&n1, &bases[i]) && !strong_round(n, &n1, &d, r, &bases[i]) {
            return false;
        }
        i += 1;
    }
    true
}

/// Relies on num_bigint's `RandBigInt::gen_biguint`, called on rand's `thread_rng`, for a
/// uniformly random integer below `2^bits`, and on `BigUint::to_u64_digits` for its words,
/// least significant first. Nothing is promised of the value.
#[verifier::external_body]
fn random_words(bits: u64) -> (r: Vec<u64>) {
    rand::thread_rng().gen_biguint(bits).to_u64_digits()
}

/// The integer whose low words are `digits`; words past the width are dropped.
fn from_digits<const WORDS: usize>(digits: &Vec<u64>) -> (r: BigUInt<WORDS>)
    ensures
        r.value() == seq_val(digits@.take(if digits@.len() < WORDS { digits@.len() as int } else { WORDS as int })),
{
    let mut res = BigUInt { num: [0u64; WORDS] };
    let mut i: usize = 0;
    while i < WORDS && i < digits.len()
        invariant
            i <= WORDS,
            i <= digits.len(),
            res.num@.take(i as int) == digits@.take(i as int),
            forall|k: int| i <= k < WORDS ==> res.num@[k] == 0,
        decreases WORDS - i,
    {
        res.num[i] = digits[i];
        proof {
            assert(res.num@.take(i + 1) =~= digits@.take(i + 1)) by {
                assert forall|k: int| 0 <= k < i + 1 implies #[trigger] res.num@.take(i + 1)[k]
                    == digits@.take(i + 1)[k] by {
                    if k < i {
                        assert(res.num@.take(i as int)[k] == digits@.take(i as int)[k]);
                    }
                }
            }
        }
        i += 1;
    }
    proof {
        lemma_seq_val_split(res.num@, i as int);
        lemma_seq_val_zero(res.num@.skip(i as int));
        assert(wpow(i as nat) * 0 == 0);
    }
    res
}

/// The number of significant bits of `x`: the least `r` with `x < 2^r`.
fn bit_length<const WORDS: usize>(x: &BigUInt<WORDS>) -> (r: u64)
    requires
        WORDS <= 0x0200_0000_0000_0000,
    ensures
        x.value() < pow2(r as nat),
        r == 0 || pow2((r - 1) as nat) <= x.value(),
{
    let mut y = *x;
    let mut bits: u64 = 0;
    proof {
        lemma2_to64();
        x.lemma_value_bound();
        lemma_wpow_pow2(WORDS as nat);
    }
    while !y.is_zero()
        invariant
            WORDS <= 0x0200_0000_0000_0000,
            x.value() < pow2(64 * WORDS as nat),
            y.value() == x.value() / pow2(bits as nat),
            bits == 0 || pow2((bits - 1) as nat) <= x.value(),
            bits <= 64 * WORDS,
        decreases y.value(),
    {
        proof {
            lemma_pow2_pos(bits as nat);
            lemma_fundamental_div_mod(x.value() as int, pow2(bits as nat) as int);
            lemma_mod_bound(x.value() as int, pow2(bits as nat) as int);
            assert(pow2(bits as nat) <= x.value()) by (nonlinear_arith)
                requires
                    x.value() == pow2(bits as nat) * y.value() + x.value() as int % pow2(bits as nat) as int,
                    y.value() >= 1,
                    x.value() as int % pow2(bits as nat) as int >= 0,
                    pow2(bits as nat) > 0,
            ;
            if bits >= 64 * WORDS {
                lemma_pow2_monotone(64 * WORDS as nat, bits as nat);
            }
            lemma_div_denominator(x.value() as int, pow2(bits as nat) as int, 2);
            lemma_pow2_adds(bits as nat, 1);
            lemma2_to64();
        }
        y = y.shr(1);
        bits += 1;
    }
    proof {
        lemma_pow2_pos(bits as nat);
        lemma_fundamental_div_mod(x.value() as int, pow2(bits as nat) as int);
        lemma_mod_bound(x.value() as int, pow2(bits as nat) as int);
    }
    bits
}

/// Draws a base in `[2, n − 2]`, given `n1 = n − 1 ≥ 4`, uniformly among the integers
/// of `bits` bits and redrawn while out of range; after `MAX_DRAWS` draws out of range
/// it settles on two.
fn draw_base<const WORDS: usize>(n1: &BigUInt<WORDS>, bits: u64) -> (a: BigUInt<WORDS>)
    requires
        WORDS >= 1,
        n1.value() >= 4,
    ensures
        base_in_range(n1.value() + 1, a.value()),
{
    let mut tries: usize = 0;
    while tries < MAX_DRAWS
        invariant
            WORDS >= 1,
        decreases MAX_DRAWS - tries,
    {
        let words = random_words(bits);
        let a = from_digits(&words);
        if in_range(n1, &a) {
            return a;
        }
        tries += 1;
    }
    BigUInt::<WORDS>::two()
}

/// The Miller–Rabin test on `n` with `t` rounds, each on a base drawn at random from
/// `[2, n − 2]` (redrawn while out of range, and two after `MAX_DRAWS` misses).
/// `n < 2` is composite, two and three are prime, other even numbers are composite.
/// For odd `n ≥ 5` the answer is the verdict on the bases drawn: true only after `t`
/// bases that all pass, false at the first base that is a witness of compositeness.
pub fn miller_rabin<const WORDS: usize>(n: &BigUInt<WORDS>, t: usize) -> (r: bool)
    requires
        1 <= WORDS <= 0x0200_0000_0000_0000,
    ensures
        exists|bases: Seq<nat>|
            bases.len() <= t && (forall|i: int|
                0 <= i < bases.len() ==> base_in_range(n.value(), #[trigger] bases[i])) && r
                == verdict(n.value(), bases) && (n.value() % 2 == 1 && n.value() >= 5 ==> (r
                ==> bases.len() == t) && (forall|i: int|
                0 <= i < bases.len() - 1 ==> passes_base(n.value(), #[trigger] bases[i]))),
{
    let ghost empty = Seq::<nat>::empty();
    if let Some(v) = trivial_verdict(n) {
        proof {
            assert(empty.len() <= t);
            assert(v == verdict(n.value(), empty));
        }
        return v;
    }
    let (n1, d, r) = round_setup(n);
    let bits = bit_length(&n1);
    let ghost mut drawn = Seq::<nat>::empty();
    let mut round: usize = 0;
    while round < t
        invariant
            1 <= WORDS,
            n.value() % 2 == 1,
            n.value() >= 5,
            n1.value() == n.value() - 1,
            d.value() == odd_part(n1.value()),
            r == two_adicity(n1.value()),
            round <= t,
            drawn.len() == round,
            forall|i: int|
                0 <= i < drawn.len() ==> base_in_range(n.value(), #[trigger] drawn[i])
                    && passes_base(n.value(), drawn[i]),
        decreases t - round,
    {
        let a = draw_base(&n1, bits);
        if !strong_round(n, &n1, &d, r, &a) {
            proof {
                let bases = drawn.push(a.value());
                assert(bases[round as int] == a.value());
                assert forall|i: int| 0 <= i < bases.len() - 1 implies passes_base(
                    n.value(),
                    #[trigger] bases[i],
                ) by {
                    assert(bases[i] == drawn[i]);
                }
                assert(!verdict(n.value(), bases));
                assert(forall|i: int|
                    0 <= i < bases.len() ==> base_in_range(n.value(), #[trigger] bases[i])) by {
                    assert forall|i: int| 0 <= i < bases.len() implies base_in_range(
                        n.value(),
                        #[trigger] bases[i],
                    ) by {
                        if i < round {
                            assert(bases[i] == drawn[i]);
                        }
                    }
                }
            }
            return false;
        }
        proof {
            let next = drawn.push(a.value());
            assert forall|i: int| 0 <= i < next.len() implies base_in_range(
                n.value(),
                #[trigger] next[i],
            ) && passes_base(n.value(), next[i]) by {
                if i < round {
                    assert(next[i] == drawn[i]);
                }
            }
            drawn = next;
        }
        round += 1;
    }
    proof {
        assert(verdict(n.value(), drawn));
    }
    true
}

} // verus!
