use vstd::prelude::*;
use vstd::arithmetic::div_mod::*;
use vstd::arithmetic::mul::*;
use vstd::arithmetic::power2::*;
use vstd::bits::{lemma_u128_shr_is_div, lemma_u64_shl_is_mul};

verus! {

/// Number of distinct values of one word.
pub const WORD_BASE: u128 = 0x1_0000_0000_0000_0000;

/// `WORD_BASE` as a mathematical integer.
pub open spec fn base() -> nat {
    0x1_0000_0000_0000_0000nat
}

/// `base()` raised to the `i`-th power: the weight of word `i`.
pub open spec fn wpow(i: nat) -> nat
    decreases i,
{
    if i == 0 {
        1
    } else {
        base() * wpow((i - 1) as nat)
    }
}

/// The value of a little-endian word sequence.
pub open spec fn seq_val(s: Seq<u64>) -> nat
    decreases s.len(),
{
    if s.len() == 0 {
        0
    } else {
        (seq_val(s.drop_last()) + s.last() * wpow((s.len() - 1) as nat)) as nat
    }
}

pub proof fn lemma_wpow_pos(i: nat)
    ensures
        wpow(i) > 0,
    decreases i,
{
    if i > 0 {
        lemma_wpow_pos((i - 1) as nat);
        lemma_mul_strictly_positive(base() as int, wpow((i - 1) as nat) as int);
    }
}

pub proof fn lemma_wpow_step(i: nat)
    ensures
        wpow(i + 1) == base() * wpow(i),
{
    assert(((i + 1) - 1) as nat == i);
}

/// Extending a prefix by one word adds that word at its weight.
pub proof fn lemma_seq_val_take(s: Seq<u64>, i: int)
    requires
        0 <= i < s.len(),
    ensures
        seq_val(s.take(i + 1)) == seq_val(s.take(i)) + s[i] * wpow(i as nat),
{
    assert(s.take(i + 1).drop_last() =~= s.take(i));
}

/// The first word alone.
pub proof fn lemma_seq_val_low(s: Seq<u64>)
    requires
        s.len() >= 1,
    ensures
        seq_val(s.take(1)) == s[0],
{
    lemma_seq_val_take(s, 0);
    assert(seq_val(s.take(0)) == 0);
    assert(wpow(0) == 1);
    assert(s[0] * wpow(0) == s[0]);
}

/// A sequence of `n` words is below `wpow(n)`.
pub proof fn lemma_seq_val_bound(s: Seq<u64>)
    ensures
        seq_val(s) < wpow(s.len()),
    decreases s.len(),
{
    if s.len() > 0 {
        let n = (s.len() - 1) as nat;
        lemma_seq_val_bound(s.drop_last());
        lemma_wpow_step(n);
        lemma_wpow_pos(n);
        assert(s.last() <= base() - 1);
        lemma_mul_inequality(s.last() as int, base() - 1, wpow(n) as int);
        assert((base() - 1) * wpow(n) == base() * wpow(n) - wpow(n)) by (nonlinear_arith);
    }
}

/// A sequence of zeros has value zero, and a nonzero word makes the value nonzero.
pub proof fn lemma_seq_val_zero(s: Seq<u64>)
    ensures
        (seq_val(s) == 0) <==> (forall|i: int| 0 <= i < s.len() ==> s[i] == 0),
    decreases s.len(),
{
    if s.len() > 0 {
        let n = (s.len() - 1) as nat;
        lemma_seq_val_zero(s.drop_last());
        lemma_wpow_pos(n);
        if s.last() != 0 {
            lemma_mul_strictly_positive(s.last() as int, wpow(n) as int);
        }
        if forall|i: int| 0 <= i < s.len() ==> s[i] == 0 {
            assert forall|i: int| 0 <= i < s.drop_last().len() implies s.drop_last()[i] == 0 by {
                assert(s[i] == 0);
            }
        }
        if seq_val(s) == 0 {
            assert forall|i: int| 0 <= i < s.len() implies s[i] == 0 by {
                if i < n {
                    assert(s.drop_last()[i] == s[i]);
                }
            }
        }
    }
}

/// The value of `s` is its low `m` words plus `wpow(m)` times its high words.
pub proof fn lemma_seq_val_split(s: Seq<u64>, m: int)
    requires
        0 <= m <= s.len(),
    ensures
        seq_val(s) == seq_val(s.take(m)) + wpow(m as nat) * seq_val(s.skip(m)),
    decreases s.len(),
{
    if m == s.len() {
        assert(s.take(m) =~= s);
        assert(s.skip(m).len() == 0);
        assert(wpow(m as nat) * 0 == 0);
    } else {
        let n = s.len() - 1;
        lemma_seq_val_split(s.drop_last(), m);
        assert(s.drop_last().take(m) =~= s.take(m));
        let hi = s.skip(m);
        assert(hi.drop_last() =~= s.drop_last().skip(m));
        assert(hi.last() == s.last());
        assert(hi.len() == n - m + 1);
        assert(s.drop_last().len() == n);
        assert(seq_val(s) == seq_val(s.drop_last()) + s.last() * wpow(n as nat));
        assert(wpow(n as nat) == wpow(m as nat) * wpow((n - m) as nat)) by {
            lemma_wpow_adds(m as nat, (n - m) as nat);
        }
        assert(seq_val(hi) == seq_val(hi.drop_last()) + hi.last() * wpow((n - m) as nat));
        assert(wpow(m as nat) * seq_val(hi) == wpow(m as nat) * seq_val(hi.drop_last())
            + s.last() * wpow(n as nat)) by (nonlinear_arith)
            requires
                seq_val(hi) == seq_val(hi.drop_last()) + hi.last() * wpow((n - m) as nat),
                wpow(n as nat) == wpow(m as nat) * wpow((n - m) as nat),
                hi.last() == s.last(),
        ;
    }
}

pub proof fn lemma_wpow_adds(a: nat, b: nat)
    ensures
        wpow(a + b) == wpow(a) * wpow(b),
    decreases b,
{
    if b > 0 {
        lemma_wpow_adds(a, (b - 1) as nat);
        assert((a + b - 1) as nat == a + (b - 1) as nat);
        lemma_wpow_step(a + (b - 1) as nat);
        lemma_wpow_step((b - 1) as nat);
        let (x, y, z) = (wpow(a) as int, wpow((b - 1) as nat) as int, base() as int);
        assert(z * (x * y) == x * (z * y)) by (nonlinear_arith);
    } else {
        assert(wpow(0) == 1);
        assert(wpow(a) * 1 == wpow(a));
    }
}

/// Two word sequences of one length with one value are equal.
pub proof fn lemma_seq_val_injective(s: Seq<u64>, t: Seq<u64>)
    requires
        s.len() == t.len(),
        seq_val(s) == seq_val(t),
    ensures
        s == t,
    decreases s.len(),
{
    if s.len() > 0 {
        let n = (s.len() - 1) as nat;
        lemma_seq_val_bound(s.drop_last());
        lemma_seq_val_bound(t.drop_last());
        lemma_wpow_pos(n);
        lemma_fundamental_div_mod_converse(
            seq_val(s) as int,
            wpow(n) as int,
            s.last() as int,
            seq_val(s.drop_last()) as int,
        );
        lemma_fundamental_div_mod_converse(
            seq_val(t) as int,
            wpow(n) as int,
            t.last() as int,
            seq_val(t.drop_last()) as int,
        );
        lemma_seq_val_injective(s.drop_last(), t.drop_last());
        assert(s =~= s.drop_last().push(s.last()));
        assert(t =~= t.drop_last().push(t.last()));
    }
}

/// A fixed-width unsigned integer of `WORDS` 64-bit words, least significant first.
#[derive(Clone, Copy, Debug)]
pub struct BigUInt<const WORDS: usize> {
    pub num: [u64; WORDS],
}

impl<const WORDS: usize> BigUInt<WORDS> {
    /// The integer this value stands for.
    pub open spec fn value(&self) -> nat {
        seq_val(self.num@)
    }

    /// `2^(64·WORDS)`: every value is below it and arithmetic wraps at it.
    pub open spec fn modulus() -> nat {
        wpow(WORDS as nat)
    }

    pub proof fn lemma_value_bound(&self)
        ensures
            self.value() < Self::modulus(),
    {
        lemma_seq_val_bound(self.num@);
    }

    pub fn zero() -> (r: Self)
        ensures
            r.value() == 0,
    {
        let r = BigUInt { num: [0u64; WORDS] };
        proof {
            lemma_seq_val_zero(r.num@);
        }
        r
    }

    pub fn one() -> (r: Self)
        requires
            WORDS >= 1,
        ensures
            r.value() == 1,
    {
        Self::from_word(1)
    }

    pub fn two() -> (r: Self)
        requires
            WORDS >= 1,
        ensures
            r.value() == 2,
    {
        Self::from_word(2)
    }

    pub fn three() -> (r: Self)
        requires
            WORDS >= 1,
        ensures
            r.value() == 3,
    {
        Self::from_word(3)
    }

    /// The value with low word `v` and all higher words zero.
    pub fn from_word(v: u64) -> (r: Self)
        requires
            WORDS >= 1,
        ensures
            r.value() == v,
    {
        let mut res = BigUInt { num: [0u64; WORDS] };
        res.num[0] = v;
        proof {
            let s = res.num@;
            lemma_seq_val_split(s, 1);
            lemma_seq_val_zero(s.skip(1));
            lemma_seq_val_low(s);
            assert(wpow(1) * 0 == 0);
        }
        res
    }

    pub fn is_zero(&self) -> (r: bool)
        ensures
            r == (self.value() == 0),
    {
        proof {
            lemma_seq_val_zero(self.num@);
        }
        let mut i: usize = 0;
        while i < WORDS
            invariant
                i <= WORDS,
                forall|j: int| 0 <= j < i ==> self.num[j] == 0,
            decreases WORDS - i,
        {
            if self.num[i] != 0 {
                proof {
                    lemma_seq_val_zero(self.num@);
                    assert(self.num@[i as int] != 0);
                }
                return false;
            }
            i += 1;
        }
        true
    }

    /// The parity of the value.
    pub fn low_bit(&self) -> (r: bool)
        requires
            WORDS >= 1,
        ensures
            r == (self.value() % 2 == 1),
    {
        proof {
            let s = self.num@;
            lemma_seq_val_split(s, 1);
            lemma_seq_val_low(s);
            let h = seq_val(s.skip(1)) as int;
            assert(wpow(1) == base()) by {
                lemma_wpow_step(0);
            }
            assert(base() * h == 2 * (0x8000_0000_0000_0000 * h)) by (nonlinear_arith);
            assert(self.value() == s[0] + 2 * (0x8000_0000_0000_0000 * h));
            lemma_mod_multiples_vanish(0x8000_0000_0000_0000 * h, s[0] as int, 2);
            let w = s[0];
            assert((w & 1 == 1) == (w % 2 == 1)) by (bit_vector);
        }
        (self.num[0] & 1) == 1
    }

    /// Orders by value: words are compared from the most significant down, and the
    /// first pair that differs decides.
    pub fn cmp(&self, other: &Self) -> (r: core::cmp::Ordering)
        ensures
            r == cmp_values(self.value(), other.value()),
    {
        let mut i: usize = WORDS;
        while i > 0
            invariant
                i <= WORDS,
                self.num@.skip(i as int) == other.num@.skip(i as int),
            decreases i,
        {
            i -= 1;
            if self.num[i] != other.num[i] {
                if self.num[i] > other.num[i] {
                    proof {
                        lemma_first_difference(self.num@, other.num@, i as int);
                    }
                    return core::cmp::Ordering::Greater;
                } else {
                    proof {
                        lemma_first_difference(other.num@, self.num@, i as int);
                    }
                    return core::cmp::Ordering::Less;
                }
            }
            proof {
                assert(self.num@.skip(i as int) =~= other.num@.skip(i as int)) by {
                    assert forall|j: int| 0 <= j < WORDS - i implies self.num@.skip(i as int)[j]
                        == other.num@.skip(i as int)[j] by {
                        if j > 0 {
                            assert(self.num@.skip(i as int)[j] == self.num@.skip(i + 1)[j - 1]);
                            assert(other.num@.skip(i as int)[j] == other.num@.skip(i + 1)[j - 1]);
                        }
                    }
                }
            }
        }
        proof {
            assert(self.num@ =~= self.num@.skip(0));
            assert(other.num@ =~= other.num@.skip(0));
        }
        core::cmp::Ordering::Equal
    }

    /// Adds one word; the carry ripples up and stops at the first word that does not
    /// overflow. Wraps modulo `2^(64·WORDS)`.
    pub fn add_word(self, other: u64) -> (r: Self)
        requires
            WORDS >= 1,
        ensures
            r.value() == (self.value() + other) % (Self::modulus() as int),
    {
        let mut res = self;
        let s: u128 = self.num[0] as u128 + other as u128;
        res.num[0] = (s % WORD_BASE) as u64;
        proof {
            lemma_seq_val_low(res.num@);
            lemma_seq_val_low(self.num@);
            lemma_wpow_step(0);
            assert(res.num@.skip(1) =~= self.num@.skip(1));
        }
        if s < WORD_BASE {
            // fast path
            proof {
                lemma_small_mod(s as nat, base());
                lemma_high_words_kept(res.num@, self.num@, 1, other as int);
                lemma_value_below_modulus(res.num@, self.value() + other);
            }
            return res;
        }
        proof {
            assert(res.num[0] == s - base());
        }
        let mut i: usize = 1;
        while i < WORDS
            invariant
                1 <= i <= WORDS,
                res.num@.skip(i as int) == self.num@.skip(i as int),
                seq_val(res.num@.take(i as int)) + wpow(i as nat) == seq_val(self.num@.take(i as int))
                    + other,
            decreases WORDS - i,
        {
            let ghost before = res.num@;
            proof {
                assert(res.num@[i as int] == before.skip(i as int)[0]);
                assert(self.num@[i as int] == self.num@.skip(i as int)[0]);
                lemma_seq_val_take(self.num@, i as int);
                lemma_wpow_step(i as nat);
            }
            if res.num[i] != u64::MAX {
                res.num[i] = res.num[i] + 1;
                proof {
                    assert(res.num@.take(i as int) =~= before.take(i as int));
                    lemma_seq_val_take(res.num@, i as int);
                    assert(res.num@.skip(i + 1) =~= self.num@.skip(i + 1)) by {
                        assert forall|j: int| 0 <= j < WORDS - i - 1 implies #[trigger] res.num@.skip(i + 1)[j]
                            == self.num@.skip(i + 1)[j] by {
                            assert(before.skip(i as int)[j + 1] == self.num@.skip(i as int)[j + 1]);
                        }
                    }
                    let w = wpow(i as nat) as int;
                    assert((self.num[i as int] + 1) * w == self.num[i as int] * w + w)
                        by (nonlinear_arith);
                    lemma_high_words_kept(res.num@, self.num@, i + 1, other as int);
                    lemma_value_below_modulus(res.num@, self.value() + other);
                }
                return res;
            }
            res.num[i] = 0;
            proof {
                assert(res.num@.take(i as int) =~= before.take(i as int));
                lemma_seq_val_take(res.num@, i as int);
                assert(res.num@.skip(i + 1) =~= self.num@.skip(i + 1)) by {
                    assert forall|j: int| 0 <= j < WORDS - i - 1 implies #[trigger] res.num@.skip(i + 1)[j]
                        == self.num@.skip(i + 1)[j] by {
                        assert(before.skip(i as int)[j + 1] == self.num@.skip(i as int)[j + 1]);
                    }
                }
                let w = wpow(i as nat) as int;
                assert(self.num[i as int] == 0xffff_ffff_ffff_ffff);
                assert(res.num@[i as int] == 0);
                assert(res.num@[i as int] * w == 0) by (nonlinear_arith)
                    requires
                        res.num@[i as int] == 0,
                ;
                assert(0xffff_ffff_ffff_ffff * w + w == base() * w) by (nonlinear_arith);
            }
            i += 1;
        }
        proof {
            assert(res.num@.take(WORDS as int) =~= res.num@);
            assert(self.num@.take(WORDS as int) =~= self.num@);
            lemma_seq_val_bound(res.num@);
            lemma_fundamental_div_mod_converse_mod(
                self.value() + other,
                Self::modulus() as int,
                1,
                res.value() as int,
            );
        }
        res
    }

    /// Word-by-word ripple-carry addition, wrapping modulo `2^(64·WORDS)`.
    pub fn add(self, other: Self) -> (r: Self)
        ensures
            r.value() == (self.value() + other.value()) as int % (Self::modulus() as int),
    {
        let mut res = self;
        let mut carry: u64 = 0;
        let mut i: usize = 0;
        while i < WORDS
            invariant
                i <= WORDS,
                carry <= 1,
                seq_val(res.num@.take(i as int)) + carry * wpow(i as nat) == seq_val(
                    self.num@.take(i as int),
                ) + seq_val(other.num@.take(i as int)),
            decreases WORDS - i,
        {
            let ghost before = res.num@;
            let s: u128 = self.num[i] as u128 + other.num[i] as u128 + carry as u128;
            res.num[i] = (s % WORD_BASE) as u64;
            let ghost c0 = carry;
            carry = (s / WORD_BASE) as u64;
            proof {
                assert(res.num@.take(i as int) =~= before.take(i as int));
                lemma_seq_val_take(res.num@, i as int);
                lemma_seq_val_take(self.num@, i as int);
                lemma_seq_val_take(other.num@, i as int);
                lemma_wpow_step(i as nat);
                let w = wpow(i as nat) as int;
                lemma_carry_step(s as int, res.num[i as int] as int, carry as int, w);
                assert((self.num[i as int] + other.num[i as int] + c0) * w == self.num[i as int] * w
                    + other.num[i as int] * w + c0 * w) by (nonlinear_arith);
            }
            i += 1;
        }
        proof {
            assert(res.num@.take(WORDS as int) =~= res.num@);
            assert(self.num@.take(WORDS as int) =~= self.num@);
            assert(other.num@.take(WORDS as int) =~= other.num@);
            lemma_seq_val_bound(res.num@);
            lemma_fundamental_div_mod_converse_mod(
                (self.value() + other.value()) as int,
                Self::modulus() as int,
                carry as int,
                res.value() as int,
            );
        }
        res
    }

    /// Word-by-word ripple-borrow subtraction, wrapping modulo `2^(64·WORDS)`.
    pub fn sub(self, other: &Self) -> (r: Self)
        ensures
            r.value() == (self.value() - other.value()) % (Self::modulus() as int),
            self.value() >= other.value() ==> r.value() == self.value() - other.value(),
    {
        let mut res = self;
        let mut borrow: u64 = 0;
        let mut i: usize = 0;
        while i < WORDS
            invariant
                i <= WORDS,
                borrow <= 1,
                seq_val(res.num@.take(i as int)) == seq_val(self.num@.take(i as int)) - seq_val(
                    other.num@.take(i as int),
                ) + borrow * wpow(i as nat),
            decreases WORDS - i,
        {
            let ghost before = res.num@;
            let s: u128 = (self.num[i] as u128 + WORD_BASE) - other.num[i] as u128 - borrow as u128;
            res.num[i] = (s % WORD_BASE) as u64;
            let ghost b0 = borrow;
            borrow = 1 - (s / WORD_BASE) as u64;
            proof {
                assert(res.num@.take(i as int) =~= before.take(i as int));
                lemma_seq_val_take(res.num@, i as int);
                lemma_seq_val_take(self.num@, i as int);
                lemma_seq_val_take(other.num@, i as int);
                lemma_wpow_step(i as nat);
                let w = wpow(i as nat) as int;
                let d = res.num[i as int] as int;
                assert(d == self.num[i as int] - other.num[i as int] - b0 + borrow * base());
                assert(d * w == self.num[i as int] * w - other.num[i as int] * w - b0 * w + borrow
                    * (base() * w)) by (nonlinear_arith)
                    requires
                        d == self.num[i as int] - other.num[i as int] - b0 + borrow * base(),
                ;
            }
            i += 1;
        }
        proof {
            assert(res.num@.take(WORDS as int) =~= res.num@);
            assert(self.num@.take(WORDS as int) =~= self.num@);
            assert(other.num@.take(WORDS as int) =~= other.num@);
            lemma_seq_val_bound(res.num@);
            lemma_seq_val_bound(self.num@);
            assert(borrow * Self::modulus() == -(-borrow) * Self::modulus());
            if borrow == 0 {
                assert(borrow * Self::modulus() == 0);
            }
            lemma_fundamental_div_mod_converse_mod(
                self.value() - other.value(),
                Self::modulus() as int,
                -borrow,
                res.value() as int,
            );
            if self.value() >= other.value() {
                lemma_small_mod((self.value() - other.value()) as nat, Self::modulus());
            }
        }
        res
    }

    /// `2^bits` as a double word, for a sub-word shift.
    fn shift_factor(bits: usize) -> (p: u128)
        requires
            bits < 64,
        ensures
            p == pow2(bits as nat),
            1 <= p <= 0x8000_0000_0000_0000,
    {
        proof {
            lemma_pow2_pos(bits as nat);
            lemma2_to64();
            lemma2_to64_rest();
            if bits < 63 {
                lemma_pow2_strictly_increases(bits as nat, 63);
            }
            assert(1 * pow2(bits as nat) <= u64::MAX);
            lemma_u64_shl_is_mul(1, bits as u64);
        }
        (1u64 << bits as u64) as u128
    }

    /// Shifts left by `bits < 64`: each word moves up and takes the bits carried out of
    /// the word below. Bits shifted past the top are lost.
    pub fn shl(self, bits: usize) -> (r: Self)
        requires
            bits < 64,
        ensures
            r.value() == (self.value() * pow2(bits as nat)) as int % (Self::modulus() as int),
    {
        let p = Self::shift_factor(bits);
        let mut res = self;
        let mut carry: u64 = 0;
        let mut i: usize = 0;
        proof {
            assert(seq_val(res.num@.take(0)) == 0);
            assert(seq_val(self.num@.take(0)) == 0);
            assert(0 * p == 0);
        }
        while i < WORDS
            invariant
                i <= WORDS,
                bits < 64,
                p == pow2(bits as nat),
                1 <= p <= 0x8000_0000_0000_0000,
                carry < p,
                seq_val(res.num@.take(i as int)) + carry * wpow(i as nat) == seq_val(
                    self.num@.take(i as int),
                ) * p,
            decreases WORDS - i,
        {
            let ghost before = res.num@;
            let ghost c0 = carry;
            proof {
                let x = self.num[i as int];
                assert(x * p <= 0xffff_ffff_ffff_ffff * p) by (nonlinear_arith)
                    requires
                        x <= 0xffff_ffff_ffff_ffffu64,
                        p >= 1,
                ;
                assert(x * p + c0 < base() * p) by (nonlinear_arith)
                    requires
                        x <= 0xffff_ffff_ffff_ffffu64,
                        c0 < p,
                ;
            }
            let t: u128 = self.num[i] as u128 * p + carry as u128;
            res.num[i] = (t % WORD_BASE) as u64;
            carry = (t / WORD_BASE) as u64;
            proof {
                assert(carry < p) by {
                    lemma_carry_below_factor(t as int, p as int);
                }
                assert(res.num@.take(i as int) =~= before.take(i as int));
                lemma_seq_val_take(res.num@, i as int);
                lemma_seq_val_take(self.num@, i as int);
                lemma_wpow_step(i as nat);
                let w = wpow(i as nat) as int;
                lemma_carry_step(t as int, res.num[i as int] as int, carry as int, w);
                assert((self.num[i as int] * p + c0) * w == (self.num[i as int] * w) * p + c0 * w)
                    by (nonlinear_arith);
                assert((seq_val(self.num@.take(i as int)) + self.num[i as int] * w) * p == seq_val(
                    self.num@.take(i as int),
                ) * p + (self.num[i as int] * w) * p) by (nonlinear_arith);
            }
            i += 1;
        }
        proof {
            assert(res.num@.take(WORDS as int) =~= res.num@);
            assert(self.num@.take(WORDS as int) =~= self.num@);
            lemma_seq_val_bound(res.num@);
            lemma_fundamental_div_mod_converse_mod(
                (self.value() * p) as int,
                Self::modulus() as int,
                carry as int,
                res.value() as int,
            );
        }
        res
    }

    /// Shifts right by `bits < 64`: each word moves down and takes the bits carried out
    /// of the word above. Bits shifted past the bottom are lost.
    pub fn shr(self, bits: usize) -> (r: Self)
        requires
            bits < 64,
        ensures
            r.value() == self.value() / pow2(bits as nat),
    {
        let p = Self::shift_factor(bits);
        let mut res = self;
        let mut carry: u64 = 0;
        let mut i: usize = WORDS;
        proof {
            assert(res.num@.skip(WORDS as int).len() == 0);
            assert(self.num@.skip(WORDS as int).len() == 0);
            assert(seq_val(res.num@.skip(WORDS as int)) == 0);
            assert(seq_val(self.num@.skip(WORDS as int)) == 0);
            assert(p * 0 == 0);
        }
        while i > 0
            invariant
                i <= WORDS,
                bits < 64,
                p == pow2(bits as nat),
                1 <= p <= 0x8000_0000_0000_0000,
                carry < p,
                p * seq_val(res.num@.skip(i as int)) + carry == seq_val(self.num@.skip(i as int)),
            decreases i,
        {
            i -= 1;
            let ghost before = res.num@;
            let ghost c0 = carry;
            proof {
                assert(c0 * base() + self.num[i as int] < p * base()) by (nonlinear_arith)
                    requires
                        c0 < p,
                        self.num[i as int] < base(),
                ;
                assert(c0 * base() <= 0x8000_0000_0000_0000 * base()) by (nonlinear_arith)
                    requires
                        c0 < p,
                        p <= 0x8000_0000_0000_0000,
                ;
            }
            let t: u128 = carry as u128 * WORD_BASE + self.num[i] as u128;
            proof {
                lemma_u128_shr_is_div(t, bits as u128);
                lemma_quotient_below_base(t as int, p as int);
            }
            res.num[i] = (t >> bits as u128) as u64;
            carry = (t % p) as u64;
            proof {
                assert(res.num@.skip(i + 1) =~= before.skip(i + 1));
                lemma_seq_val_skip(res.num@, i as int);
                lemma_seq_val_skip(self.num@, i as int);
                lemma_fundamental_div_mod(t as int, p as int);
                let hi = seq_val(res.num@.skip(i + 1)) as int;
                assert(p * (res.num[i as int] + base() * hi) == p * res.num[i as int] + base() * (p
                    * hi)) by (nonlinear_arith);
                lemma_mod_bound(t as int, p as int);
            }
        }
        proof {
            assert(res.num@.skip(0) =~= res.num@);
            assert(self.num@.skip(0) =~= self.num@);
            lemma_mul_is_commutative(p as int, res.value() as int);
            lemma_fundamental_div_mod_converse_div(
                self.value() as int,
                p as int,
                res.value() as int,
                carry as int,
            );
        }
        res
    }
}

/// The order of two integers as a `core::cmp::Ordering`.
pub open spec fn cmp_values(a: nat, b: nat) -> core::cmp::Ordering {
    if a < b {
        core::cmp::Ordering::Less
    } else if a == b {
        core::cmp::Ordering::Equal
    } else {
        core::cmp::Ordering::Greater
    }
}

/// Where two equal-length word sequences agree above index `k` and `s` has the larger
/// word at `k`, `s` has the larger value.
pub proof fn lemma_first_difference(s: Seq<u64>, t: Seq<u64>, k: int)
    requires
        s.len() == t.len(),
        0 <= k < s.len(),
        s.skip(k + 1) == t.skip(k + 1),
        s[k] > t[k],
    ensures
        seq_val(s) > seq_val(t),
{
    lemma_seq_val_split(s, k + 1);
    lemma_seq_val_split(t, k + 1);
    lemma_seq_val_take(s, k);
    lemma_seq_val_take(t, k);
    lemma_seq_val_bound(t.take(k));
    lemma_wpow_pos((k + 1) as nat);
    let w = wpow(k as nat) as int;
    assert(s[k] * w >= (t[k] + 1) * w) by (nonlinear_arith)
        requires
            s[k] >= t[k] + 1,
            w > 0,
    ;
    assert((t[k] + 1) * w == t[k] * w + w) by (nonlinear_arith);
}

/// Dropping the lowest word of a suffix divides its value by the word base.
pub proof fn lemma_seq_val_skip(s: Seq<u64>, i: int)
    requires
        0 <= i < s.len(),
    ensures
        seq_val(s.skip(i)) == s[i] + base() * seq_val(s.skip(i + 1)),
{
    let t = s.skip(i);
    lemma_seq_val_split(t, 1);
    lemma_seq_val_low(t);
    assert(t.skip(1) =~= s.skip(i + 1));
    lemma_wpow_step(0);
}

/// The parity of a value is the parity of its low word.
pub proof fn lemma_value_parity(s: Seq<u64>)
    requires
        s.len() >= 1,
    ensures
        seq_val(s) % 2 == s[0] % 2,
{
    lemma_seq_val_skip(s, 0);
    assert(s.skip(0) =~= s);
    let h = seq_val(s.skip(1)) as int;
    assert(base() * h == 2 * (0x8000_0000_0000_0000 * h)) by (nonlinear_arith);
    lemma_mod_multiples_vanish(0x8000_0000_0000_0000 * h, s[0] as int, 2);
}

/// A double word below `p·B` divided by the word base is below `p`.
proof fn lemma_carry_below_factor(t: int, p: int)
    requires
        0 <= t < base() * p,
        p >= 1,
    ensures
        t / (base() as int) < p,
{
    lemma_div_is_ordered(t, base() * p - 1, base() as int);
    lemma_fundamental_div_mod(base() * p - 1, base() as int);
    assert(base() * p - 1 == base() * (p - 1) + (base() - 1)) by (nonlinear_arith);
    lemma_fundamental_div_mod_converse_div(base() * p - 1, base() as int, p - 1, base() - 1);
}

/// A double word below `p·B` divided by `p` is below the word base.
proof fn lemma_quotient_below_base(t: int, p: int)
    requires
        0 <= t < p * base(),
        p >= 1,
    ensures
        t / p < base(),
{
    lemma_div_is_ordered(t, p * base() - 1, p);
    assert(p * base() - 1 == p * (base() - 1) + (p - 1)) by (nonlinear_arith);
    lemma_fundamental_div_mod_converse_div(p * base() - 1, p, base() - 1, p - 1);
}

/// Equal high words and low parts that differ by `d` give values that differ by `d`.
pub proof fn lemma_high_words_kept(s: Seq<u64>, t: Seq<u64>, m: int, d: int)
    requires
        s.len() == t.len(),
        0 <= m <= s.len(),
        s.skip(m) == t.skip(m),
        seq_val(s.take(m)) == seq_val(t.take(m)) + d,
    ensures
        seq_val(s) == seq_val(t) + d,
{
    lemma_seq_val_split(s, m);
    lemma_seq_val_split(t, m);
}

/// A word sequence whose value is `x` holds `x` modulo the modulus of its width.
pub proof fn lemma_value_below_modulus(s: Seq<u64>, x: int)
    requires
        seq_val(s) == x,
    ensures
        x == x % (wpow(s.len()) as int),
{
    lemma_seq_val_bound(s);
    lemma_small_mod(x as nat, wpow(s.len()));
}

/// One step of a ripple carry: a digit and its carry stand for the whole sum.
pub proof fn lemma_carry_step(s: int, d: int, c: int, w: int)
    requires
        d == s % (base() as int),
        c == s / (base() as int),
    ensures
        d * w + c * (base() * w) == s * w,
{
    lemma_fundamental_div_mod(s, base() as int);
    assert(d * w + c * (base() * w) == (d + base() * c) * w) by (nonlinear_arith);
}

impl<const WORDS: usize> PartialEq for BigUInt<WORDS> {
    fn eq(&self, other: &Self) -> (r: bool) {
        let mut i: usize = 0;
        while i < WORDS
            invariant
                i <= WORDS,
                forall|j: int| 0 <= j < i ==> self.num[j] == other.num[j],
            decreases WORDS - i,
        {
            if self.num[i] != other.num[i] {
                return false;
            }
            i += 1;
        }
        proof {
            assert(self.num@ =~= other.num@);
        }
        true
    }
}

impl<const WORDS: usize> vstd::std_specs::cmp::PartialEqSpecImpl for BigUInt<WORDS> {
    open spec fn obeys_eq_spec() -> bool {
        true
    }

    open spec fn eq_spec(&self, other: &Self) -> bool {
        self.num@ == other.num@
    }
}

impl<const WORDS: usize> PartialOrd for BigUInt<WORDS> {
    fn partial_cmp(&self, other: &Self) -> (r: Option<core::cmp::Ordering>) {
        Some(self.cmp(other))
    }
}

impl<const WORDS: usize> vstd::std_specs::cmp::PartialOrdSpecImpl for BigUInt<WORDS> {
    open spec fn obeys_partial_cmp_spec() -> bool {
        true
    }

    open spec fn partial_cmp_spec(&self, other: &Self) -> Option<core::cmp::Ordering> {
        Some(cmp_values(self.value(), other.value()))
    }
}

} // verus!
