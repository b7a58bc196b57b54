use vstd::prelude::*;
use vstd::arithmetic::div_mod::*;
use vstd::string::*;
use vstd::arithmetic::mul::*;
use vstd::arithmetic::power2::*;
use vstd::bits::lemma_u64_shr_is_div;
use crate::big_int::{base, lemma_seq_val_skip, lemma_wpow_pos, lemma_wpow_step, seq_val, wpow, BigUInt};

verus! {

/// The value of one hexadecimal digit, either case; any other character counts as zero.
pub open spec fn hex_digit_value(c: char) -> nat {
    if '0' <= c && c <= '9' {
        (c as nat - '0' as nat) as nat
    } else if 'a' <= c && c <= 'f' {
        (c as nat - 'a' as nat + 10) as nat
    } else if 'A' <= c && c <= 'F' {
        (c as nat - 'A' as nat + 10) as nat
    } else {
        0
    }
}

/// The value of a string of hexadecimal digits, most significant first.
pub open spec fn hex_value(s: Seq<char>) -> nat
    decreases s.len(),
{
    if s.len() == 0 {
        0
    } else {
        hex_value(s.drop_last()) * 16 + hex_digit_value(s.last())
    }
}

/// Decodes one hexadecimal digit.
fn digit_value(c: char) -> (r: u64)
    ensures
        r == hex_digit_value(c),
        r < 16,
{
    if '0' <= c && c <= '9' {
        (c as u32 - '0' as u32) as u64
    } else if 'a' <= c && c <= 'f' {
        (c as u32 - 'a' as u32 + 10) as u64
    } else if 'A' <= c && c <= 'F' {
        (c as u32 - 'A' as u32 + 10) as u64
    } else {
        0
    }
}

impl<const WORDS: usize> BigUInt<WORDS> {
    /// Parses hexadecimal digits, most significant first, in either case. A string
    /// longer than the width keeps its low-order digits: the value is taken modulo
    /// `2^(64·WORDS)`. Characters that are not hexadecimal digits count as zero.
    pub fn from_hex_str(input: &str) -> (r: Self)
        requires
            WORDS >= 1,
        ensures
            r.value() == hex_value(input@) as int % (Self::modulus() as int),
    {
        let len = input.unicode_len();
        let mut res = Self::zero();
        let ghost m = Self::modulus() as int;
        proof {
            lemma_wpow_pos((WORDS - 1) as nat);
            lemma_wpow_step((WORDS - 1) as nat);
            assert(m >= base()) by (nonlinear_arith)
                requires
                    m == base() * wpow((WORDS - 1) as nat),
                    wpow((WORDS - 1) as nat) >= 1,
            ;
            lemma_small_mod(0, m as nat);
            assert(input@.take(0).len() == 0);
        }
        let mut i: usize = 0;
        while i < len
            invariant
                WORDS >= 1,
                len == input@.len(),
                i <= len,
                m == Self::modulus(),
                m >= base(),
                res.value() == hex_value(input@.take(i as int)) as int % m,
            decreases len - i,
        {
            let c = input.get_char(i);
            let dig = digit_value(c);
            let ghost old_v = hex_value(input@.take(i as int)) as int;
            res = res.shl(4).add_word(dig);
            proof {
                vstd::arithmetic::power2::lemma2_to64();
                assert(input@.take(i + 1).drop_last() =~= input@.take(i as int));
                assert(input@.take(i + 1).last() == c);
                lemma_small_mod(dig as nat, m as nat);
                lemma_mul_mod_noop_left(old_v, 16, m);
                lemma_add_mod_noop((old_v % m) * 16, dig as int, m);
                lemma_add_mod_noop(old_v * 16, dig as int, m);
            }
            i += 1;
        }
        proof {
            assert(input@.take(len as int) =~= input@);
        }
        res
    }
}


/// The sixteen hexadecimal digits, upper case.
pub open spec fn hex_alphabet() -> Seq<char> {
    seq!['0', '1', '2', '3', '4', '5', '6', '7', '8', '9', 'A', 'B', 'C', 'D', 'E', 'F']
}

/// The two characters in front of the digits.
pub open spec fn hex_prefix() -> Seq<char> {
    seq!['0', 'x']
}

/// The prefix counts for nothing when the text is read back.
pub proof fn lemma_hex_prefix_value(s: Seq<char>)
    ensures
        hex_value(hex_prefix() + s) == hex_value(s),
{
    lemma_hex_value_concat(hex_prefix(), s);
    let p = hex_prefix();
    assert(p.drop_last() =~= seq!['0']);
    assert(seq!['0'].drop_last() =~= Seq::<char>::empty());
    assert(hex_value(Seq::<char>::empty()) == 0);
    assert(seq!['0'].last() == '0');
    assert(hex_digit_value('0') == 0);
    assert(hex_value(seq!['0']) == 0);
    assert(p.last() == 'x');
    assert(hex_digit_value('x') == 0);
    assert(hex_value(p) == 0);
    assert(0 * pow2(4 * s.len()) == 0);
}

/// The digit for `d < 16`.
pub open spec fn hex_char(d: nat) -> char {
    hex_alphabet()[d as int]
}

/// The low `k` hexadecimal digits of `w`, most significant first.
pub open spec fn word_hex(w: nat, k: nat) -> Seq<char>
    decreases k,
{
    if k == 0 {
        Seq::empty()
    } else {
        word_hex(w / 16, (k - 1) as nat).push(hex_char(w % 16))
    }
}

/// Sixteen digits for each word, the most significant word first.
pub open spec fn words_hex(t: Seq<u64>) -> Seq<char>
    decreases t.len(),
{
    if t.len() == 0 {
        Seq::empty()
    } else {
        words_hex(t.skip(1)) + word_hex(t[0] as nat, 16)
    }
}

proof fn lemma_hex_char(d: nat)
    requires
        d < 16,
    ensures
        hex_digit_value(hex_char(d)) == d,
{
    if d == 0 {
        assert(hex_char(0) == '0');
    } else if d == 1 {
        assert(hex_char(1) == '1');
    } else if d == 2 {
        assert(hex_char(2) == '2');
    } else if d == 3 {
        assert(hex_char(3) == '3');
    } else if d == 4 {
        assert(hex_char(4) == '4');
    } else if d == 5 {
        assert(hex_char(5) == '5');
    } else if d == 6 {
        assert(hex_char(6) == '6');
    } else if d == 7 {
        assert(hex_char(7) == '7');
    } else if d == 8 {
        assert(hex_char(8) == '8');
    } else if d == 9 {
        assert(hex_char(9) == '9');
    } else if d == 10 {
        assert(hex_char(10) == 'A');
    } else if d == 11 {
        assert(hex_char(11) == 'B');
    } else if d == 12 {
        assert(hex_char(12) == 'C');
    } else if d == 13 {
        assert(hex_char(13) == 'D');
    } else if d == 14 {
        assert(hex_char(14) == 'E');
    } else if d == 15 {
        assert(hex_char(15) == 'F');
    }
}

proof fn lemma_word_hex(w: nat, k: nat)
    ensures
        word_hex(w, k).len() == k,
        hex_value(word_hex(w, k)) == w % pow2(4 * k),
    decreases k,
{
    lemma2_to64();
    if k > 0 {
        lemma_word_hex(w / 16, (k - 1) as nat);
        let t = word_hex(w, k);
        assert(t.drop_last() =~= word_hex(w / 16, (k - 1) as nat));
        lemma_hex_char(w % 16);
        lemma_pow2_adds(4, 4 * (k - 1) as nat);
        assert(4 + 4 * (k - 1) as nat == 4 * k);
        lemma_pow2_pos(4 * (k - 1) as nat);
        lemma_mod_breakdown(w as int, 16, pow2(4 * (k - 1) as nat) as int);
        lemma_mul_is_commutative(16, (w / 16) as int % pow2(4 * (k - 1) as nat) as int);
    } else {
        lemma_mod_pow2_zero(w);
    }
}

proof fn lemma_mod_pow2_zero(w: nat)
    ensures
        w % pow2(0) == 0,
{
    lemma2_to64();
}

/// The value of two digit strings one after the other.
proof fn lemma_hex_value_concat(u: Seq<char>, v: Seq<char>)
    ensures
        hex_value(u + v) == hex_value(u) * pow2(4 * v.len()) + hex_value(v),
    decreases v.len(),
{
    lemma2_to64();
    if v.len() == 0 {
        assert(u + v =~= u);
        assert(pow2(0) == 1);
        assert(hex_value(u) * 1 == hex_value(u));
        assert(hex_value(v) == 0);
    } else {
        let n = (v.len() - 1) as nat;
        lemma_hex_value_concat(u, v.drop_last());
        assert((u + v).drop_last() =~= u + v.drop_last());
        assert((u + v).last() == v.last());
        lemma_pow2_adds(4 * n, 4);
        assert(4 * n + 4 == 4 * v.len());
        let h = hex_value(u) as int;
        assert(v.drop_last().len() == n);
        assert(pow2(4) == 16);
        assert(pow2(4 * v.len()) == pow2(4 * n) * 16);
        assert((h * pow2(4 * n) + hex_value(v.drop_last())) * 16 == h * (pow2(4 * n) * 16) + hex_value(
            v.drop_last(),
        ) * 16) by (nonlinear_arith);
        assert(hex_value(u + v) == hex_value(u + v.drop_last()) * 16 + hex_digit_value(v.last()));
        assert(hex_value(v) == hex_value(v.drop_last()) * 16 + hex_digit_value(v.last()));
    }
}

/// The digits of a word sequence spell its value.
pub proof fn lemma_words_hex_value(t: Seq<u64>)
    ensures
        hex_value(words_hex(t)) == seq_val(t),
        words_hex(t).len() == 16 * t.len(),
    decreases t.len(),
{
    if t.len() > 0 {
        lemma_words_hex_value(t.skip(1));
        lemma_word_hex(t[0] as nat, 16);
        lemma_hex_value_concat(words_hex(t.skip(1)), word_hex(t[0] as nat, 16));
        lemma2_to64();
        lemma2_to64_rest();
        lemma_small_mod(t[0] as nat, pow2(64));
        lemma_seq_val_skip(t, 0);
        assert(t.skip(0) =~= t);
        lemma_mul_is_commutative(seq_val(t.skip(1)) as int, base() as int);
    } else {
        assert(seq_val(t) == 0);
    }
}

impl<const WORDS: usize> BigUInt<WORDS> {
    /// Fixed-width hexadecimal: `0x`, then sixteen upper-case digits for each word, the
    /// most significant word first, each zero-padded to full width.
    pub fn to_hex_string(&self) -> (r: String)
        ensures
            r@ == hex_prefix() + words_hex(self.num@),
            r@.len() == 2 + 16 * WORDS,
    {
        let digits = "0123456789ABCDEF";
        proof {
            reveal_strlit("0123456789ABCDEF");
            assert(digits@ =~= hex_alphabet());
            assert(self.num@.skip(WORDS as int).len() == 0);
        }
        let mut out = String::new();
        out.append("0x");
        proof {
            reveal_strlit("0x");
            assert(out@ =~= hex_prefix() + words_hex(self.num@.skip(WORDS as int)));
        }
        let mut i: usize = WORDS;
        while i > 0
            invariant
                i <= WORDS,
                digits@ == hex_alphabet(),
                out@ == hex_prefix() + words_hex(self.num@.skip(i as int)),
            decreases i,
        {
            i -= 1;
            let w = self.num[i];
            let ghost start = out@;
            let ghost done = words_hex(self.num@.skip(i + 1));
            let mut j: usize = 16;
            proof {
                lemma2_to64();
                lemma2_to64_rest();
                lemma_basic_div(w as int, pow2(64) as int);
                assert(word_hex(w as nat / pow2(64), 0) =~= Seq::<char>::empty());
                assert(out@ =~= start + word_hex(w as nat / pow2(4 * 16), 0));
            }
            while j > 0
                invariant
                    j <= 16,
                    digits@ == hex_alphabet(),
                    out@ == start + word_hex(w as nat / pow2(4 * j as nat), (16 - j) as nat),
                decreases j,
            {
                j -= 1;
                let d = ((w >> (4 * j) as u64) & 15) as usize;
                proof {
                    lemma_u64_shr_is_div(w, (4 * j) as u64);
                    let v = w >> (4 * j) as u64;
                    assert(v & 15 == v % 16) by (bit_vector);
                    assert(v & 15 < 16) by (bit_vector);
                    lemma_pow2_adds(4 * j as nat, 4);
                    lemma2_to64();
                    lemma_pow2_pos(4 * j as nat);
                    lemma_div_denominator(w as int, pow2(4 * j as nat) as int, 16);
                    let q = w as nat / pow2(4 * j as nat);
                    assert(word_hex(q, (16 - j) as nat) == word_hex(q / 16, (16 - j - 1) as nat).push(
                        hex_char(q % 16),
                    ));
                }
                let piece = digits.substring_char(d, d + 1);
                out.append(piece);
                proof {
                    assert(piece@ =~= seq![hex_char(d as nat)]);
                    let q = w as nat / pow2(4 * j as nat);
                    assert(out@ =~= start + word_hex(q, (16 - j) as nat));
                }
            }
            proof {
                lemma2_to64();
                assert(w as nat / pow2(0) == w);
                assert(self.num@.skip(i as int).skip(1) =~= self.num@.skip(i + 1));
                assert(self.num@.skip(i as int)[0] == w);
                assert(words_hex(self.num@.skip(i as int)) == words_hex(self.num@.skip(i + 1))
                    + word_hex(w as nat, 16));
                assert(out@ =~= hex_prefix() + words_hex(self.num@.skip(i as int)));
            }
        }
        proof {
            assert(self.num@.skip(0) =~= self.num@);
            lemma_words_hex_value(self.num@);
        }
        out
    }
}

} // verus!
