use vstd::prelude::*;
use vstd::arithmetic::div_mod::*;
use vstd::arithmetic::mul::*;
use vstd::arithmetic::power::*;
use vstd::arithmetic::power2::*;
use crate::big_int::{base, lemma_carry_step, lemma_seq_val_low, lemma_seq_val_skip, lemma_value_parity, lemma_seq_val_take, lemma_seq_val_zero, lemma_wpow_pos, lemma_wpow_step, seq_val, wpow, BigUInt, WORD_BASE};
use crate::word_math::inverse_pow2_bits;
use vstd::bits::lemma_u64_shr_is_div;

verus! {

/// `mc` is the Montgomery constant of the odd low word `n0`: `mc·n0 ≡ −1 (mod 2^64)`.
pub open spec fn is_montgomery_constant(mc: u64, n0: u64) -> bool {
    (mc * n0) % (base() as int) == base() - 1
}

/// The multiple of the modulus chosen by the reduction clears the low word.
proof fn lemma_reduction_digit(x: u64, mc: u64, n0: u64)
    requires
        is_montgomery_constant(mc, n0),
    ensures
        (x + ((x * mc) % (base() as int)) * n0) % (base() as int) == 0,
{
    let b = base() as int;
    let m = (x * mc) % b;
    lemma_mul_mod_noop_left(x * mc, n0 as int, b);
    assert((x * mc) * n0 == x * (mc * n0)) by (nonlinear_arith);
    lemma_mul_mod_noop_right(x as int, mc * n0, b);
    // m·n0 ≡ x·(b − 1) ≡ −x
    assert(x * (b - 1) + x == x * b) by (nonlinear_arith);
    lemma_add_mod_noop(m * n0, x as int, b);
    lemma_add_mod_noop(x * (b - 1), x as int, b);
    lemma_mod_multiples_basic(x as int, b);
    lemma_mul_is_commutative(x as int, b);
}

/// One step of the multiply-accumulate row: the accumulator's low `j + 1` words plus
/// the carry equal the old low words plus `a`'s low words times `bi`.
proof fn lemma_row_step(lo: int, olo: int, alo: int, cs: int, d: int, c: int, c_old: int, rj: int, aj: int, bi: int, w: int)
    requires
        lo + c_old * w == olo + alo * bi,
        cs == rj + aj * bi + c_old,
        d == cs % (base() as int),
        c == cs / (base() as int),
    ensures
        (lo + d * w) + c * (base() * w) == (olo + rj * w) + (alo + aj * w) * bi,
{
    lemma_carry_step(cs, d, c, w);
    assert((rj + aj * bi + c_old) * w == rj * w + (aj * w) * bi + c_old * w) by (nonlinear_arith);
    assert((alo + aj * w) * bi == alo * bi + (aj * w) * bi) by (nonlinear_arith);
}

/// One step of the modulus fold, whose output sits one word below its input.
proof fn lemma_fold_step(lo: int, olo: int, nlo: int, cs: int, d: int, c: int, c_old: int, rj: int, nj: int, m: int, w_prev: int)
    requires
        lo * base() + c_old * (base() * w_prev) == olo + m * nlo,
        cs == rj + m * nj + c_old,
        d == cs % (base() as int),
        c == cs / (base() as int),
    ensures
        (lo + d * w_prev) * base() + c * (base() * (base() * w_prev)) == (olo + rj * (base()
            * w_prev)) + m * (nlo + nj * (base() * w_prev)),
{
    let w = base() * w_prev;
    lemma_carry_step(cs, d, c, w);
    assert((lo + d * w_prev) * base() == lo * base() + d * w) by (nonlinear_arith)
        requires
            w == base() * w_prev,
    ;
    assert((rj + m * nj + c_old) * w == rj * w + m * (nj * w) + c_old * w) by (nonlinear_arith);
    assert(m * (nlo + nj * w) == m * nlo + m * (nj * w)) by (nonlinear_arith);
}

/// Bound of one outer round: `(t + a·bi + m·n) / B < 2n` when `t < 2n` and `a < n`.
proof fn lemma_round_bound(t: int, a: int, bi: int, m: int, n: int, t_new: int)
    requires
        0 <= t < 2 * n,
        0 <= a < n,
        0 <= bi < base(),
        0 <= m < base(),
        t_new * base() == t + a * bi + m * n,
    ensures
        t_new < 2 * n,
{
    let b = base() as int;
    assert(a * bi <= (n - 1) * (b - 1)) by (nonlinear_arith)
        requires
            0 <= a <= n - 1,
            0 <= bi <= b - 1,
    ;
    assert(m * n <= (b - 1) * n) by (nonlinear_arith)
        requires
            0 <= m <= b - 1,
            n > 0,
    ;
    assert(t_new * b < 2 * n * b) by (nonlinear_arith)
        requires
            t_new * b == t + a * bi + m * n,
            t < 2 * n,
            a * bi <= (n - 1) * (b - 1),
            m * n <= (b - 1) * n,
            n >= 1,
            b > 1,
    ;
    assert(t_new < 2 * n) by (nonlinear_arith)
        requires
            t_new * b < 2 * n * b,
            b > 0,
    ;
}

/// Congruence of one outer round: multiplying the new accumulator by the next weight
/// gives, modulo `n`, the old congruence extended by one word of the multiplier.
proof fn lemma_round_congruence(t: int, t_new: int, a: int, blo: int, bi: int, m: int, n: int, w: int)
    requires
        n > 0,
        (t * w) % n == (a * blo) % n,
        t_new * base() == t + a * bi + m * n,
    ensures
        (t_new * (base() * w)) % n == (a * (blo + bi * w)) % n,
{
    let b = base() as int;
    lemma_mul_is_associative(t_new, b, w);
    assert((t + a * bi + m * n) * w == t * w + (a * bi) * w + (m * n) * w) by (nonlinear_arith);
    lemma_mul_is_associative(a, bi, w);
    assert((m * n) * w == (m * w) * n) by (nonlinear_arith);
    assert(t_new * (base() * w) == t * w + a * (bi * w) + (m * w) * n);
    lemma_mul_is_commutative(m * w, n);
    lemma_mod_multiples_vanish(m * w, t * w + a * (bi * w), n);
    assert((t_new * (base() * w)) % n == (t * w + a * (bi * w)) % n);
    lemma_add_mod_noop(t * w, a * (bi * w), n);
    lemma_add_mod_noop(a * blo, a * (bi * w), n);
    assert((t * w + a * (bi * w)) % n == (a * blo + a * (bi * w)) % n);
    assert(a * (blo + bi * w) == a * blo + a * (bi * w)) by (nonlinear_arith);
}


/// The word weights are powers of two.
pub proof fn lemma_wpow_pow2(i: nat)
    ensures
        wpow(i) == pow2(64 * i),
    decreases i,
{
    if i == 0 {
        lemma2_to64();
    } else {
        lemma_wpow_pow2((i - 1) as nat);
        lemma2_to64();
        lemma2_to64_rest();
        lemma_pow2_adds(64, 64 * (i - 1) as nat);
        assert(64 + 64 * (i - 1) as nat == 64 * i) by (nonlinear_arith)
            requires
                i >= 1,
        ;
    }
}

/// An odd modulus cancels a factor of two.
proof fn lemma_cancel_two(x: int, y: int, n: int)
    requires
        n > 0,
        n % 2 == 1,
        (2 * x) % n == (2 * y) % n,
    ensures
        x % n == y % n,
{
    let d = x - y;
    lemma_mod_equivalence(2 * x, 2 * y, n);
    assert(2 * x - 2 * y == 2 * d);
    lemma_fundamental_div_mod(2 * d, n);
    let q = (2 * d) / n;
    assert(2 * d == n * q);
    lemma_fundamental_div_mod(q, 2);
    lemma_fundamental_div_mod(n, 2);
    let h = q / 2;
    let g = n / 2;
    if q % 2 == 1 {
        assert(n * q == 2 * (2 * g * h + g + h) + 1) by (nonlinear_arith)
            requires
                n == 2 * g + 1,
                q == 2 * h + 1,
        ;
        assert(false);
    }
    assert(d == n * h) by (nonlinear_arith)
        requires
            2 * d == n * q,
            q == 2 * h,
    ;
    lemma_mod_multiples_basic(h, n);
    lemma_mul_is_commutative(h, n);
    lemma_mod_equivalence(x, y, n);
}

/// An odd modulus cancels a power of two.
pub proof fn lemma_cancel_pow2(x: int, y: int, n: int, k: nat)
    requires
        n > 0,
        n % 2 == 1,
        (x * pow2(k)) % n == (y * pow2(k)) % n,
    ensures
        x % n == y % n,
    decreases k,
{
    if k > 0 {
        lemma_pow2_unfold(k);
        let p = pow2((k - 1) as nat) as int;
        assert(x * pow2(k) == (2 * x) * p) by (nonlinear_arith)
            requires
                pow2(k) == 2 * p,
        ;
        assert(y * pow2(k) == (2 * y) * p) by (nonlinear_arith)
            requires
                pow2(k) == 2 * p,
        ;
        lemma_cancel_pow2(2 * x, 2 * y, n, (k - 1) as nat);
        lemma_cancel_two(x, y, n);
    } else {
        lemma2_to64();
    }
}

/// An odd modulus cancels the factor `R = 2^(64·WORDS)` of Montgomery form.
pub proof fn lemma_cancel_modulus(x: int, y: int, n: int, words: nat)
    requires
        n > 0,
        n % 2 == 1,
        (x * wpow(words)) % n == (y * wpow(words)) % n,
    ensures
        x % n == y % n,
{
    lemma_wpow_pow2(words);
    lemma_cancel_pow2(x, y, n, 64 * words);
}

/// Montgomery form is kept by Montgomery multiplication: if `x` and `y` stand for `xx`
/// and `yy` (times `R`, modulo `n`), their product `z` stands for `xx·yy`.
pub proof fn lemma_montgomery_product(x: int, y: int, z: int, xx: int, yy: int, n: int, words: nat)
    requires
        n > 0,
        n % 2 == 1,
        x % n == (xx * wpow(words)) % n,
        y % n == (yy * wpow(words)) % n,
        (z * wpow(words)) % n == (x * y) % n,
    ensures
        z % n == (xx * yy * wpow(words)) % n,
{
    let r = wpow(words) as int;
    lemma_mul_mod_noop_general(x, y, n);
    lemma_mul_mod_noop_general(xx * r, yy * r, n);
    assert((xx * r) * (yy * r) == (xx * yy * r) * r) by (nonlinear_arith);
    lemma_cancel_modulus(z, xx * yy * r, n, words);
}

impl<const WORDS: usize> BigUInt<WORDS> {
    /// The Montgomery constant of the modulus `self`: `−n[0]⁻¹ mod 2^64`.
    pub fn calc_montgomery_constant(&self) -> (r: u64)
        requires
            WORDS >= 1,
            self.num[0] % 2 == 1,
        ensures
            is_montgomery_constant(r, self.num[0]),
    {
        inverse_pow2_bits(self.num[0])
    }

    /// Montgomery multiplication: `self · other · R⁻¹ mod n`, with `R = 2^(64·WORDS)`,
    /// word by word over `other` (separated operand scanning). Stated without the inverse:
    /// the result is below `n` and times `R` it is congruent to `self · other` modulo `n`.
    /// The receiver must be reduced below `n`; the scanned operand `other` may be any
    /// value of the width (so an unreduced base goes in as `other`). The accumulator then
    /// stays below `2n`, so one conditional subtraction ends it.
    pub fn monty_mul(&self, other: &Self, n: &Self, mc: u64) -> (r: Self)
        requires
            WORDS >= 1,
            n.value() % 2 == 1,
            self.value() < n.value(),
            is_montgomery_constant(mc, n.num[0]),
        ensures
            r.value() < n.value(),
            (r.value() * Self::modulus()) as int % (n.value() as int) == (self.value()
                * other.value()) as int % (n.value() as int),
    {
        let mut res = [0u64; WORDS];
        let mut res1: u64 = 0;
        let mut res2: u64;
        let ghost nv = n.value() as int;
        let ghost av = self.value() as int;
        let ghost rr = Self::modulus() as int;
        proof {
            lemma_seq_val_zero(res@);
            lemma_wpow_pos(WORDS as nat);
            assert(wpow(0) == 1);
            assert(other.num@.take(0).len() == 0);
            assert(seq_val(other.num@.take(0)) == 0);
            assert((0 * 1int) % nv == (av * 0) % nv);
        }
        let mut i: usize = 0;
        while i < WORDS
            invariant
                1 <= WORDS,
                i <= WORDS,
                nv == n.value(),
                av == self.value(),
                rr == Self::modulus(),
                rr > 0,
                nv % 2 == 1,
                av < nv,
                is_montgomery_constant(mc, n.num[0]),
                res1 <= 1,
                seq_val(res@) + res1 * rr < 2 * nv,
                ((seq_val(res@) + res1 * rr) * wpow(i as nat)) % nv == (av * seq_val(
                    other.num@.take(i as int),
                )) % nv,
            decreases WORDS - i,
        {
            let ghost t_old = seq_val(res@) + res1 * rr;
            let ghost r0 = res@;
            let bi = other.num[i];
            // res += self * bi
            let mut c: u64 = 0;
            let mut j: usize = 0;
            proof {
                assert(seq_val(res@.take(0)) == 0);
                assert(seq_val(self.num@.take(0)) == 0);
                assert(0 * bi == 0);
                assert(res@.skip(0) =~= r0.skip(0));
            }
            while j < WORDS
                invariant
                    j <= WORDS,
                    res@.len() == WORDS,
                    r0.len() == WORDS,
                    res@.skip(j as int) == r0.skip(j as int),
                    seq_val(res@.take(j as int)) + c * wpow(j as nat) == seq_val(r0.take(j as int))
                        + seq_val(self.num@.take(j as int)) * bi,
                decreases WORDS - j,
            {
                let ghost before = res@;
                let ghost c_old = c;
                proof {
                    assert(res@[j as int] == before.skip(j as int)[0]);
                    assert(r0[j as int] == r0.skip(j as int)[0]);
                    assert(c * bi <= 0xffff_ffff_ffff_ffff * 0xffff_ffff_ffff_ffffu64 as int) by (nonlinear_arith)
                        requires c <= 0xffff_ffff_ffff_ffffu64, bi <= 0xffff_ffff_ffff_ffffu64;
                    let (x, y) = (self.num[j as int], bi);
                    assert(x * y <= 0xffff_ffff_ffff_ffff * 0xffff_ffff_ffff_ffffu64 as int) by (nonlinear_arith)
                        requires x <= 0xffff_ffff_ffff_ffffu64, y <= 0xffff_ffff_ffff_ffffu64;
                }
                let mut cs: u128 = res[j] as u128;
                cs += self.num[j] as u128 * bi as u128;
                cs += c as u128;
                c = (cs / WORD_BASE) as u64;
                res[j] = (cs % WORD_BASE) as u64;
                proof {
                    assert(res@.take(j as int) =~= before.take(j as int));
                    lemma_seq_val_take(res@, j as int);
                    lemma_seq_val_take(r0, j as int);
                    lemma_seq_val_take(self.num@, j as int);
                    lemma_wpow_step(j as nat);
                    lemma_row_step(
                        seq_val(before.take(j as int)) as int,
                        seq_val(r0.take(j as int)) as int,
                        seq_val(self.num@.take(j as int)) as int,
                        cs as int,
                        res@[j as int] as int,
                        c as int,
                        c_old as int,
                        r0[j as int] as int,
                        self.num[j as int] as int,
                        bi as int,
                        wpow(j as nat) as int,
                    );
                    assert(res@.skip(j + 1) =~= r0.skip(j + 1)) by {
                        assert forall|k: int| 0 <= k < WORDS - j - 1 implies #[trigger] res@.skip(j + 1)[k]
                            == r0.skip(j + 1)[k] by {
                            assert(before.skip(j as int)[k + 1] == r0.skip(j as int)[k + 1]);
                        }
                    }
                }
                j += 1;
            }
            proof {
                assert(res@.take(WORDS as int) =~= res@);
                assert(r0.take(WORDS as int) =~= r0);
                assert(self.num@.take(WORDS as int) =~= self.num@);
            }
            let ghost res1_before = res1;
            let cs: u128 = res1 as u128 + c as u128;
            res1 = (cs % WORD_BASE) as u64;
            res2 = (cs / WORD_BASE) as u64;
            // t_old + self·bi, held as res + res1·R + res2·R·B
            let ghost r1 = res@;
            proof {
                assert(seq_val(r1) + c * rr == seq_val(r0) + av * bi);
                lemma_fundamental_div_mod(cs as int, base() as int);
                assert(seq_val(r1) + res1 * rr + res2 * (base() * rr) == t_old + av * bi) by (nonlinear_arith)
                    requires
                        seq_val(r1) + c * rr == seq_val(r0) + av * bi,
                        t_old == seq_val(r0) + res1_before * rr,
                        res1_before + c == res1 + base() * res2,
                ;
            }
            proof {
                let (x, y) = (res[0], mc);
                assert(x * y <= 0xffff_ffff_ffff_ffff * 0xffff_ffff_ffff_ffffu64 as int) by (nonlinear_arith)
                    requires x <= 0xffff_ffff_ffff_ffffu64, y <= 0xffff_ffff_ffff_ffffu64;
                let (x, y) = (n.num[0], 0xffff_ffff_ffff_ffffu64);
                assert(x * y <= 0xffff_ffff_ffff_ffff * 0xffff_ffff_ffff_ffffu64 as int) by (nonlinear_arith)
                    requires x <= 0xffff_ffff_ffff_ffffu64, y <= 0xffff_ffff_ffff_ffffu64;
            }
            // fold in m·n, which clears the low word, and move down one word
            let m = (res[0] as u128 * mc as u128 % WORD_BASE) as u64;
            proof {
                let (x, y) = (m, n.num[0]);
                assert(x * y <= 0xffff_ffff_ffff_ffff * 0xffff_ffff_ffff_ffffu64 as int) by (nonlinear_arith)
                    requires x <= 0xffff_ffff_ffff_ffffu64, y <= 0xffff_ffff_ffff_ffffu64;
            }
            let mut cs: u128 = res[0] as u128 + m as u128 * n.num[0] as u128;
            c = (cs / WORD_BASE) as u64;
            proof {
                lemma_reduction_digit(res[0], mc, n.num[0]);
                lemma_fundamental_div_mod(cs as int, base() as int);
                lemma_seq_val_low(r1);
                lemma_seq_val_low(n.num@);
                assert(seq_val(res@.take(0)) == 0);
                assert(wpow(0) == 1);
                lemma_wpow_step(0);
                assert(m as int == (res[0] * mc) % (base() as int));
                assert(cs as int % (base() as int) == 0);
                assert(cs == c * base());
                assert(c * (base() * 1) == c * base());
                assert(0 * base() + c * (base() * 1) == seq_val(r1.take(1)) + m * seq_val(n.num@.take(1)));
            }
            let mut j: usize = 1;
            while j < WORDS
                invariant
                    1 <= j <= WORDS,
                    res@.len() == WORDS,
                    r1.len() == WORDS,
                    res@.skip(j as int) == r1.skip(j as int),
                    seq_val(res@.take(j - 1)) * base() + c * wpow(j as nat) == seq_val(r1.take(j as int))
                        + m * seq_val(n.num@.take(j as int)),
                decreases WORDS - j,
            {
                let ghost before = res@;
                let ghost c_old = c;
                proof {
                    assert(res@[j as int] == before.skip(j as int)[0]);
                    assert(r1[j as int] == r1.skip(j as int)[0]);
                    let (x, y) = (m, n.num[j as int]);
                    assert(x * y <= 0xffff_ffff_ffff_ffff * 0xffff_ffff_ffff_ffffu64 as int) by (nonlinear_arith)
                        requires x <= 0xffff_ffff_ffff_ffffu64, y <= 0xffff_ffff_ffff_ffffu64;
                }
                cs = res[j] as u128;
                cs += m as u128 * n.num[j] as u128;
                cs += c as u128;
                c = (cs / WORD_BASE) as u64;
                res[j - 1] = (cs % WORD_BASE) as u64;
                proof {
                    assert(res@.take(j - 1) =~= before.take(j - 1));
                    lemma_seq_val_take(res@, j - 1);
                    lemma_seq_val_take(r1, j as int);
                    lemma_seq_val_take(n.num@, j as int);
                    lemma_wpow_step((j - 1) as nat);
                    lemma_wpow_step(j as nat);
                    lemma_fold_step(
                        seq_val(before.take(j - 1)) as int,
                        seq_val(r1.take(j as int)) as int,
                        seq_val(n.num@.take(j as int)) as int,
                        cs as int,
                        res@[j - 1] as int,
                        c as int,
                        c_old as int,
                        r1[j as int] as int,
                        n.num[j as int] as int,
                        m as int,
                        wpow((j - 1) as nat) as int,
                    );
                    assert(res@.skip(j + 1) =~= r1.skip(j + 1)) by {
                        assert forall|k: int| 0 <= k < WORDS - j - 1 implies #[trigger] res@.skip(j + 1)[k]
                            == r1.skip(j + 1)[k] by {
                            assert(before.skip(j as int)[k + 1] == r1.skip(j as int)[k + 1]);
                        }
                    }
                }
                j += 1;
            }
            cs = res1 as u128 + c as u128;
            let ghost before = res@;
            let ghost res1_mid = res1;
            res[WORDS - 1] = (cs % WORD_BASE) as u64;
            res1 = res2 + (cs / WORD_BASE) as u64;
            proof {
                let last = (WORDS - 1) as int;
                assert(res@.take(last) =~= before.take(last));
                lemma_seq_val_take(res@, last);
                assert(res@.take(WORDS as int) =~= res@);
                assert(r1.take(WORDS as int) =~= r1);
                assert(n.num@.take(WORDS as int) =~= n.num@);
                lemma_wpow_step(last as nat);
                lemma_fundamental_div_mod(cs as int, base() as int);
                let lo = seq_val(before.take(last)) as int;
                let wl = wpow(last as nat) as int;
                let t_new = seq_val(res@) + res1 * rr;
                assert(t_new * base() == t_old + av * bi + m * nv) by (nonlinear_arith)
                    requires
                        seq_val(res@) == lo + res@[last] * wl,
                        rr == base() * wl,
                        lo * base() + c * rr == seq_val(r1) + m * nv,
                        seq_val(r1) + res1_mid * rr + res2 * (base() * rr) == t_old + av * bi,
                        cs == res1_mid + c,
                        cs == res@[last] + base() * (cs as int / base() as int),
                        res1 == res2 + cs as int / base() as int,
                        t_new == seq_val(res@) + res1 * rr,
                ;
                lemma_round_bound(t_old, av, bi as int, m as int, nv, t_new);
                lemma_seq_val_take(other.num@, i as int);
                lemma_wpow_step(i as nat);
                lemma_round_congruence(
                    t_old,
                    t_new,
                    av,
                    seq_val(other.num@.take(i as int)) as int,
                    bi as int,
                    m as int,
                    nv,
                    wpow(i as nat) as int,
                );
                n.lemma_value_bound();
                assert(res1 <= 1) by (nonlinear_arith)
                    requires
                        seq_val(res@) + res1 * rr < 2 * nv,
                        nv < rr,
                        seq_val(res@) >= 0,
                        rr > 0,
                ;
            }
            i += 1;
        }
        let ghost t = seq_val(res@) + res1 * rr;
        // the accumulator is below 2n; its carry word counts too
        let mut ret = BigUInt { num: res };
        proof {
            assert(other.num@.take(WORDS as int) =~= other.num@);
            n.lemma_value_bound();
            ret.lemma_value_bound();
        }
        if res1 != 0 || !matches!(ret.cmp(n), core::cmp::Ordering::Less) {
            let ghost before = ret.value() as int;
            ret = ret.sub(n);
            proof {
                if res1 != 0 {
                    lemma_fundamental_div_mod_converse_mod(before - nv, rr, -1, t - nv);
                }
                lemma_mod_multiples_vanish(-rr, t * rr, nv);
                assert((t - nv) * rr == t * rr + (-rr) * nv) by (nonlinear_arith);
            }
        }
        ret
    }

    /// `2·self mod n`, for `self < n`.
    fn double_mod(&self, n: &Self) -> (r: Self)
        requires
            self.value() < n.value(),
        ensures
            r.value() == (2 * self.value()) as int % (n.value() as int),
            r.value() < n.value(),
    {
        let d = self.add(*self);
        let ghost x = self.value() as int;
        let ghost nv = n.value() as int;
        let ghost rr = Self::modulus() as int;
        proof {
            self.lemma_value_bound();
            n.lemma_value_bound();
            if 2 * x >= rr {
                lemma_fundamental_div_mod_converse_mod(2 * x, rr, 1, 2 * x - rr);
            } else {
                lemma_small_mod((2 * x) as nat, rr as nat);
            }
        }
        let r = if matches!(d.cmp(self), core::cmp::Ordering::Less) || !matches!(
            d.cmp(n),
            core::cmp::Ordering::Less,
        ) {
            let r = d.sub(n);
            proof {
                if 2 * x >= rr {
                    lemma_fundamental_div_mod_converse_mod(d.value() - nv, rr, -1, 2 * x - nv);
                }
            }
            r
        } else {
            d
        };
        proof {
            if 2 * x >= nv {
                lemma_fundamental_div_mod_converse_mod(2 * x, nv, 1, 2 * x - nv);
            } else {
                lemma_small_mod((2 * x) as nat, nv as nat);
            }
        }
        r
    }

    /// `R² mod n` for the modulus `self`, with `R = 2^(64·WORDS)`: starting from one,
    /// doubles modulo `n` once for each bit of `R²`.
    pub fn r2n(&self) -> (r: Self)
        requires
            WORDS >= 1,
            self.value() >= 1,
        ensures
            r.value() == (Self::modulus() * Self::modulus()) as int % (self.value() as int),
            r.value() < self.value(),
    {
        let ghost nv = self.value() as int;
        let mut x = Self::one();
        if !matches!(x.cmp(self), core::cmp::Ordering::Less) {
            x = x.sub(self);
        }
        let ghost mut k: nat = 0;
        proof {
            lemma2_to64();
            if nv > 1 {
                lemma_small_mod(1, nv as nat);
            }
            if nv == 1 {
                assert(x.value() == 0);
            }
            assert(x.value() == pow2(0) as int % nv);
        }
        let mut half: usize = 0;
        while half < 2
            invariant
                WORDS >= 1,
                nv == self.value(),
                nv >= 1,
                half <= 2,
                k == half * (64 * WORDS),
                x.value() < nv,
                x.value() == pow2(k) as int % nv,
            decreases 2 - half,
        {
            let mut w: usize = 0;
            while w < WORDS
                invariant
                    nv == self.value(),
                    nv >= 1,
                    half < 2,
                    w <= WORDS,
                    k == half * (64 * WORDS) + 64 * w,
                    x.value() < nv,
                    x.value() == pow2(k) as int % nv,
                decreases WORDS - w,
            {
                let mut b: usize = 0;
                while b < 64
                    invariant
                        nv == self.value(),
                        nv >= 1,
                        half < 2,
                        w < WORDS,
                        b <= 64,
                        k == half * (64 * WORDS) + 64 * w + b,
                        x.value() < nv,
                        x.value() == pow2(k) as int % nv,
                    decreases 64 - b,
                {
                    x = x.double_mod(self);
                    proof {
                        lemma_mul_mod_noop_right(2, pow2(k) as int, nv);
                        lemma_pow2_unfold(k + 1);
                        k = k + 1;
                    }
                    b += 1;
                }
                w += 1;
            }
            proof {
                assert(half * (64 * WORDS) + 64 * WORDS == (half + 1) * (64 * WORDS)) by (nonlinear_arith);
            }
            half += 1;
        }
        proof {
            lemma_wpow_pow2(WORDS as nat);
            lemma_pow2_adds(64 * WORDS as nat, 64 * WORDS as nat);
        }
        x
    }

    /// `self^pow mod n`, by square-and-multiply in Montgomery form over the bits of
    /// `pow` from the most significant down.
    pub fn pow_mod(&self, pow: &Self, n: &Self) -> (r: Self)
        requires
            WORDS >= 1,
            n.value() % 2 == 1,
        ensures
            r.value() == vstd::arithmetic::power::pow(self.value() as int, pow.value()) % (
            n.value() as int),
            r.value() < n.value(),
    {
        let ghost nv = n.value() as int;
        let ghost a = self.value() as int;
        let ghost rr = Self::modulus() as int;
        let ghost wn = WORDS as nat;
        proof {
            lemma_value_parity(n.num@);
        }
        let mc = n.calc_montgomery_constant();
        let r2 = n.r2n();
        let one = Self::one();
        let base_m = r2.monty_mul(self, n, mc);
        let mut acc = r2.monty_mul(&one, n, mc);
        proof {
            lemma_wpow_pos(wn);
            // r2 stands for R
            assert(r2.value() as int % nv == (rr * rr) % nv) by {
                lemma_mod_twice(rr * rr, nv);
                lemma_small_mod(r2.value(), nv as nat);
            }
            lemma_mul_mod_noop_left(r2.value() as int, a, nv);
            lemma_mul_mod_noop_left(rr * rr, a, nv);
            assert((rr * rr) * a == (a * rr) * rr) by (nonlinear_arith);
            lemma_cancel_modulus(base_m.value() as int, a * rr, nv, wn);
            lemma_mul_mod_noop_left(r2.value() as int, 1, nv);
            lemma_mul_mod_noop_left(rr * rr, 1, nv);
            assert((rr * rr) * 1 == (1 * rr) * rr) by (nonlinear_arith);
            lemma_cancel_modulus(acc.value() as int, 1 * rr, nv, wn);
            lemma_pow0(a);
            assert(pow.num@.skip(WORDS as int).len() == 0);
            assert(seq_val(pow.num@.skip(WORDS as int)) == 0);
            lemma_small_mod(acc.value(), nv as nat);
            lemma_small_mod(base_m.value(), nv as nat);
        }
        let ghost mut e: nat = 0;
        let mut i: usize = WORDS;
        while i > 0
            invariant
                WORDS >= 1,
                i <= WORDS,
                nv == n.value(),
                nv % 2 == 1,
                a == self.value(),
                rr == Self::modulus(),
                wn == WORDS,
                rr == wpow(wn),
                is_montgomery_constant(mc, n.num[0]),
                base_m.value() < nv,
                base_m.value() == (a * rr) % nv,
                acc.value() < nv,
                acc.value() == (vstd::arithmetic::power::pow(a, e) * rr) % nv,
                e == seq_val(pow.num@.skip(i as int)),
            decreases i,
        {
            i -= 1;
            let w = pow.num[i];
            let ghost hi = seq_val(pow.num@.skip(i + 1)) as int;
            proof {
                lemma2_to64();
                lemma2_to64_rest();
                lemma_word_over_pow2(w as int);
                assert(pow2(0) == 1);
                assert(hi * pow2(0) == hi);
                assert(e == hi);
            }
            let mut j: usize = 64;
            while j > 0
                invariant
                    j <= 64,
                    nv == n.value(),
                    nv % 2 == 1,
                    a == self.value(),
                    rr == Self::modulus(),
                    wn == WORDS,
                    rr == wpow(wn),
                    is_montgomery_constant(mc, n.num[0]),
                    base_m.value() < nv,
                    base_m.value() == (a * rr) % nv,
                    acc.value() < nv,
                    acc.value() == (vstd::arithmetic::power::pow(a, e) * rr) % nv,
                    e == hi * pow2((64 - j) as nat) + w as int / pow2(j as nat) as int,
                decreases j,
            {
                j -= 1;
                let ghost e_old = e;
                let ghost p_old = vstd::arithmetic::power::pow(a, e_old);
                let sq = acc.monty_mul(&acc, n, mc);
                proof {
                    lemma_small_mod(acc.value(), nv as nat);
                    lemma_small_mod(sq.value(), nv as nat);
                    lemma_montgomery_product(
                        acc.value() as int,
                        acc.value() as int,
                        sq.value() as int,
                        p_old,
                        p_old,
                        nv,
                        wn,
                    );
                    lemma_pow_adds(a, e_old, e_old);
                    e = e_old + e_old;
                }
                acc = sq;
                let bit = (w >> j as u64) & 1;
                proof {
                    lemma_u64_shr_is_div(w, j as u64);
                    let v = w >> j as u64;
                    assert(v & 1 == v % 2) by (bit_vector);
                    lemma_exponent_step(w as int, hi, j as nat);
                }
                if bit == 1 {
                    let ghost p = vstd::arithmetic::power::pow(a, e);
                    let prod = acc.monty_mul(&base_m, n, mc);
                    proof {
                        lemma_small_mod(acc.value(), nv as nat);
                        lemma_small_mod(base_m.value(), nv as nat);
                        lemma_small_mod(prod.value(), nv as nat);
                        lemma_montgomery_product(
                            acc.value() as int,
                            base_m.value() as int,
                            prod.value() as int,
                            p,
                            a,
                            nv,
                            wn,
                        );
                        lemma_pow_adds(a, e, 1);
                        lemma_pow1(a);
                        e = e + 1;
                    }
                    acc = prod;
                }
            }
            proof {
                lemma_seq_val_skip(pow.num@, i as int);
                lemma2_to64();
                lemma2_to64_rest();
                lemma_mul_is_commutative(hi, base() as int);
            }
        }
        let r = acc.monty_mul(&one, n, mc);
        proof {
            assert(pow.num@.skip(0) =~= pow.num@);
            let p = vstd::arithmetic::power::pow(a, e);
            lemma_mod_twice(p * rr, nv);
            lemma_small_mod(acc.value(), nv as nat);
            lemma_mul_mod_noop_left(acc.value() as int, 1, nv);
            lemma_mul_mod_noop_left(p * rr, 1, nv);
            assert((p * rr) * 1 == p * rr);
            lemma_cancel_modulus(r.value() as int, p, nv, wn);
            lemma_small_mod(r.value(), nv as nat);
        }
        r
    }
}

/// A word divided by `2^64` is zero, and divided by `2^0` is itself.
proof fn lemma_word_over_pow2(w: int)
    requires
        0 <= w < pow2(64),
    ensures
        w / pow2(64) as int == 0,
        w / pow2(0) as int == w,
{
    lemma2_to64();
    lemma_basic_div(w, pow2(64) as int);
}

/// Taking one more bit of the word `w` doubles the exponent and adds that bit.
proof fn lemma_exponent_step(w: int, hi: int, j: nat)
    requires
        0 <= w,
        j < 64,
    ensures
        hi * pow2((64 - j) as nat) + w / pow2(j) as int == 2 * (hi * pow2((64 - (j + 1)) as nat) + w
            / pow2(j + 1) as int) + (w / pow2(j) as int) % 2,
{
    lemma_pow2_unfold((64 - j) as nat);
    lemma_pow2_unfold(j + 1);
    lemma_pow2_pos(j);
    let q = w / pow2(j) as int;
    lemma_div_denominator(w, pow2(j) as int, 2);
    lemma_mul_is_commutative(pow2(j) as int, 2);
    lemma_fundamental_div_mod(q, 2);
    assert(hi * pow2((64 - j) as nat) == 2 * (hi * pow2((64 - (j + 1)) as nat))) by (nonlinear_arith)
        requires
            pow2((64 - j) as nat) == 2 * pow2((64 - (j + 1)) as nat),
    ;
}

} // verus!
