//! C's `%g` conversion of a double, computed exactly from its bit pattern:
//! the double is expanded into its exact decimal digits with big-integer
//! arithmetic, rounded to the requested number of significant digits with
//! round-half-even, and laid out in fixed or exponential style.

use vstd::prelude::*;
use crate::number::{dbl_exp, dbl_frac, dbl_mant, dbl_scale, dbl_negative, dbl_special, dbl_is_nan, double_fields, two52};
use vstd::arithmetic::power2::pow2;
use vstd::arithmetic::div_mod::{lemma_fundamental_div_mod, lemma_fundamental_div_mod_converse, lemma_mod_bound, lemma_div_pos_is_pos};
use vstd::arithmetic::mul::{lemma_mul_inequality, lemma_mul_is_distributive_add, lemma_mul_is_associative, lemma_mul_is_commutative, lemma_mul_nonnegative};

verus! {

pub open spec fn limb_base() -> nat {
    4294967296
}

/// `limb_base()` to the power `i`.
pub open spec fn bpow(i: nat) -> nat
    decreases i,
{
    if i == 0 {
        1
    } else {
        limb_base() * bpow((i - 1) as nat)
    }
}

/// The number that little-endian base-2^32 limbs stand for.
pub open spec fn limbs_val(s: Seq<u32>) -> nat
    decreases s.len(),
{
    if s.len() == 0 {
        0
    } else {
        s[0] as nat + limb_base() * limbs_val(s.drop_first())
    }
}

pub proof fn lemma_bpow_pos(i: nat)
    ensures
        bpow(i) >= 1,
    decreases i,
{
    if i > 0 {
        lemma_bpow_pos((i - 1) as nat);
    }
}

/// The limbs split at `i`: the low part plus the high part scaled.
pub proof fn lemma_limbs_split(s: Seq<u32>, i: int)
    requires
        0 <= i <= s.len(),
    ensures
        limbs_val(s) == limbs_val(s.take(i)) + bpow(i as nat) * limbs_val(s.skip(i)),
    decreases i,
{
    if i == 0 {
        assert(s.take(0) =~= Seq::<u32>::empty());
        assert(s.skip(0) =~= s);
        assert(limbs_val(Seq::<u32>::empty()) == 0);
        assert(bpow(0) == 1);
        assert(bpow(0) * limbs_val(s) == limbs_val(s)) by (nonlinear_arith)
            requires bpow(0) == 1;
    } else {
        let s1 = s.drop_first();
        lemma_limbs_split(s1, i - 1);
        let t = s.take(i);
        assert(t.drop_first() =~= s1.take(i - 1));
        assert(t.len() > 0 && t[0] == s[0]);
        assert(limbs_val(t) == t[0] as nat + limb_base() * limbs_val(t.drop_first()));
        assert(s.skip(i) =~= s1.skip(i - 1));
        let a = limbs_val(s1.take(i - 1));
        let b = limbs_val(s1.skip(i - 1));
        let p = bpow((i - 1) as nat);
        assert(bpow(i as nat) == limb_base() * p);
        assert(limbs_val(s) == s[0] as nat + limb_base() * limbs_val(s1));
        assert(limb_base() * (a + p * b) == limb_base() * a + (limb_base() * p) * b) by (nonlinear_arith);
    }
}

pub proof fn lemma_limbs_take_step(s: Seq<u32>, i: int)
    requires
        0 <= i < s.len(),
    ensures
        limbs_val(s.take(i + 1)) == limbs_val(s.take(i)) + bpow(i as nat) * s[i] as nat,
{
    let t = s.take(i + 1);
    lemma_limbs_split(t, i);
    assert(t.take(i) =~= s.take(i));
    let one = seq![s[i]];
    assert(t.skip(i) =~= one);
    assert(one.drop_first() =~= Seq::<u32>::empty());
    assert(limbs_val(one) == s[i] as nat + limb_base() * limbs_val(one.drop_first()));
    assert(limbs_val(Seq::<u32>::empty()) == 0);
    assert(limbs_val(one) == s[i] as nat);
}

pub proof fn lemma_limbs_skip_step(s: Seq<u32>, i: int)
    requires
        0 <= i < s.len(),
    ensures
        limbs_val(s.skip(i)) == s[i] as nat + limb_base() * limbs_val(s.skip(i + 1)),
{
    assert(s.skip(i).drop_first() =~= s.skip(i + 1));
}

pub proof fn lemma_limbs_push(s: Seq<u32>, x: u32)
    ensures
        limbs_val(s.push(x)) == limbs_val(s) + bpow(s.len()) * x as nat,
{
    lemma_limbs_take_step(s.push(x), s.len() as int);
    assert(s.push(x).take(s.len() as int) =~= s);
    assert(s.push(x).take(s.len() as int + 1) =~= s.push(x));
}

/// A zero limb on top does not change the number.
pub proof fn lemma_limbs_drop_zero(s: Seq<u32>)
    requires
        s.len() > 0,
        s.last() == 0,
    ensures
        limbs_val(s) == limbs_val(s.drop_last()),
{
    lemma_limbs_push(s.drop_last(), 0);
    assert(s.drop_last().push(0) =~= s);
}

/// A nonzero top limb makes the number positive.
pub proof fn lemma_limbs_pos(s: Seq<u32>)
    requires
        s.len() > 0,
        s.last() != 0,
    ensures
        limbs_val(s) >= bpow((s.len() - 1) as nat),
{
    lemma_limbs_push(s.drop_last(), s.last());
    assert(s.drop_last().push(s.last()) =~= s);
    let p = bpow((s.len() - 1) as nat);
    assert(p * s.last() as nat >= p) by (nonlinear_arith)
        requires
            s.last() as nat >= 1,
            p >= 0,
    ;
}

pub proof fn lemma_bpow_is_pow2(w: nat)
    ensures
        bpow(w) == vstd::arithmetic::power2::pow2(32 * w),
    decreases w,
{
    if w == 0 {
        vstd::arithmetic::power2::lemma2_to64();
    } else {
        lemma_bpow_is_pow2((w - 1) as nat);
        vstd::arithmetic::power2::lemma_pow2_adds(32, 32 * (w - 1) as nat);
        vstd::arithmetic::power2::lemma2_to64();
        assert(32 * w == 32 + 32 * (w - 1) as nat) by (nonlinear_arith)
            requires w >= 1;
    }
}

pub proof fn lemma_limbs_small(s: Seq<u32>)
    ensures
        s.len() == 0 ==> limbs_val(s) == 0,
        s.len() == 1 ==> limbs_val(s) == s[0] as nat,
        s.len() == 2 ==> limbs_val(s) == s[0] as nat + limb_base() * s[1] as nat,
{
    assert(limbs_val(Seq::<u32>::empty()) == 0);
    if s.len() == 1 {
        assert(s.drop_first() =~= Seq::<u32>::empty());
    }
    if s.len() == 2 {
        let t = s.drop_first();
        assert(t.drop_first() =~= Seq::<u32>::empty());
        assert(limbs_val(t) == t[0] as nat);
    }
}

pub proof fn lemma_mul_step(a: nat, p: nat, l: nat, m: nat, cur: nat, low: nat, carry: nat, c0: nat, v: nat)
    requires
        a + c0 * p == v * m,
        cur == l * m + c0,
        cur == low + limb_base() * carry,
    ensures
        a + p * low + carry * (limb_base() * p) == (v + p * l) * m,
{
    assert(a + p * low + carry * (limb_base() * p) == a + p * (low + limb_base() * carry)) by (nonlinear_arith);
    assert(p * (l * m + c0) == p * l * m + c0 * p) by (nonlinear_arith);
    assert((v + p * l) * m == v * m + p * l * m) by (nonlinear_arith);
}

/// An unsigned integer of any size, in base 2^32, least significant limb first.
pub struct BigU32 {
    pub limbs: Vec<u32>,
}

impl BigU32 {
    pub open spec fn value(&self) -> nat {
        limbs_val(self.limbs@)
    }

    /// At least one limb.
    pub open spec fn wf(&self) -> bool {
        self.limbs@.len() >= 1
    }

    /// No zero limb on top, except for the single limb of zero.
    pub open spec fn normalized(&self) -> bool {
        self.limbs@.len() == 1 || self.limbs@.last() != 0
    }

    pub fn from_u64(x: u64) -> (r: BigU32)
        ensures
            r.wf(),
            r.normalized(),
            r.value() == x,
    {
        let mut limbs: Vec<u32> = Vec::new();
        limbs.push((x % 4294967296) as u32);
        if x >= 4294967296 {
            limbs.push((x / 4294967296) as u32);
        }
        proof {
            lemma_limbs_small(limbs@);
            assert(x as nat == (x % 4294967296) as nat + limb_base() * (x / 4294967296) as nat);
            assert(x / 4294967296 < 4294967296) by (nonlinear_arith)
                requires x < 18446744073709551616;
        }
        BigU32 { limbs }
    }

    pub fn is_zero(&self) -> (r: bool)
        requires
            self.wf(),
        ensures
            r == (self.limbs@.len() == 1 && self.limbs@[0] == 0),
            r ==> self.value() == 0,
            self.normalized() && !r ==> self.value() > 0,
    {
        proof {
            lemma_limbs_small(self.limbs@);
            if self.normalized() && !(self.limbs@.len() == 1 && self.limbs@[0] == 0) {
                lemma_limbs_pos(self.limbs@);
                lemma_bpow_pos((self.limbs@.len() - 1) as nat);
            }
        }
        self.limbs.len() == 1 && self.limbs[0] == 0
    }

    /// Multiplies by `m`.
    pub fn mul_small(&mut self, m: u32)
        requires
            old(self).wf(),
        ensures
            final(self).wf(),
            final(self).value() == old(self).value() * m,
            old(self).normalized() && m >= 1 ==> final(self).normalized(),
    {
        if m == 1 {
            return;
        }
        let ghost old_limbs = self.limbs@;
        let mut carry: u64 = 0;
        let mut i: usize = 0;
        let n = self.limbs.len();
        proof {
            assert(old_limbs.take(0) =~= Seq::<u32>::empty());
            assert(limbs_val(Seq::<u32>::empty()) == 0);
            assert(0 * bpow(0) == 0);
            assert(0 * (m as nat) == 0);
        }
        while i < n
            invariant
                n == self.limbs@.len(),
                n == old_limbs.len(),
                n >= 1,
                i <= n,
                carry < limb_base(),
                forall|j: int| i <= j < n ==> self.limbs@[j] == old_limbs[j],
                limbs_val(self.limbs@.take(i as int)) + carry * bpow(i as nat) == limbs_val(
                    old_limbs.take(i as int),
                ) * m,
                i > 0 && m >= 1 && old_limbs[i - 1] != 0 ==> (self.limbs@[i - 1] != 0 || carry != 0),
                old_limbs.len() == 1 && old_limbs[0] == 0 ==> carry == 0,
            decreases n - i,
        {
            let l = self.limbs[i];
            assert((l as u64) * (m as u64) + carry < 18446744073709551616) by (nonlinear_arith)
                requires
                    l < 4294967296,
                    m < 4294967296,
                    carry < 4294967296,
            ;
            let cur: u64 = (l as u64) * (m as u64) + carry;
            let ghost prev = self.limbs@;
            let ghost c0 = carry as nat;
            self.limbs.set(i, (cur % 4294967296) as u32);
            carry = cur / 4294967296;
            proof {
                lemma_limbs_take_step(self.limbs@, i as int);
                lemma_limbs_take_step(old_limbs, i as int);
                assert(self.limbs@.take(i as int) =~= prev.take(i as int));
                let p = bpow(i as nat);
                let a = limbs_val(prev.take(i as int));
                let v = limbs_val(old_limbs.take(i as int));
                assert(bpow((i + 1) as nat) == limb_base() * p);
                lemma_mul_step(a, p, l as nat, m as nat, cur as nat, (cur % 4294967296) as nat, carry as nat, c0, v);
                assert(carry < limb_base()) by (nonlinear_arith)
                    requires
                        cur < 18446744073709551616,
                        carry == cur / 4294967296,
                ;
                if m >= 1 && l != 0 && cur % 4294967296 == 0 {
                    assert(carry != 0) by (nonlinear_arith)
                        requires
                            cur as nat == (cur % 4294967296) as nat + 4294967296 * carry as nat,
                            cur >= l * m,
                            l >= 1,
                            m >= 1,
                            cur % 4294967296 == 0,
                    ;
                }
            }
            i += 1;
        }
        proof {
            assert(self.limbs@.take(n as int) =~= self.limbs@);
            assert(old_limbs.take(n as int) =~= old_limbs);
        }
        while carry > 0
            invariant
                carry < limb_base(),
                self.limbs@.len() >= 1,
                limbs_val(self.limbs@) + carry * bpow(self.limbs@.len()) == limbs_val(old_limbs) * m,
                m >= 1 && old_limbs.last() != 0 ==> (self.limbs@.last() != 0 || carry != 0),
                self.limbs@.len() == n || carry == 0,
                old_limbs.len() == 1 && old_limbs[0] == 0 ==> (carry == 0 && self.limbs@.len() == n),
                n == old_limbs.len(),
                n >= 1,
            decreases carry,
        {
            let ghost prev = self.limbs@;
            self.limbs.push(carry as u32);
            proof {
                lemma_limbs_push(prev, carry as u32);
                lemma_mul_is_commutative(carry as int, bpow(prev.len()) as int);
                assert(carry / 4294967296 == 0);
                assert(0 * bpow(self.limbs@.len()) == 0);
            }
            carry = carry / 4294967296;
        }
        proof {
            assert(0 * bpow(self.limbs@.len()) == 0);
        }
    }

    /// Multiplies by 2^n.
    pub fn shl_bits(&mut self, n: u32)
        requires
            old(self).wf(),
        ensures
            final(self).wf(),
            final(self).value() == old(self).value() * vstd::arithmetic::power2::pow2(n as nat),
            old(self).normalized() && old(self).value() > 0 ==> final(self).normalized(),
    {
        let word = (n / 32) as usize;
        let bits = n % 32;
        let ghost v0 = self.value();
        proof {
            lemma_limbs_small(self.limbs@);
        }
        if word > 0 {
            let mut new_limbs: Vec<u32> = Vec::new();
            let mut j: usize = 0;
            proof {
                assert(limbs_val(Seq::<u32>::empty()) == 0);
            }
            while j < word
                invariant
                    j <= word,
                    new_limbs@.len() == j,
                    limbs_val(new_limbs@) == 0,
                decreases word - j,
            {
                let ghost prev = new_limbs@;
                new_limbs.push(0);
                proof {
                    lemma_limbs_push(prev, 0);
                    assert(bpow(prev.len()) * 0 == 0);
                }
                j += 1;
            }
            let ghost zeros = new_limbs@;
            let mut k: usize = 0;
            let len = self.limbs.len();
            while k < len
                invariant
                    k <= len,
                    len == self.limbs@.len(),
                    zeros.len() == word,
                    limbs_val(zeros) == 0,
                    new_limbs@ == zeros + self.limbs@.take(k as int),
                decreases len - k,
            {
                new_limbs.push(self.limbs[k]);
                proof {
                    assert(new_limbs@ =~= zeros + self.limbs@.take(k + 1));
                }
                k += 1;
            }
            proof {
                assert(self.limbs@.take(len as int) =~= self.limbs@);
                lemma_limbs_split(new_limbs@, word as int);
                assert(new_limbs@.take(word as int) =~= zeros);
                assert(new_limbs@.skip(word as int) =~= self.limbs@);
                if self.limbs@.last() != 0 {
                    assert(new_limbs@.last() == self.limbs@.last());
                }
            }
            self.limbs = new_limbs;
        }
        proof {
            lemma_bpow_is_pow2(word as nat);
            if word == 0 {
                assert(bpow(0) == 1);
            }
        }
        let ghost v1 = self.value();
        assert(v1 == v0 * bpow(word as nat)) by {
            if word == 0 {
                assert(v0 * 1 == v0);
            } else {
                lemma_mul_is_commutative(v0 as int, bpow(word as nat) as int);
            }
        }
        proof {
            vstd::arithmetic::power2::lemma2_to64();
        }
        if bits > 0 {
            proof {
                vstd::bits::lemma_u32_pow2_no_overflow(bits as nat);
                vstd::arithmetic::power2::lemma_pow2_pos(bits as nat);
            }
            let f: u32 = 1u32 << bits;
            proof {
                vstd::bits::lemma_u32_shl_is_mul(1, bits);
            }
            self.mul_small(f);
        }
        proof {
            vstd::arithmetic::power2::lemma_pow2_adds(32 * word as nat, bits as nat);
            assert(n as nat == 32 * word as nat + bits as nat);
            let a = vstd::arithmetic::power2::pow2(32 * word as nat);
            let b = vstd::arithmetic::power2::pow2(bits as nat);
            assert(v0 * a * b == v0 * (a * b)) by (nonlinear_arith);
            if bits == 0 {
                assert(b == 1);
                assert(v0 * a * 1 == v0 * a);
            }
        }
    }

    /// Divides by 10^9 and returns the remainder.
    pub fn divmod_1e9(&mut self) -> (r: u32)
        requires
            old(self).wf(),
        ensures
            final(self).wf(),
            final(self).normalized(),
            final(self).value() == old(self).value() / 1000000000,
            r as nat == old(self).value() % 1000000000,
            final(self).limbs@.len() <= old(self).limbs@.len(),
    {
        let ghost old_limbs = self.limbs@;
        let mut rem: u64 = 0;
        let mut i: usize = self.limbs.len();
        while i > 0
            invariant
                i <= self.limbs@.len(),
                self.limbs@.len() == old_limbs.len(),
                rem < 1000000000,
                self.limbs@.take(i as int) == old_limbs.take(i as int),
                limbs_val(old_limbs.skip(i as int)) == limbs_val(self.limbs@.skip(i as int)) * 1000000000 + rem,
            decreases i,
        {
            i -= 1;
            let l = self.limbs[i];
            assert(l == old_limbs[i as int]) by {
                assert(old_limbs.take(i + 1)[i as int] == old_limbs[i as int]);
            }
            assert(rem * 4294967296 + (l as u64) < 18446744073709551616) by (nonlinear_arith)
                requires
                    rem < 1000000000,
                    l < 4294967296,
            ;
            let cur: u64 = rem * 4294967296 + (l as u64);
            let ghost prev = self.limbs@;
            self.limbs.set(i, (cur / 1000000000) as u32);
            let ghost q = cur / 1000000000;
            rem = cur % 1000000000;
            proof {
                assert(cur / 1000000000 < 4294967296) by (nonlinear_arith)
                    requires
                        cur < 1000000000 * 4294967296,
                ;
                lemma_limbs_skip_step(old_limbs, i as int);
                lemma_limbs_skip_step(self.limbs@, i as int);
                assert(self.limbs@.skip(i + 1) =~= prev.skip(i + 1));
                assert(self.limbs@.take(i as int) =~= old_limbs.take(i as int));
                let w = limbs_val(prev.skip(i + 1));
                let r0 = limbs_val(old_limbs.skip(i + 1)) - w * 1000000000;
                assert((q + limb_base() * w) * 1000000000 + rem == l as nat + limb_base() * (w
                    * 1000000000 + r0)) by (nonlinear_arith)
                    requires
                        cur as nat == q * 1000000000 + rem,
                        cur as nat == r0 * 4294967296 + l,
                        limb_base() == 4294967296,
                ;
            }
        }
        proof {
            assert(self.limbs@.skip(0) =~= self.limbs@);
            assert(old_limbs.skip(0) =~= old_limbs);
        }
        while self.limbs.len() > 1 && self.limbs[self.limbs.len() - 1] == 0
            invariant
                self.limbs@.len() >= 1,
                self.limbs@.len() <= old_limbs.len(),
                limbs_val(old_limbs) == limbs_val(self.limbs@) * 1000000000 + rem,
            decreases self.limbs@.len(),
        {
            let ghost prev = self.limbs@;
            self.limbs.pop();
            proof {
                lemma_limbs_drop_zero(prev);
                assert(prev.drop_last() =~= self.limbs@);
            }
        }
        proof {
            lemma_fundamental_div_mod_converse(
                limbs_val(old_limbs) as int,
                1000000000,
                limbs_val(self.limbs@) as int,
                rem as int,
            );
        }
        rem as u32
    }
}

/// 10 to the power `k`.
pub open spec fn pow10(k: nat) -> nat
    decreases k,
{
    if k == 0 {
        1
    } else {
        10 * pow10((k - 1) as nat)
    }
}

/// 5 to the power `k`.
pub open spec fn pow5(k: nat) -> nat
    decreases k,
{
    if k == 0 {
        1
    } else {
        5 * pow5((k - 1) as nat)
    }
}

/// The decimal digits of `v`, most significant first, without leading
/// zeros ("0" for zero).
pub open spec fn dec_digits(v: nat) -> Seq<u8>
    decreases v,
{
    if v < 10 {
        seq![(48 + v) as u8]
    } else {
        dec_digits(v / 10).push((48 + v % 10) as u8)
    }
}

/// The last `k` decimal digits of `v`, with leading zeros.
pub open spec fn pad_digits(v: nat, k: nat) -> Seq<u8>
    decreases k,
{
    if k == 0 {
        Seq::empty()
    } else {
        pad_digits(v / 10, (k - 1) as nat).push((48 + v % 10) as u8)
    }
}

pub proof fn lemma_pow10_pos(k: nat)
    ensures
        pow10(k) >= 1,
    decreases k,
{
    if k > 0 {
        lemma_pow10_pos((k - 1) as nat);
    }
}

/// Appending the `k` low digits to a positive number's digits.
pub proof fn lemma_dec_digits_concat(a: nat, b: nat, k: nat)
    requires
        a > 0,
        b < pow10(k),
    ensures
        dec_digits(a * pow10(k) + b) == dec_digits(a) + pad_digits(b, k),
    decreases k,
{
    if k == 0 {
        assert(pad_digits(b, 0) =~= Seq::<u8>::empty());
        assert(a * 1 + b == a) by (nonlinear_arith)
            requires b < 1;
        assert(dec_digits(a) + Seq::<u8>::empty() =~= dec_digits(a));
    } else {
        let k1 = (k - 1) as nat;
        lemma_pow10_pos(k1);
        let v = a * pow10(k) + b;
        assert(pow10(k) == 10 * pow10(k1));
        assert(v / 10 == a * pow10(k1) + b / 10 && v % 10 == b % 10 && b / 10 < pow10(k1) && v >= 10) by (nonlinear_arith)
            requires
                v == a * (10 * pow10(k1)) + b,
                b < 10 * pow10(k1),
                a >= 1,
                pow10(k1) >= 1,
        ;
        lemma_dec_digits_concat(a, b / 10, k1);
        assert(dec_digits(v) == dec_digits(v / 10).push((48 + v % 10) as u8));
        assert(pad_digits(b, k) == pad_digits(b / 10, k1).push((48 + b % 10) as u8));
        assert((dec_digits(a) + pad_digits(b / 10, k1)).push((48 + b % 10) as u8) =~= dec_digits(a)
            + pad_digits(b / 10, k1).push((48 + b % 10) as u8));
    }
}

/// Appends the decimal digits of `v`.
pub fn push_decimal(out: &mut Vec<u8>, v: u64)
    ensures
        final(out)@ == old(out)@ + dec_digits(v as nat),
    decreases v,
{
    if v >= 10 {
        push_decimal(out, v / 10);
    }
    out.push((48 + v % 10) as u8);
    proof {
        if v < 10 {
            assert(v % 10 == v);
        }
        assert(final(out)@ =~= old(out)@ + dec_digits(v as nat));
    }
}

/// Appends the last `k` decimal digits of `v`, with leading zeros.
pub fn push_padded(out: &mut Vec<u8>, v: u64, k: u32)
    ensures
        final(out)@ == old(out)@ + pad_digits(v as nat, k as nat),
    decreases k,
{
    if k > 0 {
        push_padded(out, v / 10, k - 1);
        out.push((48 + v % 10) as u8);
    }
    assert(final(out)@ =~= old(out)@ + pad_digits(v as nat, k as nat));
}

/// The number that little-endian base-10^9 chunks stand for.
pub open spec fn chunks_val(s: Seq<u32>) -> nat
    decreases s.len(),
{
    if s.len() == 0 {
        0
    } else {
        s[0] as nat + 1000000000 * chunks_val(s.drop_first())
    }
}

pub proof fn lemma_chunks_push(s: Seq<u32>, x: u32)
    ensures
        chunks_val(s.push(x)) == chunks_val(s) + pow10(9 * s.len()) * x as nat,
    decreases s.len(),
{
    if s.len() == 0 {
        assert(s.push(x).drop_first() =~= Seq::<u32>::empty());
        assert(chunks_val(Seq::<u32>::empty()) == 0);
        assert(pow10(0) == 1);
        assert(pow10(0) * x as nat == x as nat) by (nonlinear_arith)
            requires pow10(0) == 1;
    } else {
        let s1 = s.drop_first();
        lemma_chunks_push(s1, x);
        assert(s.push(x).drop_first() =~= s1.push(x));
        lemma_pow10_9(s1.len());
        let p = pow10(9 * s1.len());
        assert(1000000000 * (chunks_val(s1) + p * x as nat) == 1000000000 * chunks_val(s1) + (1000000000 * p) * x as nat) by (nonlinear_arith);
        assert(9 * s.len() == 9 * s1.len() + 9);
    }
}

/// Ten to the power of nine more.
pub proof fn lemma_pow10_9(k: nat)
    ensures
        pow10(9 * k + 9) == 1000000000 * pow10(9 * k),
{
    reveal_with_fuel(pow10, 10);
    let b = pow10(9 * k);
    assert(pow10(9 * k + 9) == 10 * (10 * (10 * (10 * (10 * (10 * (10 * (10 * (10 * b)))))))));
}

pub proof fn lemma_chunks_skip_step(s: Seq<u32>, i: int)
    requires
        0 <= i < s.len(),
    ensures
        chunks_val(s.skip(i)) == s[i] as nat + 1000000000 * chunks_val(s.skip(i + 1)),
{
    assert(s.skip(i).drop_first() =~= s.skip(i + 1));
}

/// A copy of the limbs.
fn copy_limbs(v: &Vec<u32>) -> (r: Vec<u32>)
    ensures
        r@ == v@,
{
    let mut r: Vec<u32> = Vec::new();
    let mut i: usize = 0;
    while i < v.len()
        invariant
            i <= v.len(),
            r@ == v@.take(i as int),
        decreases v.len() - i,
    {
        r.push(v[i]);
        i += 1;
        assert(r@ =~= v@.take(i as int));
    }
    assert(v@.take(v@.len() as int) =~= v@);
    r
}

impl BigU32 {
    /// The decimal digits of the number.
    pub fn to_decimal_digits(&self) -> (r: Vec<u8>)
        requires
            self.wf(),
        ensures
            r@ == dec_digits(self.value()),
    {
        if self.is_zero() {
            let mut v: Vec<u8> = Vec::new();
            v.push(48);
            assert(v@ =~= dec_digits(0));
            return v;
        }
        let mut n = BigU32 { limbs: copy_limbs(&self.limbs) };
        let mut chunks: Vec<u32> = Vec::new();
        proof {
            assert(chunks_val(Seq::<u32>::empty()) == 0);
            assert(pow10(0) == 1);
            assert(n.value() * pow10(0) == n.value()) by (nonlinear_arith)
                requires pow10(0) == 1;
        }
        while !n.is_zero()
            invariant
                n.wf(),
                chunks@.len() >= 1 ==> n.normalized(),
                n.value() * pow10(9 * chunks@.len()) + chunks_val(chunks@) == self.value(),
                chunks@.len() >= 2 ==> (n.value() > 0 || chunks@.last() > 0),
                chunks@.len() == 0 ==> n.value() == self.value(),
                chunks@.len() == 0 ==> !(n.limbs@.len() == 1 && n.limbs@[0] == 0),
                forall|j: int| 0 <= j < chunks@.len() ==> chunks@[j] < 1000000000,
            decreases n.value() + n.limbs@.len(),
        {
            let ghost v = n.value();
            let ghost len0 = n.limbs@.len();
            let ghost c = chunks@;
            let r = n.divmod_1e9();
            chunks.push(r);
            proof {
                lemma_chunks_push(c, r);
                lemma_fundamental_div_mod(v as int, 1000000000);
                lemma_pow10_9(c.len());
                let p = pow10(9 * c.len());
                let q = n.value();
                assert(q * (1000000000 * p) + (chunks_val(c) + p * r as nat) == v * p + chunks_val(c)) by (nonlinear_arith)
                    requires
                        v == 1000000000 * q + r as nat,
                ;
                assert(9 * chunks@.len() == 9 * c.len() + 9);
                if c.len() >= 1 {
                    assert(v > 0);
                    if q == 0 {
                        assert(r as nat == v);
                    }
                }
                if v > 0 {
                    assert(q < v) by (nonlinear_arith)
                        requires q == v / 1000000000, v > 0;
                }
                if v == 0 {
                    assert(len0 >= 2);
                    if n.limbs@.len() > 1 {
                        lemma_limbs_pos(n.limbs@);
                        lemma_bpow_pos((n.limbs@.len() - 1) as nat);
                    }
                    assert(n.limbs@.len() == 1);
                }
            }
        }
        assert(chunks@.len() >= 1);
        proof {
            assert(n.value() == 0);
            assert(0 * pow10(9 * chunks@.len()) == 0);
        }
        let top = chunks.len() - 1;
        let mut digits: Vec<u8> = Vec::new();
        push_decimal(&mut digits, chunks[top] as u64);
        proof {
            assert(chunks@.skip(top as int).drop_first() =~= Seq::<u32>::empty());
            assert(chunks_val(chunks@.skip(top as int)) == chunks@[top as int] as nat);
            assert(digits@ =~= dec_digits(chunks_val(chunks@.skip(top as int))));
        }
        let mut i = top;
        while i > 0
            invariant
                i <= top,
                top == chunks@.len() - 1,
                digits@ == dec_digits(chunks_val(chunks@.skip(i as int))),
                top >= 1 ==> chunks_val(chunks@.skip(i as int)) > 0,
                top >= 1 ==> chunks@.last() > 0,
                forall|j: int| 0 <= j < chunks@.len() ==> chunks@[j] < 1000000000,
            decreases i,
        {
            i -= 1;
            let ghost a = chunks_val(chunks@.skip(i + 1));
            let c = chunks[i];
            proof {
                lemma_chunks_skip_step(chunks@, i as int);
                reveal_with_fuel(pow10, 10);
                lemma_dec_digits_concat(a, c as nat, 9);
                assert(c as nat + 1000000000 * a == a * pow10(9) + c as nat) by (nonlinear_arith)
                    requires pow10(9) == 1000000000;
            }
            push_padded(&mut digits, c as u64, 9);
        }
        proof {
            assert(chunks@.skip(0) =~= chunks@);
        }
        digits
    }
}


/// `k` zero digits.
pub open spec fn zeros(k: nat) -> Seq<u8> {
    Seq::new(k, |i: int| 48u8)
}

/// The digit that one half of a unit in the last kept place has at
/// position `i` of the dropped tail: "5000...".
pub open spec fn half_digit(i: int) -> u8 {
    if i == 0 {
        53
    } else {
        48
    }
}

/// How the dropped digits `t`, from position `i` on, compare with one half
/// of a unit in the last kept place: 1 above, 0 equal, -1 below.
pub open spec fn tail_vs_half(t: Seq<u8>, i: nat) -> int
    decreases t.len() - i,
{
    if i >= t.len() {
        0
    } else if t[i as int] != half_digit(i as int) {
        if t[i as int] > half_digit(i as int) {
            1
        } else {
            -1
        }
    } else {
        tail_vs_half(t, i + 1)
    }
}

/// No digit below nine (a byte above '9' counts as a nine).
pub open spec fn all_nines(s: Seq<u8>) -> bool {
    forall|i: int| 0 <= i < s.len() ==> s[i] >= 57
}

/// The digit string plus one in its last place, carries propagated; a
/// string of nines wraps to zeros.
pub open spec fn incr_digits(s: Seq<u8>) -> Seq<u8>
    decreases s.len(),
{
    if s.len() == 0 {
        s
    } else if s.last() < 57 {
        s.drop_last().push((s.last() + 1) as u8)
    } else {
        incr_digits(s.drop_last()).push(48u8)
    }
}

/// "1" followed by `p - 1` zeros.
pub open spec fn one_then_zeros(p: nat) -> Seq<u8> {
    if p == 0 {
        Seq::empty()
    } else {
        seq![49u8] + zeros((p - 1) as nat)
    }
}

/// The significant digits incremented by one unit in the last place, and
/// the decimal exponent, which grows when every digit was a nine.
pub open spec fn rounded_up(s: Seq<u8>, n: int) -> (Seq<u8>, int) {
    if all_nines(s) {
        (one_then_zeros(s.len()), n + 1)
    } else {
        (incr_digits(s), n)
    }
}

/// The exact digits `d` (with the value `0.d * 10^n`) rounded to `p`
/// significant digits, half to even, and the new exponent.
pub open spec fn round_sig(d: Seq<u8>, n: int, p: nat) -> (Seq<u8>, int) {
    if d.len() <= p {
        (d + zeros((p - d.len()) as nat), n)
    } else {
        let sig = d.take(p as int);
        let c = tail_vs_half(d.skip(p as int), 0);
        if c > 0 || (c == 0 && sig[p - 1] % 2 == 1) {
            rounded_up(sig, n)
        } else {
            (sig, n)
        }
    }
}

/// Every byte is a decimal digit.
pub open spec fn is_digits(s: Seq<u8>) -> bool {
    forall|i: int| 0 <= i < s.len() ==> 48 <= #[trigger] s[i] <= 57
}

/// Ten to the power `k`.
pub open spec fn p10(k: nat) -> int
    decreases k,
{
    if k == 0 {
        1
    } else {
        10 * p10((k - 1) as nat)
    }
}

/// The number that the decimal digits `s` write.
pub open spec fn dval(s: Seq<u8>) -> int
    decreases s.len(),
{
    if s.len() == 0 {
        0
    } else {
        dval(s.drop_last()) * 10 + (s.last() - 48)
    }
}

proof fn lemma_p10_pos(k: nat)
    ensures
        p10(k) >= 1,
    decreases k,
{
    if k > 0 {
        lemma_p10_pos((k - 1) as nat);
    }
}

proof fn lemma_dval_bounds(s: Seq<u8>)
    requires
        is_digits(s),
    ensures
        0 <= dval(s) < p10(s.len()),
    decreases s.len(),
{
    if s.len() > 0 {
        let r = s.drop_last();
        assert(is_digits(r)) by {
            assert forall|i: int| 0 <= i < r.len() implies 48 <= #[trigger] r[i] <= 57 by {
                assert(r[i] == s[i]);
            }
        }
        lemma_dval_bounds(r);
        assert(48 <= s.last() <= 57) by {
            assert(s.last() == s[s.len() - 1]);
        }
        let a = dval(r);
        let b = p10(r.len());
        assert(a * 10 + 9 < b * 10) by (nonlinear_arith)
            requires
                0 <= a < b,
        ;
    }
}

proof fn lemma_dval_concat(a: Seq<u8>, b: Seq<u8>)
    ensures
        dval(a + b) == dval(a) * p10(b.len()) + dval(b),
    decreases b.len(),
{
    if b.len() == 0 {
        assert(a + b =~= a);
    } else {
        let ab = a + b;
        assert(ab.drop_last() =~= a + b.drop_last());
        assert(ab.last() == b.last());
        lemma_dval_concat(a, b.drop_last());
        let x = dval(a);
        let q = p10(b.drop_last().len());
        let y = dval(b.drop_last());
        assert((x * q + y) * 10 == x * (10 * q) + y * 10) by (nonlinear_arith);
    }
}

proof fn lemma_dval_zeros(k: nat)
    ensures
        dval(zeros(k)) == 0,
        is_digits(zeros(k)),
    decreases k,
{
    if k > 0 {
        assert(zeros(k).drop_last() =~= zeros((k - 1) as nat));
        lemma_dval_zeros((k - 1) as nat);
    }
}

/// One half of a unit in the last kept place, as `k` dropped digits.
pub open spec fn half_str(k: nat) -> Seq<u8> {
    Seq::new(k, |i: int| half_digit(i))
}

/// Comparing the dropped digits with one half digit by digit compares
/// their values.
proof fn lemma_tail_vs_half(t: Seq<u8>, i: nat)
    requires
        is_digits(t),
        i <= t.len(),
    ensures
        (tail_vs_half(t, i) > 0) == (dval(t.skip(i as int)) > dval(half_str(t.len()).skip(i as int))),
        (tail_vs_half(t, i) == 0) == (dval(t.skip(i as int)) == dval(half_str(t.len()).skip(i as int))),
    decreases t.len() - i,
{
    let h = half_str(t.len());
    if i >= t.len() {
        assert(t.skip(i as int) =~= Seq::<u8>::empty());
        assert(h.skip(i as int) =~= Seq::<u8>::empty());
    } else {
        let ts = t.skip(i as int);
        let hs = h.skip(i as int);
        let t1 = t.skip((i + 1) as int);
        let h1 = h.skip((i + 1) as int);
        assert(ts =~= seq![t[i as int]] + t1);
        assert(hs =~= seq![h[i as int]] + h1);
        lemma_dval_concat(seq![t[i as int]], t1);
        lemma_dval_concat(seq![h[i as int]], h1);
        assert(seq![t[i as int]].drop_last() =~= Seq::<u8>::empty());
        assert(seq![h[i as int]].drop_last() =~= Seq::<u8>::empty());
        assert(dval(Seq::<u8>::empty()) == 0);
        assert(seq![t[i as int]].last() == t[i as int]);
        assert(dval(seq![t[i as int]]) == t[i as int] - 48);
        assert(dval(seq![h[i as int]]) == h[i as int] - 48);
        assert(is_digits(t1)) by {
            assert forall|j: int| 0 <= j < t1.len() implies 48 <= #[trigger] t1[j] <= 57 by {
                assert(t1[j] == t[i + 1 + j]);
            }
        }
        assert(is_digits(h1)) by {
            assert forall|j: int| 0 <= j < h1.len() implies 48 <= #[trigger] h1[j] <= 57 by {
                assert(h1[j] == half_digit(i + 1 + j));
            }
        }
        lemma_dval_bounds(t1);
        lemma_dval_bounds(h1);
        lemma_p10_pos(t1.len());
        let q = p10(t1.len());
        assert(h1.len() == t1.len());
        let dt = t[i as int] - 48;
        let dh = h[i as int] - 48;
        let vt = dval(t1);
        let vh = dval(h1);
        assert(0 <= dt <= 9);
        assert(h[i as int] == half_digit(i as int));
        if t[i as int] != half_digit(i as int) {
            if dt > dh {
                assert(dt * q + vt > dh * q + vh) by (nonlinear_arith)
                    requires
                        dt >= dh + 1,
                        0 <= vt,
                        vh < q,
                        q >= 1,
                ;
            } else {
                assert(dt * q + vt < dh * q + vh) by (nonlinear_arith)
                    requires
                        dh >= dt + 1,
                        0 <= vh,
                        vt < q,
                        q >= 1,
                ;
            }
        } else {
            lemma_tail_vs_half(t, i + 1);
            assert(half_str(t.len()).skip((i + 1) as int) == h1);
        }
    }
}

proof fn lemma_p10_add(a: nat, b: nat)
    ensures
        p10(a) * p10(b) == p10(a + b),
    decreases a,
{
    if a > 0 {
        lemma_p10_add((a - 1) as nat, b);
        let x = p10((a - 1) as nat);
        let y = p10(b);
        assert((10 * x) * y == 10 * (x * y)) by (nonlinear_arith);
    }
}

proof fn lemma_digits_drop_last(s: Seq<u8>)
    requires
        is_digits(s),
        s.len() > 0,
    ensures
        is_digits(s.drop_last()),
        48 <= s.last() <= 57,
{
    assert forall|i: int| 0 <= i < s.drop_last().len() implies 48 <= #[trigger] s.drop_last()[i] <= 57 by {
        assert(s.drop_last()[i] == s[i]);
    }
    assert(s.last() == s[s.len() - 1]);
}

proof fn lemma_incr_value(s: Seq<u8>)
    requires
        is_digits(s),
        !all_nines(s),
    ensures
        dval(incr_digits(s)) == dval(s) + 1,
    decreases s.len(),
{
    lemma_digits_drop_last(s);
    let r = s.drop_last();
    if s.last() < 57 {
        let x = r.push((s.last() + 1) as u8);
        assert(x.drop_last() =~= r);
    } else {
        assert(!all_nines(r)) by {
            let i = choose|i: int| 0 <= i < s.len() && s[i] < 57;
            assert(i < s.len() - 1);
            assert(r[i] == s[i]);
        }
        lemma_incr_value(r);
        let x = incr_digits(r).push(48u8);
        assert(x.drop_last() =~= incr_digits(r));
    }
}

proof fn lemma_nines_value(s: Seq<u8>)
    requires
        is_digits(s),
        all_nines(s),
    ensures
        dval(s) == p10(s.len()) - 1,
    decreases s.len(),
{
    if s.len() > 0 {
        lemma_digits_drop_last(s);
        assert(all_nines(s.drop_last()));
        lemma_nines_value(s.drop_last());
        assert(s.last() == 57) by {
            assert(s.last() == s[s.len() - 1]);
        }
    }
}

proof fn lemma_single_value(c: u8)
    ensures
        dval(seq![c]) == c - 48,
{
    assert(seq![c].drop_last() =~= Seq::<u8>::empty());
    assert(dval(Seq::<u8>::empty()) == 0);
}

/// Rounding to `p` significant digits gives the nearest `p`-digit decimal,
/// a tie going to the one whose last digit is even. Counted in units of the
/// last of the `k` dropped digits, the rounded value is one of the two
/// `p`-digit neighbours of the exact digits (`t` or `t + 1` units in the
/// last kept place), at most half a unit in that place away from them, and
/// an even number of units in that place on a tie.
pub proof fn law_round_sig_nearest(d: Seq<u8>, n: int, p: nat)
    requires
        is_digits(d),
        p >= 1,
        d.len() > p,
    ensures
        ({
            let k = (d.len() - p) as nat;
            let r = round_sig(d, n, p);
            let unit = p10(k);
            let rv = dval(r.0) * p10((k + (r.1 - n)) as nat);
            let t = dval(d.take(p as int));
            &&& r.1 == n || r.1 == n + 1
            &&& rv == t * unit || rv == (t + 1) * unit
            &&& 2 * (rv - dval(d)) <= unit
            &&& 2 * (dval(d) - rv) <= unit
            &&& (2 * (rv - dval(d)) == unit || 2 * (dval(d) - rv) == unit) ==> (rv / unit) % 2 == 0
        }),
{
    let k = (d.len() - p) as nat;
    let sig = d.take(p as int);
    let tail = d.skip(p as int);
    let unit = p10(k);
    let t = dval(sig);
    let tv = dval(tail);
    assert(d =~= sig + tail);
    lemma_dval_concat(sig, tail);
    assert(is_digits(sig)) by {
        assert forall|i: int| 0 <= i < sig.len() implies 48 <= #[trigger] sig[i] <= 57 by {
            assert(sig[i] == d[i]);
        }
    }
    assert(is_digits(tail)) by {
        assert forall|i: int| 0 <= i < tail.len() implies 48 <= #[trigger] tail[i] <= 57 by {
            assert(tail[i] == d[p + i]);
        }
    }
    lemma_dval_bounds(tail);
    lemma_dval_bounds(sig);
    lemma_p10_pos(k);
    // one half of a unit in the last kept place
    let h = half_str(k);
    assert(h =~= seq![53u8] + zeros((k - 1) as nat));
    lemma_dval_concat(seq![53u8], zeros((k - 1) as nat));
    lemma_dval_zeros((k - 1) as nat);
    lemma_single_value(53u8);
    assert(unit == 10 * p10((k - 1) as nat));
    assert(2 * dval(h) == unit);
    lemma_tail_vs_half(tail, 0);
    assert(tail.skip(0) =~= tail);
    assert(h.skip(0) =~= h);
    let c = tail_vs_half(tail, 0);
    // the parity of the kept digits is that of their last digit
    lemma_digits_drop_last(sig);
    assert(sig.last() == sig[p - 1]);
    let pre = dval(sig.drop_last());
    assert((pre * 10 + (sig.last() - 48)) % 2 == (sig.last() - 48) % 2) by (nonlinear_arith);
    assert((t * unit) / unit == t) by (nonlinear_arith)
        requires
            unit >= 1,
    ;
    assert(((t + 1) * unit) / unit == t + 1) by (nonlinear_arith)
        requires
            unit >= 1,
    ;
    assert(dval(d) == t * unit + tv);
    assert((t + 1) * unit == t * unit + unit) by (nonlinear_arith);
    assert(p10((k + 0) as nat) == unit);
    if c > 0 || (c == 0 && sig[p - 1] % 2 == 1) {
        if all_nines(sig) {
            lemma_nines_value(sig);
            let o = one_then_zeros(p);
            assert(o =~= seq![49u8] + zeros((p - 1) as nat));
            lemma_dval_concat(seq![49u8], zeros((p - 1) as nat));
            lemma_dval_zeros((p - 1) as nat);
            lemma_single_value(49u8);
            assert(dval(o) == p10((p - 1) as nat));
            lemma_p10_add((p - 1) as nat, k + 1);
            lemma_p10_add(p, k);
            assert(((p - 1) as nat + (k + 1)) as nat == (p + k) as nat);
            assert(dval(o) * p10((k + 1) as nat) == p10(p) * unit);
            assert(t + 1 == p10(p));
            assert(p10(p) == 10 * p10((p - 1) as nat));
            assert(p10(p) % 2 == 0);
        } else {
            lemma_incr_value(sig);
        }
    }
}

pub proof fn lemma_incr_digits(s: Seq<u8>, i: int)
    requires
        0 < i <= s.len(),
        s[i - 1] < 57,
        forall|j: int| i <= j < s.len() ==> s[j] >= 57,
    ensures
        incr_digits(s) == s.take(i - 1).push((s[i - 1] + 1) as u8) + zeros((s.len() - i) as nat),
    decreases s.len(),
{
    if i == s.len() {
        assert(s.drop_last() =~= s.take(i - 1));
        assert(zeros(0) =~= Seq::<u8>::empty());
        assert(s.take(i - 1).push((s[i - 1] + 1) as u8) + zeros(0) =~= s.take(i - 1).push(
            (s[i - 1] + 1) as u8,
        ));
    } else {
        let t = s.drop_last();
        lemma_incr_digits(t, i);
        assert(t.take(i - 1) =~= s.take(i - 1));
        assert((t.take(i - 1).push((s[i - 1] + 1) as u8) + zeros((t.len() - i) as nat)).push(48u8)
            =~= s.take(i - 1).push((s[i - 1] + 1) as u8) + zeros((s.len() - i) as nat));
    }
}

/// Adds one unit in the last place of the significant digits `sig`; when
/// every digit is a nine the result is "1" followed by zeros and the
/// exponent `n` grows by one.
pub fn round_up(sig: &mut Vec<u8>, n: &mut i64)
    requires
        all_nines(old(sig)@) ==> *old(n) < 9223372036854775807,
    ensures
        (final(sig)@, *final(n) as int) == rounded_up(old(sig)@, *old(n) as int),
{
    let ghost s0 = sig@;
    let p = sig.len();
    let mut i = p;
    while i > 0
        invariant
            sig@.len() == p,
            s0.len() == p,
            i <= p,
            sig@.take(i as int) == s0.take(i as int),
            forall|j: int| i <= j < p ==> #[trigger] s0[j] >= 57,
            forall|j: int| i <= j < p ==> #[trigger] sig@[j] == 48,
            *n == *old(n),
            s0 == old(sig)@,
        decreases i,
    {
        let d = sig[i - 1];
        assert(d == s0[i - 1]) by {
            assert(sig@.take(i as int)[i - 1] == s0.take(i as int)[i - 1]);
        }
        if d < 57 {
            sig.set(i - 1, d + 1);
            proof {
                lemma_incr_digits(s0, i as int);
                assert(!all_nines(s0));
                assert(sig@ =~= s0.take(i - 1).push((d + 1) as u8) + zeros((p - i) as nat)) by {
                    assert forall|j: int| 0 <= j < i - 1 implies sig@[j] == s0[j] by {
                        assert(sig@[j] == s0.take(i as int)[j]);
                    }
                }
            }
            return;
        }
        assert(s0[i - 1] >= 57);
        let ghost before = sig@;
        sig.set(i - 1, 48);
        assert(sig@[i - 1] == 48);
        i -= 1;
        assert(sig@.take(i as int) =~= s0.take(i as int));
        assert forall|j: int| i <= j < p implies sig@[j] == 48 by {
            if j > i {
                assert(sig@[j] == before[j]);
            }
        }
    }
    assert(all_nines(s0));
    sig.clear();
    if p > 0 {
        sig.push(49);
        while sig.len() < p
            invariant
                1 <= sig@.len() <= p,
                sig@ == seq![49u8] + zeros((sig@.len() - 1) as nat),
            decreases p - sig@.len(),
        {
            sig.push(48);
            assert(sig@ =~= seq![49u8] + zeros((sig@.len() - 1) as nat));
        }
    } else {
        assert(sig@ =~= one_then_zeros(0));
    }
    *n = *n + 1;
}


/// Rounds the exact digits `digits` (standing for `0.digits * 10^n`) to `p`
/// significant digits, half to even; returns the `p` digits and the new
/// exponent.
pub fn round_significant(digits: &[u8], n: i64, p: usize) -> (r: (Vec<u8>, i64))
    requires
        p >= 1,
        digits@.len() > p && all_nines(digits@.take(p as int)) ==> n < 9223372036854775807,
    ensures
        (r.0@, r.1 as int) == round_sig(digits@, n as int, p as nat),
{
    if digits.len() <= p {
        let mut sig = crate::text::copy_bytes(digits);
        while sig.len() < p
            invariant
                digits@.len() <= sig@.len() <= p,
                sig@ == digits@ + zeros((sig@.len() - digits@.len()) as nat),
            decreases p - sig@.len(),
        {
            sig.push(48);
            assert(sig@ =~= digits@ + zeros((sig@.len() - digits@.len()) as nat));
        }
        return (sig, n);
    }
    let ghost t = digits@.skip(p as int);
    let mut c: i8 = 0;
    let mut i = p;
    while i < digits.len()
        invariant_except_break
            p <= i <= digits@.len(),
            t == digits@.skip(p as int),
            c == 0,
            tail_vs_half(t, 0) == tail_vs_half(t, (i - p) as nat),
        ensures
            c == tail_vs_half(t, 0),
        decreases digits.len() - i,
    {
        let h: u8 = if i == p { 53 } else { 48 };
        assert(t[i - p] == digits@[i as int]);
        assert(h == half_digit(i - p));
        if digits[i] != h {
            c = if digits[i] > h { 1 } else { -1 };
            break;
        }
        i += 1;
    }
    let mut sig = crate::text::copy_bytes(&digits[0..p]);
    assert(sig@ =~= digits@.take(p as int));
    let mut n2 = n;
    if c > 0 {
        round_up(&mut sig, &mut n2);
    } else if c == 0 {
        if sig[p - 1] % 2 == 1 {
            round_up(&mut sig, &mut n2);
        }
    }
    (sig, n2)
}

/// Appends the digits of an exponent's magnitude, at least two of them.
pub open spec fn exp_digits(mag: int) -> Seq<u8> {
    if mag < 0 {
        seq![48u8]
    } else if mag < 10 {
        seq![48u8] + dec_digits(mag as nat)
    } else {
        dec_digits(mag as nat)
    }
}

/// Writes the exponent field: a zero first when `mag` has one digit.
pub fn write_exponent(out: &mut Vec<u8>, mag: i64)
    ensures
        final(out)@ == old(out)@ + exp_digits(mag as int),
{
    if mag < 10 {
        out.push(48);
    }
    if mag >= 0 {
        push_decimal(out, mag as u64);
    }
    assert(final(out)@ =~= old(out)@ + exp_digits(mag as int));
}


/// The exact value of a finite nonzero double's magnitude is
/// `exact_int(b) * 10^exact_p10(b)`.
pub open spec fn exact_int(b: u64) -> nat {
    if dbl_scale(b) >= 0 {
        (dbl_mant(b) * pow2(dbl_scale(b) as nat)) as nat
    } else {
        (dbl_mant(b) * pow5((-dbl_scale(b)) as nat)) as nat
    }
}

pub open spec fn exact_p10(b: u64) -> int {
    if dbl_scale(b) >= 0 {
        0
    } else {
        dbl_scale(b)
    }
}

/// The exact decimal digits of a finite nonzero double's magnitude.
pub open spec fn exact_digits(b: u64) -> Seq<u8> {
    dec_digits(exact_int(b))
}

/// The exponent `n` with magnitude `0.d * 10^n`, `d` the exact digits.
pub open spec fn exact_exp(b: u64) -> int {
    exact_digits(b).len() + exact_p10(b)
}

pub proof fn lemma_dec_digits_len(v: nat, k: nat)
    requires
        k >= 1,
        v < pow10(k),
    ensures
        1 <= dec_digits(v).len() <= k,
    decreases v,
{
    if v >= 10 {
        let k1 = (k - 1) as nat;
        if k1 == 0 {
            assert(pow10(1) == 10) by {
                reveal_with_fuel(pow10, 2);
            }
        }
        assert(pow10(k) == 10 * pow10(k1));
        assert(v / 10 < pow10(k1)) by (nonlinear_arith)
            requires
                v < 10 * pow10(k1),
        ;
        lemma_dec_digits_len(v / 10, k1);
    }
}

pub proof fn lemma_pow_bounds(k: nat)
    ensures
        pow2(k) <= pow10(k),
        pow5(k) <= pow10(k),
        pow5(k) >= 1,
    decreases k,
{
    if k == 0 {
        vstd::arithmetic::power2::lemma2_to64();
    } else {
        lemma_pow_bounds((k - 1) as nat);
        vstd::arithmetic::power2::lemma_pow2_unfold(k);
    }
}

pub proof fn lemma_pow10_adds(a: nat, b: nat)
    ensures
        pow10(a + b) == pow10(a) * pow10(b),
    decreases a,
{
    if a == 0 {
        assert(pow10(0) == 1);
    } else {
        lemma_pow10_adds((a - 1) as nat, b);
        assert(pow10(a + b) == 10 * pow10((a - 1 + b) as nat));
        assert(10 * (pow10((a - 1) as nat) * pow10(b)) == (10 * pow10((a - 1) as nat)) * pow10(b)) by (nonlinear_arith);
    }
}

pub proof fn lemma_pow10_mono(a: nat, b: nat)
    requires
        a <= b,
    ensures
        pow10(a) <= pow10(b),
    decreases b,
{
    if a < b {
        lemma_pow10_mono(a, (b - 1) as nat);
        lemma_pow10_pos((b - 1) as nat);
    }
}

/// The exact digits of a finite nonzero double number fewer than 1100.
pub proof fn lemma_exact_digits_len(b: u64)
    requires
        !dbl_special(b),
        dbl_mant(b) != 0,
    ensures
        1 <= exact_digits(b).len() <= 1090,
        -1074 <= exact_p10(b) <= 0,
{
    let m = dbl_mant(b);
    assert(0 < m < 9007199254740992);
    assert(pow10(16) == 10000000000000000) by {
        reveal_with_fuel(pow10, 17);
    }
    let sc = dbl_scale(b);
    if sc >= 0 {
        assert(sc <= 971);
        let k = sc as nat;
        lemma_pow_bounds(k);
        lemma_pow10_adds(16, k);
        lemma_pow10_mono(16 + k, 1090);
        vstd::arithmetic::power2::lemma_pow2_pos(k);
        assert(m * pow2(k) < pow10(16) * pow10(k)) by (nonlinear_arith)
            requires
                0 < m < pow10(16),
                1 <= pow2(k) <= pow10(k),
        ;
        lemma_dec_digits_len(exact_int(b), 1090);
    } else {
        let k = (-sc) as nat;
        assert(k <= 1074);
        lemma_pow_bounds(k);
        lemma_pow10_adds(16, k);
        lemma_pow10_mono(16 + k, 1090);
        assert(m * pow5(k) < pow10(16) * pow10(k)) by (nonlinear_arith)
            requires
                0 < m < pow10(16),
                1 <= pow5(k) <= pow10(k),
        ;
        lemma_dec_digits_len(exact_int(b), 1090);
    }
}

/// The exact decimal digits of a finite nonzero double's magnitude (the
/// sign bit is ignored) and the exponent `n` with magnitude `0.digits * 10^n`.
pub fn exact_decimal(bits: u64) -> (r: (Vec<u8>, i64))
    requires
        !dbl_special(bits),
        dbl_mant(bits) != 0,
    ensures
        r.0@ == exact_digits(bits),
        r.1 as int == exact_exp(bits),
{
    let (_, exp, frac) = double_fields(bits);
    let m: u64 = if exp == 0 { frac } else { frac + 4503599627370496 };
    assert(m == dbl_mant(bits));
    let mut n = BigU32::from_u64(m);
    let mut p10: i64 = 0;
    if exp >= 1075 {
        n.shl_bits((exp - 1075) as u32);
    } else {
        let k: u64 = if exp == 0 { 1074 } else { 1075 - exp };
        assert(k as int == -dbl_scale(bits));
        let mut j: u64 = 0;
        proof {
            assert(m as nat * pow5(0) == m as nat) by (nonlinear_arith)
                requires pow5(0) == 1;
        }
        while j < k
            invariant
                j <= k,
                n.wf(),
                n.value() == m as nat * pow5(j as nat),
            decreases k - j,
        {
            n.mul_small(5);
            proof {
                assert(m as nat * pow5(j as nat) * 5 == m as nat * pow5((j + 1) as nat)) by (nonlinear_arith)
                    requires pow5((j + 1) as nat) == 5 * pow5(j as nat);
            }
            j += 1;
        }
        p10 = 0 - (k as i64);
    }
    let digits = n.to_decimal_digits();
    proof {
        lemma_exact_digits_len(bits);
    }
    let n_val = digits.len() as i64 + p10;
    (digits, n_val)
}


/// `s` without its trailing zero digits, keeping at least `lo` bytes.
pub open spec fn strip_zeros(s: Seq<u8>, lo: int) -> Seq<u8>
    decreases s.len(),
{
    if s.len() > lo && s.len() > 0 && s.last() == 48 {
        strip_zeros(s.drop_last(), lo)
    } else {
        s
    }
}

/// `"." + rest`, or nothing when `rest` is empty.
pub open spec fn dot_part(rest: Seq<u8>) -> Seq<u8> {
    if rest.len() > 0 {
        seq![46u8] + rest
    } else {
        Seq::empty()
    }
}

/// The `%g` layout of the rounded significant digits `sig` (`p` of them)
/// whose leading digit has decimal exponent `x`.
pub open spec fn g_layout(sig: Seq<u8>, x: int, p: nat) -> Seq<u8> {
    if x < -4 || x >= p {
        let kept = strip_zeros(sig, 1);
        seq![sig[0]] + dot_part(kept.skip(1)) + seq![101u8, if x < 0 { 45u8 } else { 43u8 }]
            + exp_digits(if x < 0 { -x } else { x })
    } else if x >= 0 {
        let kept = strip_zeros(sig, x + 1);
        sig.take(x + 1) + dot_part(kept.skip(x + 1))
    } else {
        seq![48u8] + dot_part(strip_zeros(zeros((-x - 1) as nat) + sig, 0))
    }
}

/// C's `%.<p>g` text of the double with bit pattern `b`.
pub open spec fn g_text(b: u64, p: nat) -> Seq<u8> {
    if dbl_is_nan(b) {
        seq![110u8, 97u8, 110u8]
    } else if dbl_special(b) {
        if dbl_negative(b) {
            seq![45u8, 105u8, 110u8, 102u8]
        } else {
            seq![105u8, 110u8, 102u8]
        }
    } else if dbl_mant(b) == 0 {
        if dbl_negative(b) {
            seq![45u8, 48u8]
        } else {
            seq![48u8]
        }
    } else {
        let r = round_sig(exact_digits(b), exact_exp(b), p);
        (if dbl_negative(b) { seq![45u8] } else { Seq::<u8>::empty() }) + g_layout(r.0, r.1 - 1, p)
    }
}

pub proof fn lemma_strip_zeros(s: Seq<u8>, lo: int)
    requires
        0 <= lo <= s.len(),
    ensures
        lo <= strip_zeros(s, lo).len() <= s.len(),
        strip_zeros(s, lo) == s.take(strip_zeros(s, lo).len() as int),
    decreases s.len(),
{
    if s.len() > lo && s.last() == 48 {
        lemma_strip_zeros(s.drop_last(), lo);
        let k = strip_zeros(s, lo).len() as int;
        assert(s.drop_last().take(k) =~= s.take(k));
    } else {
        assert(s.take(s.len() as int) =~= s);
    }
}

/// Finds where the trailing zeros of `s[..end]` begin, keeping `lo` bytes.
fn strip_end(s: &Vec<u8>, lo: usize, end: usize) -> (r: usize)
    requires
        lo <= end <= s@.len(),
    ensures
        lo <= r <= end,
        s@.take(r as int) == strip_zeros(s@.take(end as int), lo as int),
{
    let mut e = end;
    while e > lo && s[e - 1] == 48
        invariant
            lo <= e <= end,
            end <= s@.len(),
            strip_zeros(s@.take(e as int), lo as int) == strip_zeros(s@.take(end as int), lo as int),
        decreases e,
    {
        assert(s@.take(e as int).drop_last() =~= s@.take(e - 1));
        e -= 1;
    }
    e
}

/// Appends C's `%.<precision>g` text of the double with bit pattern `bits`.
pub fn format_g(bits: u64, precision: usize, out: &mut Vec<u8>)
    requires
        precision < 9223372036854775807,
        dbl_special(bits) || dbl_mant(bits) == 0 || 1 <= precision,
    ensures
        final(out)@ == old(out)@ + g_text(bits, precision as nat),
{
    let (neg, exp, frac) = double_fields(bits);
    if exp == 2047 {
        if frac != 0 {
            out.push(110);
            out.push(97);
            out.push(110);
        } else {
            if neg {
                out.push(45);
            }
            out.push(105);
            out.push(110);
            out.push(102);
        }
        assert(final(out)@ =~= old(out)@ + g_text(bits, precision as nat));
        return;
    }
    if exp == 0 && frac == 0 {
        if neg {
            out.push(45);
        }
        out.push(48);
        assert(final(out)@ =~= old(out)@ + g_text(bits, precision as nat));
        return;
    }
    if neg {
        out.push(45);
    }
    let ghost start = out@;
    let (digits, n) = exact_decimal(bits);
    proof {
        lemma_exact_digits_len(bits);
    }
    let (sig, n_rounded) = round_significant(digits.as_slice(), n, precision);
    let ghost r = round_sig(exact_digits(bits), exact_exp(bits), precision as nat);
    assert(sig@ == r.0 && n_rounded as int == r.1);
    assert(sig@.len() == precision) by {
        if exact_digits(bits).len() > precision {
            let t = exact_digits(bits).take(precision as int);
            if all_nines(t) {
                assert(one_then_zeros(t.len()).len() == precision);
            } else {
                lemma_incr_len(t);
            }
        }
    }
    assert(n_rounded == n || n_rounded == n + 1);
    write_layout(&sig, n_rounded - 1, precision, out);
    assert(out@ =~= start + g_layout(sig@, n_rounded - 1, precision as nat));
    assert(final(out)@ =~= old(out)@ + g_text(bits, precision as nat));
}

/// Appends the `%g` layout of the significant digits `sig` whose leading
/// digit has decimal exponent `x`.
fn write_layout(sig: &Vec<u8>, x: i64, precision: usize, out: &mut Vec<u8>)
    requires
        1 <= precision < 9223372036854775807,
        sig@.len() == precision,
        -1100 <= x <= 1100,
    ensures
        final(out)@ == old(out)@ + g_layout(sig@, x as int, precision as nat),
{
    let p = precision as i64;
    if x < -4 || x >= p {
        out.push(sig[0]);
        let end = strip_end(sig, 1, precision);
        if end > 1 {
            out.push(46);
            crate::text::push_all(out, &sig[1..end]);
        }
        out.push(101);
        if x < 0 {
            out.push(45);
        } else {
            out.push(43);
        }
        let mag = if x < 0 { -x } else { x };
        write_exponent(out, mag);
        proof {
            let kept = strip_zeros(sig@, 1);
            assert(sig@.take(precision as int) =~= sig@);
            lemma_strip_zeros(sig@, 1);
            assert(kept.skip(1) =~= sig@.subrange(1, end as int));
            assert(out@ =~= old(out)@ + g_layout(sig@, x as int, precision as nat));
        }
    } else if x >= 0 {
        let int_digits = (x + 1) as usize;
        crate::text::push_all(out, &sig[0..int_digits]);
        let end = strip_end(sig, int_digits, precision);
        if end > int_digits {
            out.push(46);
            crate::text::push_all(out, &sig[int_digits..end]);
        }
        proof {
            let kept = strip_zeros(sig@, x + 1);
            assert(sig@.take(precision as int) =~= sig@);
            lemma_strip_zeros(sig@, x + 1);
            assert(kept.skip(x + 1) =~= sig@.subrange(int_digits as int, end as int));
            assert(out@ =~= old(out)@ + g_layout(sig@, x as int, precision as nat));
        }
    } else {
        out.push(48);
        let mut fr: Vec<u8> = Vec::new();
        let nz = (0 - x - 1) as usize;
        let mut k: usize = 0;
        while k < nz
            invariant
                k <= nz,
                fr@ == zeros(k as nat),
            decreases nz - k,
        {
            fr.push(48);
            k += 1;
            assert(fr@ =~= zeros(k as nat));
        }
        crate::text::push_all(&mut fr, sig.as_slice());
        let ghost whole = fr@;
        let flen = fr.len();
        let end = strip_end(&fr, 0, flen);
        if end > 0 {
            out.push(46);
            crate::text::push_all(out, &fr[0..end]);
        }
        proof {
            assert(whole.take(flen as int) =~= whole);
            lemma_strip_zeros(whole, 0);
            assert(fr@.subrange(0, end as int) =~= strip_zeros(whole, 0));
            assert(out@ =~= old(out)@ + g_layout(sig@, x as int, precision as nat));
        }
    }
}

pub proof fn lemma_incr_len(s: Seq<u8>)
    ensures
        incr_digits(s).len() == s.len(),
    decreases s.len(),
{
    if s.len() > 0 && s.last() >= 57 {
        lemma_incr_len(s.drop_last());
    }
}

} // verus!
