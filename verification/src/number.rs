//! Numbers as IEEE-754 double bit patterns: classification, the saturating
//! integer value, exact comparison with an integer, and exact conversion of
//! an integer.

use vstd::prelude::*;
use vstd::arithmetic::power2::{pow2, lemma_pow2_pos, lemma_pow2_adds, lemma2_to64, lemma_pow2_strictly_increases};
use vstd::arithmetic::div_mod::{lemma_div_is_ordered_by_denominator, lemma_div_plus_one, lemma_fundamental_div_mod, lemma_div_by_multiple, lemma_mod_multiples_basic, lemma_div_multiples_vanish_fancy, lemma_mod_multiples_vanish, lemma_small_mod, lemma_div_pos_is_pos};
use vstd::arithmetic::mul::{lemma_mul_strictly_positive, lemma_mul_inequality, lemma_mul_is_associative};
use vstd::bits::{lemma_u64_shr_is_div, lemma_u64_shl_is_mul};

verus! {

pub open spec fn two52() -> int {
    4503599627370496
}

pub open spec fn two63() -> int {
    9223372036854775808
}

/// The sign bit.
pub open spec fn dbl_negative(b: u64) -> bool {
    b as int >= two63()
}

/// The biased exponent field.
pub open spec fn dbl_exp(b: u64) -> int {
    (b as int / two52()) % 2048
}

/// The fraction field.
pub open spec fn dbl_frac(b: u64) -> int {
    b as int % two52()
}

/// NaN or an infinity.
pub open spec fn dbl_special(b: u64) -> bool {
    dbl_exp(b) == 2047
}

pub open spec fn dbl_is_nan(b: u64) -> bool {
    dbl_special(b) && dbl_frac(b) != 0
}

/// The significand of a finite double, as an integer.
pub open spec fn dbl_mant(b: u64) -> int {
    if dbl_exp(b) == 0 {
        dbl_frac(b)
    } else {
        dbl_frac(b) + two52()
    }
}

/// The power of two that scales the significand: a finite double's
/// magnitude is `dbl_mant(b) * 2^dbl_scale(b)`.
pub open spec fn dbl_scale(b: u64) -> int {
    if dbl_exp(b) == 0 {
        -1074
    } else {
        dbl_exp(b) - 1075
    }
}

pub open spec fn signed(neg: bool, x: int) -> int {
    if neg {
        -x
    } else {
        x
    }
}

/// The magnitude of a finite double rounded toward zero.
pub open spec fn trunc_mag(b: u64) -> int {
    if dbl_scale(b) >= 0 {
        dbl_mant(b) * pow2(dbl_scale(b) as nat)
    } else {
        dbl_mant(b) / (pow2((-dbl_scale(b)) as nat) as int)
    }
}

pub open spec fn clamp_i32(v: int) -> i32 {
    if v >= 2147483647 {
        2147483647
    } else if v <= -2147483648 {
        -2147483648i32
    } else {
        v as i32
    }
}

/// The integer view of a double kept beside it: rounded toward zero and saturated at
/// the `int` range; infinities saturate, NaN gives 0.
pub open spec fn sat_int(b: u64) -> i32 {
    if dbl_special(b) {
        if dbl_frac(b) != 0 {
            0
        } else if dbl_negative(b) {
            -2147483648i32
        } else {
            2147483647
        }
    } else {
        clamp_i32(signed(dbl_negative(b), trunc_mag(b)))
    }
}

/// Whether the double is finite and exactly equal to the integer `v`.
pub open spec fn dbl_equals_int(b: u64, v: int) -> bool {
    &&& !dbl_special(b)
    &&& if dbl_scale(b) >= 0 {
        signed(dbl_negative(b), dbl_mant(b) * pow2(dbl_scale(b) as nat)) == v
    } else {
        let d = pow2((-dbl_scale(b)) as nat) as int;
        &&& dbl_mant(b) % d == 0
        &&& signed(dbl_negative(b), dbl_mant(b) / d) == v
    }
}

/// The sign, exponent and fraction fields of a bit pattern.
pub fn double_fields(bits: u64) -> (r: (bool, u64, u64))
    ensures
        r.0 == dbl_negative(bits),
        r.1 as int == dbl_exp(bits),
        r.2 as int == dbl_frac(bits),
        r.1 < 2048,
        r.2 < two52(),
{
    let neg = bits >= 9223372036854775808u64;
    let exp = (bits / 4503599627370496u64) % 2048;
    let frac = bits % 4503599627370496u64;
    (neg, exp, frac)
}

/// Whether the bit pattern is a NaN or an infinity.
pub fn double_is_special(bits: u64) -> (r: bool)
    ensures
        r == dbl_special(bits),
{
    let (_, exp, _) = double_fields(bits);
    exp == 2047
}

proof fn lemma_mant_bounds(b: u64)
    ensures
        0 <= dbl_mant(b) < 2 * two52(),
        dbl_exp(b) != 0 ==> dbl_mant(b) >= two52(),
        0 <= dbl_frac(b) < two52(),
        0 <= dbl_exp(b) < 2048,
{
}

proof fn lemma_pow52()
    ensures
        pow2(52) == two52(),
        pow2(31) == 2147483648,
        pow2(63) == two63(),
{
    lemma2_to64();
    vstd::arithmetic::power2::lemma2_to64_rest();
}

/// The saturating integer value of a double (`valueint` of a number node).
pub fn double_to_int(bits: u64) -> (r: i32)
    ensures
        r == sat_int(bits),
{
    let (neg, exp, frac) = double_fields(bits);
    proof {
        lemma_mant_bounds(bits);
        lemma_pow52();
    }
    if exp == 2047 {
        if frac != 0 {
            return 0;
        } else if neg {
            return -2147483648;
        } else {
            return 2147483647;
        }
    }
    let mant: u64 = if exp == 0 { frac } else { frac + 4503599627370496u64 };
    if exp >= 1075 {
        // the magnitude is at least 2^52
        proof {
            let sc = (dbl_exp(bits) - 1075) as nat;
            lemma_pow2_pos(sc);
            assert(dbl_mant(bits) * pow2(sc) >= dbl_mant(bits)) by (nonlinear_arith)
                requires
                    pow2(sc) >= 1,
                    dbl_mant(bits) >= 0,
            ;
        }
        if neg {
            return -2147483648;
        } else {
            return 2147483647;
        }
    }
    let k: u64 = if exp == 0 { 1074 } else { 1075 - exp };
    let q: u64 = if k >= 64 {
        proof {
            lemma_pow2_strictly_increases(53, k as nat);
            lemma2_to64();
            assert(pow2(53) == 2 * two52()) by {
                lemma_pow2_adds(52, 1);
            }
            lemma_small_mod(mant as nat, pow2(k as nat));
            assert((mant as int) / (pow2(k as nat) as int) == 0) by {
                vstd::arithmetic::div_mod::lemma_basic_div(mant as int, pow2(k as nat) as int);
            }
        }
        0
    } else {
        proof {
            lemma_u64_shr_is_div(mant, k);
        }
        mant >> k
    };
    assert(q as int == trunc_mag(bits));
    // q < 2^53, so the signed value fits in i64
    proof {
        lemma_pow2_pos(k as nat);
        vstd::arithmetic::div_mod::lemma_div_is_ordered_by_denominator(mant as int, 1, pow2(k as nat) as int);
    }
    let v: i64 = if neg { -(q as i64) } else { q as i64 };
    if v >= 2147483647 {
        2147483647
    } else if v <= -2147483648 {
        -2147483648i32
    } else {
        v as i32
    }
}

/// Whether the double is finite and exactly equal to `v`.
pub fn double_equals_int(bits: u64, v: i32) -> (r: bool)
    ensures
        r == dbl_equals_int(bits, v as int),
{
    let (neg, exp, frac) = double_fields(bits);
    proof {
        lemma_mant_bounds(bits);
        lemma_pow52();
    }
    if exp == 2047 {
        return false;
    }
    let mant: u64 = if exp == 0 { frac } else { frac + 4503599627370496u64 };
    if exp >= 1075 {
        proof {
            let sc = (dbl_exp(bits) - 1075) as nat;
            lemma_pow2_pos(sc);
            assert(dbl_mant(bits) * pow2(sc) >= dbl_mant(bits)) by (nonlinear_arith)
                requires
                    pow2(sc) >= 1,
                    dbl_mant(bits) >= 0,
            ;
        }
        return false;
    }
    let k: u64 = if exp == 0 { 1074 } else { 1075 - exp };
    if k >= 64 {
        proof {
            lemma_pow2_strictly_increases(53, k as nat);
            lemma2_to64();
            assert(pow2(53) == 2 * two52()) by {
                lemma_pow2_adds(52, 1);
            }
            lemma_small_mod(mant as nat, pow2(k as nat));
            vstd::arithmetic::div_mod::lemma_basic_div(mant as int, pow2(k as nat) as int);
        }
        return mant == 0 && v == 0;
    }
    proof {
        lemma_u64_shr_is_div(mant, k);
        vstd::arithmetic::power2::lemma_pow2_pos(k as nat);
        vstd::bits::lemma_u64_pow2_no_overflow(k as nat);
        lemma_u64_shl_is_mul(1, k);
    }
    let d: u64 = 1u64 << k;
    let q: u64 = mant >> k;
    if mant % d != 0 {
        return false;
    }
    proof {
        lemma_pow2_pos(k as nat);
        vstd::arithmetic::div_mod::lemma_div_is_ordered_by_denominator(mant as int, 1, pow2(k as nat) as int);
    }
    let sv: i64 = if neg { -(q as i64) } else { q as i64 };
    sv == v as i64
}

/// floor(log2(a)) for a positive `a`.
pub open spec fn log2(a: nat) -> nat
    decreases a,
{
    if a <= 1 {
        0
    } else {
        1 + log2(a / 2)
    }
}

proof fn lemma_log2_bounds(a: nat)
    requires
        a >= 1,
    ensures
        pow2(log2(a)) <= a < pow2(log2(a) + 1),
    decreases a,
{
    vstd::arithmetic::power2::lemma_pow2_unfold(log2(a) + 1);
    if a <= 1 {
        vstd::arithmetic::power2::lemma_pow2_unfold(1);
        assert(pow2(0) == 1) by {
            lemma2_to64();
        }
    } else {
        lemma_log2_bounds(a / 2);
        vstd::arithmetic::power2::lemma_pow2_unfold(log2(a));
    }
}

/// The bit pattern of the double equal to an `int` value.
pub open spec fn int_bits(v: int) -> u64 {
    if v == 0 {
        0
    } else {
        let a: nat = if v < 0 { (-v) as nat } else { v as nat };
        let k = log2(a);
        let frac = a * pow2((52 - k) as nat) - two52();
        let sign = if v < 0 { two63() } else { 0 };
        (sign + (1023 + k) * two52() + frac) as u64
    }
}

/// The double with the value of `v` (exact, since every `int` is a double).
pub fn int_to_double(v: i32) -> (r: u64)
    ensures
        r == int_bits(v as int),
        dbl_equals_int(r, v as int),
        sat_int(r) == v,
{
    if v == 0 {
        proof {
            assert(dbl_exp(0) == 0);
            assert(dbl_mant(0) == 0);
            lemma_pow2_pos(1074);
            vstd::arithmetic::div_mod::lemma_small_mod(0, pow2(1074));
            vstd::arithmetic::div_mod::lemma_basic_div(0, pow2(1074) as int);
        }
        return 0;
    }
    let a: u64 = if v < 0 { (-(v as i64)) as u64 } else { v as u64 };
    let mut t: u64 = a;
    let mut k: u64 = 0;
    proof {
        lemma2_to64();
    }
    while t > 1
        invariant
            1 <= t <= a,
            a <= 2147483648,
            k + log2(t as nat) == log2(a as nat),
            k <= 32,
            t as int * pow2(k as nat) <= a,
        decreases t,
    {
        proof {
            lemma_pow2_pos(k as nat);
            vstd::arithmetic::power2::lemma_pow2_unfold(k as nat + 1);
            assert((t / 2) as int * pow2(k as nat + 1) <= t as int * pow2(k as nat)) by (nonlinear_arith)
                requires
                    pow2(k as nat + 1) == 2 * pow2(k as nat),
                    pow2(k as nat) > 0,
            ;
            assert(k + 1 <= 32) by {
                if k >= 32 {
                    lemma2_to64();
                    lemma_pow2_strictly_increases(31, k as nat);
                    assert(t as int * pow2(k as nat) >= 2 * pow2(k as nat)) by (nonlinear_arith)
                        requires t >= 2, pow2(k as nat) > 0;
                }
            }
        }
        t = t / 2;
        k = k + 1;
    }
    proof {
        lemma_log2_bounds(a as nat);
        lemma2_to64();
        vstd::arithmetic::power2::lemma2_to64_rest();
        assert(k == log2(a as nat));
        lemma_pow2_strictly_increases(log2(a as nat), 32);
        assert(log2(a as nat) <= 31) by {
            if log2(a as nat) > 31 {
                lemma_pow2_strictly_increases(31, log2(a as nat));
            }
        }
        vstd::bits::lemma_u64_pow2_no_overflow((52 - k) as nat);
        lemma_u64_shl_is_mul(1, (52 - k) as u64);
        lemma_pow2_adds(k as nat, (52 - k) as nat);
        lemma_pow2_adds(k as nat + 1, (52 - k) as nat);
        vstd::arithmetic::power2::lemma_pow2_unfold(53);
        assert(pow2(52) <= a as int * pow2((52 - k) as nat) < pow2(53)) by (nonlinear_arith)
            requires
                pow2(k as nat) <= a < pow2(k as nat + 1),
                pow2(k as nat) * pow2((52 - k) as nat) == pow2(52),
                pow2(k as nat + 1) * pow2((52 - k) as nat) == pow2(53),
                pow2((52 - k) as nat) > 0,
        ;
    }
    let m: u64 = a * (1u64 << (52 - k));
    let frac: u64 = m - 4503599627370496u64;
    let exp: u64 = 1023 + k;
    let sign: u64 = if v < 0 { 9223372036854775808u64 } else { 0 };
    let r: u64 = sign + exp * 4503599627370496u64 + frac;
    proof {
        assert(r == int_bits(v as int));
        // decode the fields again
        let s2 = if v < 0 { 2048int } else { 0 };
        assert(r as int == (s2 + exp as int) * two52() + frac as int) by (nonlinear_arith)
            requires
                r as int == sign as int + exp as int * two52() + frac as int,
                sign as int == s2 * two52(),
        ;
        lemma_fundamental_div_mod(r as int, two52());
        vstd::arithmetic::div_mod::lemma_div_multiples_vanish_fancy(s2 + exp as int, frac as int, two52());
        vstd::arithmetic::div_mod::lemma_mod_multiples_vanish(s2 + exp as int, frac as int, two52());
        lemma_small_mod(frac as nat, two52() as nat);
        assert(r as int / two52() == s2 + exp);
        assert(dbl_frac(r) == frac);
        vstd::arithmetic::div_mod::lemma_mod_multiples_vanish(if v < 0 { 1int } else { 0 }, exp as int, 2048);
        lemma_small_mod(exp as nat, 2048);
        assert(dbl_exp(r) == exp);
        assert(dbl_negative(r) == (v < 0));
        assert(dbl_mant(r) == m);
        assert(dbl_scale(r) == k - 52);
        let d = pow2((52 - k) as nat) as int;
        vstd::arithmetic::div_mod::lemma_mod_multiples_basic(a as int, d);
        vstd::arithmetic::div_mod::lemma_div_multiples_vanish(a as int, d);
        assert(m as int == a as int * d);
        assert(m as int / d == a) by {
            vstd::arithmetic::mul::lemma_mul_is_commutative(a as int, d);
            vstd::arithmetic::div_mod::lemma_div_multiples_vanish(a as int, d);
        }
        assert(m as int % d == 0) by {
            vstd::arithmetic::mul::lemma_mul_is_commutative(a as int, d);
            vstd::arithmetic::div_mod::lemma_mod_multiples_basic(a as int, d);
        }
        assert(trunc_mag(r) == a);
    }
    r
}

} // verus!
