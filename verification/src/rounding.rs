//! The rounding of a significand at a power of two to a pattern, as every
//! operation of `crate::arithmetic` ends.

use crate::binary32::{INFINITY_BITS, scaled_magnitude};
use crate::nearest::{
    lemma_exact_rounds, lemma_parts, lemma_pattern_order, lemma_rounds_to_same_fraction,
    lemma_rounds_to_unique, lemma_within_same_fraction, rounded, rounds_to, within,
};
use vstd::arithmetic::div_mod::*;
use vstd::arithmetic::mul::*;
use vstd::arithmetic::power2::*;
use vstd::bits::*;
use vstd::prelude::*;

verus! {

/// The numerator of `sig * 2^exp` as a fraction.
pub open spec fn exact_num(sig: nat, exp: int) -> nat {
    if exp >= 0 {
        sig * pow2(exp as nat)
    } else {
        sig
    }
}

/// The denominator of `sig * 2^exp` as a fraction.
pub open spec fn exact_den(exp: int) -> nat {
    if exp >= 0 {
        1
    } else {
        pow2((-exp) as nat)
    }
}

/// Rounds `sig * 2^exp`, counted in units of 2^-149, to the nearest
/// magnitude, a tie to the even pattern.
pub(crate) fn round_magnitude(sig: u64, exp: i32) -> (p: u32)
    requires
        sig < 0x4000_0000_0000_0000,
        -1000 <= exp <= 1000,
    ensures
        rounds_to(p, exact_num(sig as nat, exp as int), exact_den(exp as int)),
        p == rounded(exact_num(sig as nat, exp as int), exact_den(exp as int)),
{
    let p: u32 = round_inexact(sig, exp, false);
    proof {
        let num = exact_num(sig as nat, exp as int);
        let den = exact_den(exp as int);
        if exp < 0 {
            lemma_pow2_pos((-exp) as nat);
        }
        lemma_rounds_to_unique(p, rounded(num, den), num, den);
    }
    p
}

/// Rounds a value of which `sig * 2^exp` is the leading part. Without
/// `sticky` that is the whole value. With it, the value lies strictly
/// between `sig * 2^exp` and `(sig + 1) * 2^exp`, and the result is the
/// pattern in whose interval all of these lie; `lemma_within_between` is
/// how a caller gets from there to the value itself.
pub(crate) fn round_inexact(sig: u64, exp: i32, sticky: bool) -> (p: u32)
    requires
        sig < 0x4000_0000_0000_0000,
        -1000 <= exp <= 1000,
        sticky ==> sig >= 0x200_0000,
    ensures
        !sticky ==> rounds_to(p, exact_num(sig as nat, exp as int), exact_den(exp as int)),
        sticky ==> within(p, exact_num(sig as nat, exp as int), exact_den(exp as int)),
        sticky ==> within(p, exact_num((sig + 1) as nat, exp as int), exact_den(exp as int)),
{
    if sig == 0 {
        proof {
            lemma_round_zero(exp as int);
        }
        return 0;
    }
    let len: i32 = bit_length(sig) as i32;
    let top: i32 = len - 1 + exp;
    let k: i32 = if top >= 23 {
        top - 23
    } else {
        0
    };
    proof {
        lemma2_to64();
        if sticky && len < 26 {
            if len < 25 {
                lemma_pow2_strictly_increases(len as nat, 25);
            }
            assert(false);
        }
    }
    if k >= 254 {
        proof {
            lemma_round_overflow(sig as nat, exp as int, len as nat);
            lemma_round_overflow((sig + 1) as nat, exp as int, len as nat);
        }
        return INFINITY_BITS;
    }
    if exp >= k {
        let shift: u32 = (exp - k) as u32;
        let scale: u64 = power_of_two(shift);
        proof {
            // sig * 2^shift is below 2^(len + shift), which is at most 2^24,
            // and has its leading bit at 2^23 unless k is 0.
            lemma_pow2_adds(len as nat, shift as nat);
            lemma_pow2_pos(shift as nat);
            lemma_mul_strict_inequality(sig as int, pow2(len as nat) as int, scale as int);
            if len + shift < 24 {
                lemma_pow2_strictly_increases((len + shift) as nat, 24);
            }
            if k >= 1 {
                lemma_pow2_adds((len - 1) as nat, shift as nat);
                lemma_mul_inequality(pow2((len - 1) as nat) as int, sig as int, scale as int);
            }
        }
        let m: u64 = sig * scale;
        proof {
            lemma_round_exact(sig as nat, exp as int, k as nat, m as nat);
        }
        return (k as u32) * 0x80_0000 + (m as u32);
    }
    let sh: i32 = k - exp;
    if sh >= 63 {
        proof {
            lemma_round_tiny(sig as nat, exp as int);
            lemma_round_tiny((sig + 1) as nat, exp as int);
        }
        return 0;
    }
    let d: u64 = power_of_two(sh as u32);
    proof {
        lemma_pow2_pos(sh as nat);
    }
    let m0: u64 = sig / d;
    let rem: u64 = sig % d;
    let half: u64 = d / 2;
    let up: bool = rem > half || (rem == half && (sticky || m0 % 2 == 1));
    proof {
        lemma_pow2_adds(24, sh as nat);
        if len < 24 + sh {
            lemma_pow2_strictly_increases(len as nat, (24 + sh) as nat);
        }
        if k >= 1 {
            lemma_pow2_adds(23, sh as nat);
        }
        lemma_fundamental_div_mod(sig as int, d as int);
        assert(m0 < 0x100_0000 && (k >= 1 ==> m0 >= 0x80_0000)) by (nonlinear_arith)
            requires
                d > 0,
                sig < 0x100_0000 * d,
                k >= 1 ==> sig >= 0x80_0000 * d,
                sig == d * m0 + rem,
                0 <= rem < d,
        ;
    }
    let m: u64 = if up {
        m0 + 1
    } else {
        m0
    };
    proof {
        if sticky {
            lemma_pow2_unfold(sh as nat);
            lemma_half_sticky(sig as nat, d as nat, m as nat);
            lemma_round_within(sig as nat, k as nat, d as nat, m as nat);
            lemma_round_within((sig + 1) as nat, k as nat, d as nat, m as nat);
            let p = (k * 0x80_0000 + m) as u32;
            lemma_scaled_fraction(sig as nat, exp as int, k as nat);
            lemma_scaled_fraction((sig + 1) as nat, exp as int, k as nat);
            lemma_within_same_fraction(
                p,
                sig as nat * pow2(k as nat),
                d as nat,
                exact_num(sig as nat, exp as int),
                exact_den(exp as int),
            );
            lemma_within_same_fraction(
                p,
                (sig + 1) as nat * pow2(k as nat),
                d as nat,
                exact_num((sig + 1) as nat, exp as int),
                exact_den(exp as int),
            );
        } else {
            lemma_round_inexact(sig as nat, exp as int, k as nat, d as nat, m as nat);
        }
    }
    (k as u32) * 0x80_0000 + (m as u32)
}

/// The number of bits of `x`.
pub(crate) fn bit_length(x: u64) -> (n: u32)
    requires
        x < 0x4000_0000_0000_0000,
    ensures
        n <= 62,
        x < pow2(n as nat),
        n > 0 ==> pow2((n - 1) as nat) <= x,
{
    let mut n: u32 = 0;
    let mut top: u64 = 1;
    proof {
        lemma2_to64();
        lemma2_to64_rest();
    }
    while top <= x
        invariant
            top == pow2(n as nat),
            x < 0x4000_0000_0000_0000,
            n <= 62,
            n > 0 ==> pow2((n - 1) as nat) <= x,
        decreases 63 - n,
    {
        proof {
            lemma_pow2_pos(n as nat);
            lemma2_to64_rest();
            if n >= 62 {
                if n > 62 {
                    lemma_pow2_strictly_increases(62, n as nat);
                }
            }
            lemma_pow2_unfold((n + 1) as nat);
        }
        top = top * 2;
        n = n + 1;
    }
    n
}

/// 2 to the power `n`.
pub(crate) fn power_of_two(n: u32) -> (r: u64)
    requires
        n <= 62,
    ensures
        r == pow2(n as nat),
{
    proof {
        lemma_u64_pow2_no_overflow(n as nat);
        lemma_u64_shl_is_mul(1, n as u64);
    }
    1u64 << (n as u64)
}

/// `2^(u - v)` as a fraction: `exact_num(1, u - v) / exact_den(u - v)` is
/// `2^u / 2^v`.
pub proof fn lemma_power_fraction(u: nat, v: nat)
    ensures
        pow2(u) * exact_den(u - v) == exact_num(1, u - v) * pow2(v),
        exact_den(u - v) > 0,
        exact_num(1, u - v) > 0,
{
    lemma_pow2_pos(u);
    lemma_pow2_pos(v);
    if u >= v {
        let e = (u - v) as nat;
        lemma_pow2_adds(e, v);
        lemma_pow2_pos(e);
        assert(exact_den(u - v) == 1);
        assert(exact_num(1, u - v) == pow2(e));
    } else {
        let e = (v - u) as nat;
        lemma_pow2_adds(u, e);
        lemma_pow2_pos(e);
        assert((-(u - v)) as nat == e);
        assert(exact_den(u - v) == pow2(e));
        assert(exact_num(1, u - v) == 1);
    }
}

/// `exact_num` is linear in the significand.
pub proof fn lemma_exact_num_linear(x: nat, exp: int)
    ensures
        exact_num(x, exp) == x * exact_num(1, exp),
{
    if exp >= 0 {
        lemma_mul_basics(pow2(exp as nat) as int);
    }
}

/// `x * 2^k / d` written as `x * 2^exp`, where `d` is 2^(k - exp).
proof fn lemma_scaled_fraction(x: nat, exp: int, k: nat)
    requires
        k >= exp,
    ensures
        (x * pow2(k)) * exact_den(exp) == exact_num(x, exp) * pow2((k - exp) as nat),
        exact_den(exp) > 0,
        pow2((k - exp) as nat) > 0,
{
    let unit = pow2(k);
    let d = pow2((k - exp) as nat);
    lemma_pow2_pos((k - exp) as nat);
    if exp >= 0 {
        lemma_pow2_adds(exp as nat, (k - exp) as nat);
        lemma_mul_is_associative(x as int, pow2(exp as nat) as int, d as int);
    } else {
        lemma_pow2_pos((-exp) as nat);
        lemma_pow2_adds(k, (-exp) as nat);
        lemma_mul_is_associative(x as int, unit as int, exact_den(exp) as int);
    }
}

/// Rounding a quotient to the nearest whole number, a tie to the even
/// one, leaves it within half a unit, and strictly so at an odd result.
proof fn lemma_half_even(sig: nat, d: nat, m: nat)
    by (nonlinear_arith)
    requires
        d > 0,
        d % 2 == 0,
        m == sig / d + (if sig % d > d / 2 || (sig % d == d / 2 && (sig / d) % 2 == 1) {
            1nat
        } else {
            0nat
        }),
        sig == d * (sig / d) + sig % d,
        sig % d < d,
    ensures
        (2 * m - 1) * d <= 2 * sig <= (2 * m + 1) * d,
        m % 2 == 1 ==> (2 * m - 1) * d < 2 * sig < (2 * m + 1) * d,
        m == sig / d ==> m * d <= sig,
        m != sig / d ==> sig < m * d,
{
}

/// With something lost below the last bit of `sig`, rounding never
/// meets a tie: the quotient is rounded up from half a unit on.
proof fn lemma_half_sticky(sig: nat, d: nat, m: nat)
    by (nonlinear_arith)
    requires
        d > 0,
        d % 2 == 0,
        m == sig / d + (if sig % d >= d / 2 {
            1nat
        } else {
            0nat
        }),
        sig == d * (sig / d) + sig % d,
        sig % d < d,
    ensures
        (2 * m - 1) * d <= 2 * sig,
        2 * (sig + 1) <= (2 * m + 1) * d,
        m == sig / d ==> m * d <= sig,
        m != sig / d ==> sig + 1 <= m * d,
{
}

/// Zero rounds to 0.
proof fn lemma_round_zero(exp: int)
    ensures
        rounds_to(0, exact_num(0, exp), exact_den(exp)),
{
    if exp >= 0 {
        lemma_mul_basics(pow2(exp as nat) as int);
    }
    assert(exact_num(0, exp) == 0);
    assert(exact_den(exp) * (scaled_magnitude(0) + scaled_magnitude(1)) >= 0);
}

/// A value of at most half a unit rounds to 0.
proof fn lemma_round_tiny(sig: nat, exp: int)
    requires
        sig <= 0x4000_0000_0000_0000,
        exp <= -63,
    ensures
        rounds_to(0, exact_num(sig, exp), exact_den(exp)),
{
    lemma_parts(0, 0);
    lemma_parts(0, 1);
    lemma2_to64();
    lemma2_to64_rest();
    if exp < -63 {
        lemma_pow2_strictly_increases(63, (-exp) as nat);
    }
    let den = exact_den(exp);
    assert(den * (0 + 1) == den) by (nonlinear_arith);
}

/// A value of at least 2^128 rounds to infinity.
proof fn lemma_round_overflow(sig: nat, exp: int, len: nat)
    requires
        len >= 1,
        pow2((len - 1) as nat) <= sig,
        len - 1 + exp >= 277,
        len <= 62,
    ensures
        rounds_to(INFINITY_BITS, exact_num(sig, exp), exact_den(exp)),
{
    lemma_pattern_order((INFINITY_BITS - 1) as u32, INFINITY_BITS);
    lemma_parts(253, 0x100_0000);
    assert(253 * 0x80_0000 + 0x100_0000 == INFINITY_BITS);
    let top = scaled_magnitude(INFINITY_BITS);
    assert(top == 0x100_0000 * pow2(253));
    lemma2_to64();
    lemma_pow2_adds(24, 253);
    assert(top == pow2(277));
    let e = exp as nat;
    let num = exact_num(sig, exp);
    assert(num == sig * pow2(e));
    lemma_pow2_adds((len - 1) as nat, e);
    if len - 1 + e > 277 {
        lemma_pow2_strictly_increases(277, (len - 1 + e) as nat);
    }
    lemma_pow2_pos(e);
    lemma_mul_inequality(pow2((len - 1) as nat) as int, sig as int, pow2(e) as int);
    assert(top <= num);
}

/// A value that fits a significand without losing a bit rounds to the
/// pattern of that significand.
proof fn lemma_round_exact(sig: nat, exp: int, k: nat, m: nat)
    requires
        exp >= k,
        m == sig * pow2((exp - k) as nat),
        k <= 253,
        m <= 0x100_0000,
        k >= 1 ==> m >= 0x80_0000,
    ensures
        k * 0x80_0000 + m <= INFINITY_BITS,
        rounds_to((k * 0x80_0000 + m) as u32, exact_num(sig, exp), exact_den(exp)),
{
    lemma_parts(k, m);
    let p = (k * 0x80_0000 + m) as u32;
    lemma_exact_rounds(p);
    let shift = (exp - k) as nat;
    lemma_pow2_adds(shift, k);
    lemma_mul_is_associative(sig as int, pow2(shift) as int, pow2(k) as int);
    assert(m * pow2(k) == sig * pow2(exp as nat));
}

/// A value whose low `sh` bits are rounded away, a tie to the even
/// significand, rounds to the pattern of what is left.
proof fn lemma_round_inexact(sig: nat, exp: int, k: nat, d: nat, m: nat)
    requires
        k - exp >= 1,
        d == pow2((k - exp) as nat),
        k <= 253,
        sig < 0x100_0000 * d,
        k >= 1 ==> sig >= 0x80_0000 * d,
        m == sig / d + (if sig % d > d / 2 || (sig % d == d / 2 && (sig / d) % 2 == 1) {
            1nat
        } else {
            0nat
        }),
    ensures
        k * 0x80_0000 + m <= INFINITY_BITS,
        rounds_to((k * 0x80_0000 + m) as u32, exact_num(sig, exp), exact_den(exp)),
{
    let sh = (k - exp) as nat;
    let unit = pow2(k);
    lemma_pow2_pos(sh);
    lemma_pow2_pos(k);
    lemma_pow2_unfold(sh);
    lemma_fundamental_div_mod(sig as int, d as int);
    lemma_mod_bound(sig as int, d as int);
    lemma_div_pos_is_pos(sig as int, d as int);
    lemma_half_even(sig, d, m);
    let m0 = sig / d;
    assert(m0 < 0x100_0000 && (k >= 1 ==> m0 >= 0x80_0000)) by (nonlinear_arith)
        requires
            d > 0,
            sig < 0x100_0000 * d,
            k >= 1 ==> sig >= 0x80_0000 * d,
            sig == d * m0 + sig % d,
            0 <= sig % d < d,
    ;
    lemma_parts(k, m);
    let p = (k * 0x80_0000 + m) as u32;
    let here = scaled_magnitude(p);
    // The value is `sig * unit / d`.
    let num = sig * unit;
    assert(rounds_to(p, num, d)) by {
        if p > 0 {
            let below = scaled_magnitude((p - 1) as u32);
            if m >= 1 && (k == 0 || m > 0x80_0000) {
                lemma_parts(k, (m - 1) as nat);
                assert(d * (below + here) == ((2 * m - 1) * d) * unit && 2 * num == (2 * sig)
                    * unit) by (nonlinear_arith)
                    requires
                        below == (m - 1) * unit,
                        here == m * unit,
                        num == sig * unit,
                ;
                lemma_mul_inequality((2 * m - 1) * d, (2 * sig) as int, unit as int);
                if m % 2 == 1 {
                    lemma_mul_strict_inequality((2 * m - 1) * d, (2 * sig) as int, unit as int);
                }
            } else {
                assert(m == m0);
                lemma_pattern_order((p - 1) as u32, p);
                assert(d * (below + here) < 2 * num) by (nonlinear_arith)
                    requires
                        below < here,
                        here == m * unit,
                        num == sig * unit,
                        m * d <= sig,
                        d > 0,
                        unit > 0,
                ;
            }
        }
        if p < INFINITY_BITS {
            let above = scaled_magnitude((p + 1) as u32);
            if m < 0x100_0000 {
                lemma_parts(k, m + 1);
                assert(d * (here + above) == ((2 * m + 1) * d) * unit && 2 * num == (2 * sig)
                    * unit) by (nonlinear_arith)
                    requires
                        above == (m + 1) * unit,
                        here == m * unit,
                        num == sig * unit,
                ;
                lemma_mul_inequality((2 * sig) as int, ((2 * m + 1) * d) as int, unit as int);
                if m % 2 == 1 {
                    lemma_mul_strict_inequality((2 * sig) as int, ((2 * m + 1) * d) as int, unit as int);
                }
            } else {
                assert(m != m0);
                lemma_pattern_order(p, (p + 1) as u32);
                assert(2 * num < d * (here + above)) by (nonlinear_arith)
                    requires
                        here < above,
                        here == m * unit,
                        num == sig * unit,
                        sig < m * d,
                        d > 0,
                        unit > 0,
                ;
            }
        }
    }
    let num2 = exact_num(sig, exp);
    let den2 = exact_den(exp);
    assert(num * den2 == num2 * d) by {
        if exp >= 0 {
            lemma_pow2_adds(exp as nat, sh);
            lemma_mul_is_associative(sig as int, pow2(exp as nat) as int, d as int);
        } else {
            lemma_pow2_adds(k, (-exp) as nat);
            lemma_mul_is_associative(sig as int, unit as int, den2 as int);
        }
    }
    if exp < 0 {
        lemma_pow2_pos((-exp) as nat);
    }
    lemma_rounds_to_same_fraction(p, num, d, num2, den2);
}

/// A quotient `x / d` within half a unit of the significand `m` lies, in
/// units of `2^k`, within the interval of the pattern of `m`.
proof fn lemma_round_within(x: nat, k: nat, d: nat, m: nat)
    requires
        k <= 253,
        d > 0,
        m <= 0x100_0000,
        k >= 1 ==> m >= 0x80_0000,
        (2 * m - 1) * d <= 2 * x <= (2 * m + 1) * d,
        k >= 1 && m == 0x80_0000 ==> m * d <= x,
        m == 0x100_0000 ==> x <= m * d,
    ensures
        k * 0x80_0000 + m <= INFINITY_BITS,
        within((k * 0x80_0000 + m) as u32, x * pow2(k), d),
{
    let unit = pow2(k);
    lemma_pow2_pos(k);
    lemma_parts(k, m);
    let p = (k * 0x80_0000 + m) as u32;
    let here = scaled_magnitude(p);
    let num = x * unit;
    if p > 0 {
        let below = scaled_magnitude((p - 1) as u32);
        if m >= 1 && (k == 0 || m > 0x80_0000) {
            lemma_parts(k, (m - 1) as nat);
            assert(d * (below + here) == ((2 * m - 1) * d) * unit && 2 * num == (2 * x) * unit)
                by (nonlinear_arith)
                requires
                    below == (m - 1) * unit,
                    here == m * unit,
                    num == x * unit,
            ;
            lemma_mul_inequality((2 * m - 1) * d, (2 * x) as int, unit as int);
        } else {
            lemma_pattern_order((p - 1) as u32, p);
            assert(d * (below + here) <= 2 * num) by (nonlinear_arith)
                requires
                    below < here,
                    here == m * unit,
                    num == x * unit,
                    m * d <= x,
                    d > 0,
                    unit > 0,
            ;
        }
    }
    if p < INFINITY_BITS {
        let above = scaled_magnitude((p + 1) as u32);
        if m < 0x100_0000 {
            lemma_parts(k, m + 1);
            assert(d * (here + above) == ((2 * m + 1) * d) * unit && 2 * num == (2 * x) * unit)
                by (nonlinear_arith)
                requires
                    above == (m + 1) * unit,
                    here == m * unit,
                    num == x * unit,
            ;
            lemma_mul_inequality((2 * x) as int, ((2 * m + 1) * d) as int, unit as int);
        } else {
            lemma_pattern_order(p, (p + 1) as u32);
            assert(2 * num <= d * (here + above)) by (nonlinear_arith)
                requires
                    here < above,
                    here == m * unit,
                    num == x * unit,
                    x <= m * d,
                    d > 0,
                    unit > 0,
            ;
        }
    }
}

} // verus!
