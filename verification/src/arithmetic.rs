//! Negation, addition, subtraction, multiplication, division and square
//! root of binary32 numbers, each rounded to the nearest, ties to even.
//!
//! A result that is a NaN is always the pattern `NAN_BITS`; which NaN an
//! operation gives is the one thing that IEEE 754 leaves open.

use crate::binary32::{
    Binary32, INFINITY_BITS, MAGNITUDE_MASK, SIGN_BIT, lemma_fields, lemma_magnitude_zero,
    scaled_magnitude,
};
use crate::nearest::{
    lemma_parts, lemma_root_unique, lemma_rounds_to_same_fraction, lemma_rounds_to_unique,
    lemma_square_order, lemma_within_between, root_rounds_to, rounded, rounded_root, rounds_to,
    within,
};
use crate::rounding::{
    bit_length, exact_den, exact_num, lemma_exact_num_linear, lemma_power_fraction, power_of_two,
    round_inexact, round_magnitude,
};
use vstd::arithmetic::div_mod::*;
use vstd::arithmetic::mul::*;
use vstd::arithmetic::power2::*;
use vstd::prelude::*;

verus! {

/// The NaN that the operations of this module give.
pub const NAN_BITS: u32 = 0x7fc0_0000;

/// The number with the given sign and magnitude.
pub open spec fn with_sign(negative: bool, magnitude: u32) -> Binary32 {
    Binary32 {
        bits: if negative {
            (magnitude + SIGN_BIT) as u32
        } else {
            magnitude
        },
    }
}

/// A magnitude in units of 2^-149 with its sign.
pub open spec fn signed(magnitude: int, negative: bool) -> int {
    if negative {
        -magnitude
    } else {
        magnitude
    }
}

/// An exact sum of two finite numbers, in units of 2^-149, as a binary32.
/// A sum of zero is -0.0 only where both terms were negative.
pub open spec fn round_sum(sum: int, both_negative: bool) -> Binary32 {
    if sum == 0 {
        with_sign(both_negative, 0)
    } else if sum < 0 {
        with_sign(true, rounded((-sum) as nat, 1))
    } else {
        with_sign(false, rounded(sum as nat, 1))
    }
}

impl Binary32 {
    /// The NaN that the operations give.
    pub open spec fn nan_spec() -> Binary32 {
        Binary32 { bits: NAN_BITS }
    }

    /// Whether the number is an infinity.
    pub open spec fn is_infinite_spec(self) -> bool {
        self.magnitude() == INFINITY_BITS
    }

    /// Whether the number is +0.0 or -0.0.
    pub open spec fn is_zero_spec(self) -> bool {
        self.magnitude() == 0
    }

    /// Whether the number is neither an infinity nor a NaN.
    pub open spec fn is_finite_spec(self) -> bool {
        self.magnitude() < INFINITY_BITS
    }

    /// The number with its sign bit turned, a NaN too.
    pub open spec fn neg_spec(self) -> Binary32 {
        with_sign(!self.is_sign_negative_spec(), self.magnitude())
    }

    /// The product: a NaN where a factor is one or where 0 meets an
    /// infinity; an infinity where a factor is one; else the exact
    /// product, rounded. The sign is that of the factors' signs taken
    /// together.
    pub open spec fn mul_spec(self, other: Binary32) -> Binary32 {
        let negative = self.is_sign_negative_spec() != other.is_sign_negative_spec();
        if self.is_nan_spec() || other.is_nan_spec() {
            Binary32::nan_spec()
        } else if self.is_infinite_spec() || other.is_infinite_spec() {
            if self.is_zero_spec() || other.is_zero_spec() {
                Binary32::nan_spec()
            } else {
                with_sign(negative, INFINITY_BITS)
            }
        } else {
            with_sign(
                negative,
                rounded(scaled_magnitude(self.bits) * scaled_magnitude(other.bits), pow2(149)),
            )
        }
    }

    /// The sum: a NaN where a term is one or where the two infinities
    /// meet; an infinite term where there is one; else the exact sum,
    /// rounded.
    pub open spec fn add_spec(self, other: Binary32) -> Binary32 {
        if self.is_nan_spec() || other.is_nan_spec() {
            Binary32::nan_spec()
        } else if self.is_infinite_spec() {
            if other.is_infinite_spec() && self.is_sign_negative_spec()
                != other.is_sign_negative_spec() {
                Binary32::nan_spec()
            } else {
                self
            }
        } else if other.is_infinite_spec() {
            other
        } else {
            round_sum(
                self.scaled_value() + other.scaled_value(),
                self.is_sign_negative_spec() && other.is_sign_negative_spec(),
            )
        }
    }

    /// The quotient: a NaN where a side is one, where 0 is divided by 0 or
    /// an infinity by an infinity; an infinity where an infinity is
    /// divided or where the divisor is 0; 0 where the divisor is an
    /// infinity; else the exact quotient, rounded. The sign is that of
    /// the two signs taken together.
    pub open spec fn div_spec(self, other: Binary32) -> Binary32 {
        let negative = self.is_sign_negative_spec() != other.is_sign_negative_spec();
        if self.is_nan_spec() || other.is_nan_spec() {
            Binary32::nan_spec()
        } else if self.is_infinite_spec() {
            if other.is_infinite_spec() {
                Binary32::nan_spec()
            } else {
                with_sign(negative, INFINITY_BITS)
            }
        } else if other.is_infinite_spec() {
            with_sign(negative, 0)
        } else if other.is_zero_spec() {
            if self.is_zero_spec() {
                Binary32::nan_spec()
            } else {
                with_sign(negative, INFINITY_BITS)
            }
        } else if self.is_zero_spec() {
            with_sign(negative, 0)
        } else {
            with_sign(
                negative,
                rounded(scaled_magnitude(self.bits) * pow2(149), scaled_magnitude(other.bits)),
            )
        }
    }

    /// The square root: a NaN of a NaN and of a number below zero; a zero
    /// and the positive infinity as they are; else the exact root,
    /// rounded.
    pub open spec fn sqrt_spec(self) -> Binary32 {
        if self.is_nan_spec() {
            Binary32::nan_spec()
        } else if self.is_zero_spec() {
            self
        } else if self.is_sign_negative_spec() {
            Binary32::nan_spec()
        } else if self.is_infinite_spec() {
            self
        } else {
            with_sign(false, rounded_root(scaled_magnitude(self.bits) * pow2(149)))
        }
    }

    /// The difference: the sum with the negated second term.
    pub open spec fn sub_spec(self, other: Binary32) -> Binary32 {
        self.add_spec(other.neg_spec())
    }

    /// `-self`.
    pub fn neg(self) -> (r: Binary32)
        ensures
            r == self.neg_spec(),
    {
        let magnitude: u32 = self.bits & MAGNITUDE_MASK;
        proof {
            let bits = self.bits;
            assert((bits & 0x7fff_ffff) <= 0x7fff_ffff) by (bit_vector);
        }
        pack(!self.is_sign_negative(), magnitude)
    }

    /// `self * other`.
    pub fn mul(self, other: Binary32) -> (r: Binary32)
        ensures
            r == self.mul_spec(other),
    {
        if self.is_nan() || other.is_nan() {
            return Binary32 { bits: NAN_BITS };
        }
        let a: u32 = self.bits & MAGNITUDE_MASK;
        let b: u32 = other.bits & MAGNITUDE_MASK;
        let negative: bool = self.is_sign_negative() != other.is_sign_negative();
        if a == INFINITY_BITS || b == INFINITY_BITS {
            if a == 0 || b == 0 {
                return Binary32 { bits: NAN_BITS };
            }
            return pack(negative, INFINITY_BITS);
        }
        let (sa, ka) = unpack(a);
        let (sb, kb) = unpack(b);
        proof {
            lemma_mul_upper_bound(sa as int, 0xff_ffff, sb as int, 0xff_ffff);
        }
        let sig: u64 = sa * sb;
        let exp: i32 = ka + kb - 149;
        let p: u32 = round_magnitude(sig, exp);
        proof {
            lemma_sign_free(self.bits);
            lemma_sign_free(other.bits);
            lemma_product_fraction(sa as nat, ka as nat, sb as nat, kb as nat);
            let num = scaled_magnitude(self.bits) * scaled_magnitude(other.bits);
            lemma_pow2_pos(149);
            if exp < 0 {
                lemma_pow2_pos((-exp) as nat);
            }
            lemma_rounds_to_same_fraction(
                p,
                exact_num(sig as nat, exp as int),
                exact_den(exp as int),
                num,
                pow2(149),
            );
            lemma_rounds_to_unique(p, rounded(num, pow2(149)), num, pow2(149));
        }
        pack(negative, p)
    }

    /// `self + other`.
    pub fn add(self, other: Binary32) -> (r: Binary32)
        ensures
            r == self.add_spec(other),
    {
        if self.is_nan() || other.is_nan() {
            return Binary32 { bits: NAN_BITS };
        }
        let a: u32 = self.bits & MAGNITUDE_MASK;
        let b: u32 = other.bits & MAGNITUDE_MASK;
        let na: bool = self.is_sign_negative();
        let nb: bool = other.is_sign_negative();
        if a == INFINITY_BITS {
            if b == INFINITY_BITS && na != nb {
                return Binary32 { bits: NAN_BITS };
            }
            return self;
        }
        if b == INFINITY_BITS {
            return other;
        }
        proof {
            lemma_sign_free(self.bits);
            lemma_sign_free(other.bits);
        }
        let (sa, ka) = unpack(a);
        let (sb, kb) = unpack(b);
        if ka >= kb {
            add_aligned(sa, ka, na, sb, kb, nb)
        } else {
            add_aligned(sb, kb, nb, sa, ka, na)
        }
    }

    /// `self - other`.
    pub fn sub(self, other: Binary32) -> (r: Binary32)
        ensures
            r == self.sub_spec(other),
    {
        self.add(other.neg())
    }

    /// `self / other`.
    pub fn div(self, other: Binary32) -> (r: Binary32)
        ensures
            r == self.div_spec(other),
    {
        if self.is_nan() || other.is_nan() {
            return Binary32 { bits: NAN_BITS };
        }
        let a: u32 = self.bits & MAGNITUDE_MASK;
        let b: u32 = other.bits & MAGNITUDE_MASK;
        let negative: bool = self.is_sign_negative() != other.is_sign_negative();
        if a == INFINITY_BITS {
            if b == INFINITY_BITS {
                return Binary32 { bits: NAN_BITS };
            }
            return pack(negative, INFINITY_BITS);
        }
        if b == INFINITY_BITS {
            return pack(negative, 0);
        }
        if b == 0 {
            if a == 0 {
                return Binary32 { bits: NAN_BITS };
            }
            return pack(negative, INFINITY_BITS);
        }
        if a == 0 {
            return pack(negative, 0);
        }
        proof {
            lemma_sign_free(self.bits);
            lemma_sign_free(other.bits);
            lemma_magnitude_zero(self.bits);
            lemma_magnitude_zero(other.bits);
        }
        let (sa, ka) = unpack(a);
        let (sb, kb) = unpack(b);
        proof {
            if sa == 0 {
                lemma_mul_basics(pow2(ka as nat) as int);
            }
            if sb == 0 {
                lemma_mul_basics(pow2(kb as nat) as int);
            }
        }
        // Bring the dividend to 24 bits and 26 more, so that the quotient
        // has at least 26.
        let len: u32 = bit_length(sa);
        proof {
            lemma2_to64();
            if len > 24 {
                lemma_pow2_strictly_increases(24, (len - 1) as nat);
            }
        }
        let s: u32 = 50 - len;
        let scale: u64 = power_of_two(s);
        proof {
            lemma_pow2_adds(len as nat, s as nat);
            lemma_pow2_adds((len - 1) as nat, s as nat);
            lemma_pow2_pos(s as nat);
            lemma2_to64_rest();
            lemma_mul_strict_inequality(sa as int, pow2(len as nat) as int, scale as int);
            lemma_mul_inequality(pow2((len - 1) as nat) as int, sa as int, scale as int);
        }
        let x: u64 = sa * scale;
        let q: u64 = x / sb;
        let rem: u64 = x % sb;
        let exp: i32 = ka + 149 - (s as i32) - kb;
        proof {
            lemma_fundamental_div_mod(x as int, sb as int);
            assert(0x200_0000 <= q && q <= x) by (nonlinear_arith)
                requires
                    x == sb * q + rem,
                    0 <= rem < sb,
                    0 < sb < 0x100_0000,
                    x >= 0x2_0000_0000_0000,
            ;
        }
        let p: u32 = round_inexact(q, exp, rem != 0);
        proof {
            lemma_quotient(
                p,
                sa as nat,
                ka as nat,
                sb as nat,
                kb as nat,
                s as nat,
                q as nat,
                rem as nat,
            );
        }
        pack(negative, p)
    }

    /// The square root of `self`.
    pub fn sqrt(self) -> (r: Binary32)
        ensures
            r == self.sqrt_spec(),
    {
        if self.is_nan() {
            return Binary32 { bits: NAN_BITS };
        }
        let a: u32 = self.bits & MAGNITUDE_MASK;
        if a == 0 {
            return self;
        }
        if self.is_sign_negative() {
            return Binary32 { bits: NAN_BITS };
        }
        if a == INFINITY_BITS {
            return self;
        }
        proof {
            lemma_sign_free(self.bits);
            lemma_magnitude_zero(self.bits);
        }
        let (sa, ka) = unpack(a);
        proof {
            if sa == 0 {
                lemma_mul_basics(pow2(ka as nat) as int);
            }
        }
        // Bring the radicand to 52 or 53 bits, at an even power of two.
        let len: u32 = bit_length(sa);
        proof {
            lemma2_to64();
            if len > 24 {
                lemma_pow2_strictly_increases(24, (len - 1) as nat);
            }
        }
        let even: u32 = 52 - len;
        let s: u32 = if (ka + 149 - (even as i32)) % 2 == 0 {
            even
        } else {
            even + 1
        };
        let scale: u64 = power_of_two(s);
        proof {
            let base = pow2(even as nat);
            lemma_pow2_adds(len as nat, even as nat);
            lemma_pow2_adds((len - 1) as nat, even as nat);
            lemma_pow2_unfold((even + 1) as nat);
            lemma_pow2_pos(even as nat);
            lemma2_to64_rest();
            lemma_mul_strict_inequality(sa as int, pow2(len as nat) as int, base as int);
            lemma_mul_inequality(pow2((len - 1) as nat) as int, sa as int, base as int);
            assert(0x8_0000_0000_0000 <= sa * base < 0x10_0000_0000_0000);
            assert(sa * (2 * base) == 2 * (sa * base)) by (nonlinear_arith);
        }
        let x: u64 = sa * scale;
        let root: u64 = integer_root(x);
        let half: i32 = (ka + 149 - (s as i32)) / 2;
        proof {
            assert(root >= 0x200_0000) by (nonlinear_arith)
                requires
                    x < (root + 1) * (root + 1),
                    x >= 0x8_0000_0000_0000,
            ;
        }
        let p: u32 = round_inexact(root, half, root * root != x);
        proof {
            lemma_root(p, sa as nat, ka as nat, s as nat, half as nat, root as nat);
        }
        pack(false, p)
    }
}

/// Puts a sign on a magnitude.
fn pack(negative: bool, magnitude: u32) -> (r: Binary32)
    requires
        magnitude <= MAGNITUDE_MASK,
    ensures
        r == with_sign(negative, magnitude),
{
    if negative {
        Binary32 { bits: magnitude + SIGN_BIT }
    } else {
        Binary32 { bits: magnitude }
    }
}

/// Splits a finite magnitude into a significand and a power of two.
fn unpack(magnitude: u32) -> (r: (u64, i32))
    requires
        magnitude < INFINITY_BITS,
    ensures
        r.0 < 0x100_0000,
        0 <= r.1 <= 253,
        r.1 >= 1 ==> r.0 >= 0x80_0000,
        r.0 * pow2(r.1 as nat) == scaled_magnitude(magnitude),
{
    let e: u32 = magnitude >> 23;
    let f: u32 = magnitude & 0x7f_ffff;
    proof {
        lemma_fields(magnitude);
        assert((magnitude >> 23) & 0xff == magnitude >> 23) by (bit_vector)
            requires
                magnitude <= 0x7f80_0000,
        ;
        assert(magnitude & 0x7fff_ffff == magnitude) by (bit_vector)
            requires
                magnitude <= 0x7f80_0000,
        ;
        lemma2_to64();
    }
    if e == 0 {
        (f as u64, 0)
    } else {
        ((f + 0x80_0000) as u64, (e - 1) as i32)
    }
}

/// Adds two unpacked finite numbers, the one with the larger power of two
/// first.
fn add_aligned(s1: u64, k1: i32, n1: bool, s2: u64, k2: i32, n2: bool) -> (r: Binary32)
    requires
        0 <= k2 <= k1 <= 253,
        s1 < 0x100_0000,
        s2 < 0x100_0000,
        k1 >= 1 ==> s1 >= 0x80_0000,
    ensures
        r == round_sum(
            signed(s1 * pow2(k1 as nat), n1) + signed(s2 * pow2(k2 as nat), n2),
            n1 && n2,
        ),
{
    let d: i32 = k1 - k2;
    let ghost unit = pow2(k2 as nat);
    let ghost sum = signed(s1 * pow2(k1 as nat), n1) + signed(s2 * pow2(k2 as nat), n2);
    proof {
        lemma_pow2_adds(d as nat, k2 as nat);
        lemma_pow2_pos(k2 as nat);
        lemma_pow2_pos(d as nat);
        lemma2_to64();
    }
    if d >= 26 {
        proof {
            // The second term is below a quarter of the last place of the first.
            if d > 26 {
                lemma_pow2_strictly_increases(26, d as nat);
            }
            let p1 = pow2(k1 as nat);
            let far = pow2(d as nat);
            assert(4 * (s2 * unit) < p1 && s1 * p1 >= p1) by (nonlinear_arith)
                requires
                    s2 < 0x100_0000,
                    s1 >= 0x80_0000,
                    far >= 0x400_0000,
                    p1 == far * unit,
                    unit > 0,
            ;
            let x = if sum < 0 {
                (-sum) as nat
            } else {
                sum as nat
            };
            lemma_far(s1 as nat, k1 as nat, x);
            lemma_parts(k1 as nat, s1 as nat);
            lemma_rounds_to_unique(
                (k1 * 0x80_0000 + s1) as u32,
                rounded(x, 1),
                x,
                1,
            );
        }
        return pack(n1, (k1 as u32) * 0x80_0000 + (s1 as u32));
    }
    let scale: u64 = power_of_two(d as u32);
    proof {
        if d < 25 {
            lemma_pow2_strictly_increases(d as nat, 25);
        }
        lemma_mul_upper_bound(s1 as int, 0xff_ffff, scale as int, 0x200_0000);
    }
    let big: u64 = s1 * scale;
    proof {
        lemma_mul_is_associative(s1 as int, scale as int, unit as int);
        assert(s1 * pow2(k1 as nat) == big * unit);
    }
    let sig: u64;
    let negative: bool;
    if n1 == n2 {
        sig = big + s2;
        negative = n1;
        proof {
            lemma_mul_is_distributive_add_other_way(unit as int, big as int, s2 as int);
        }
    } else if big >= s2 {
        sig = big - s2;
        negative = n1;
        proof {
            lemma_mul_is_distributive_sub_other_way(unit as int, big as int, s2 as int);
        }
    } else {
        sig = s2 - big;
        negative = n2;
        proof {
            lemma_mul_is_distributive_sub_other_way(unit as int, s2 as int, big as int);
        }
    }
    proof {
        assert(sum == signed(sig * unit, negative));
        lemma_mul_basics(unit as int);
        if sig > 0 {
            lemma_mul_strictly_positive(sig as int, unit as int);
        }
    }
    if sig == 0 {
        return pack(n1 && n2, 0);
    }
    let p: u32 = round_magnitude(sig, k2);
    pack(negative, p)
}

/// The whole part of the square root of `x`.
fn integer_root(x: u64) -> (r: u64)
    requires
        x < 0x40_0000_0000_0000,
    ensures
        r * r <= x < (r + 1) * (r + 1),
        r < 0x800_0000,
{
    let mut r: u64 = 0;
    let mut j: u32 = 27;
    proof {
        lemma2_to64();
        assert(0x800_0000 * 0x800_0000 == 0x40_0000_0000_0000) by (nonlinear_arith);
    }
    while j > 0
        invariant
            j <= 27,
            r * r <= x,
            x < (r + pow2(j as nat)) * (r + pow2(j as nat)),
            r + pow2(j as nat) <= 0x800_0000,
        decreases j,
    {
        proof {
            lemma_pow2_unfold(j as nat);
            lemma_pow2_pos((j - 1) as nat);
        }
        j = j - 1;
        let bit: u64 = power_of_two(j);
        let candidate: u64 = r + bit;
        proof {
            lemma_mul_upper_bound(candidate as int, 0x800_0000, candidate as int, 0x800_0000);
        }
        if candidate * candidate <= x {
            r = candidate;
        }
    }
    proof {
        lemma2_to64();
    }
    r
}

/// The sign bit has no part in the magnitude.
pub proof fn lemma_sign_free(bits: u32)
    ensures
        scaled_magnitude(bits & MAGNITUDE_MASK) == scaled_magnitude(bits),
        (bits & MAGNITUDE_MASK) <= MAGNITUDE_MASK,
{
    assert(((bits & 0x7fff_ffff) >> 23) & 0xff == (bits >> 23) & 0xff) by (bit_vector);
    assert((bits & 0x7fff_ffff) & 0x7f_ffff == bits & 0x7f_ffff) by (bit_vector);
    assert((bits & 0x7fff_ffff) <= 0x7fff_ffff) by (bit_vector);
}

/// The product of two unpacked magnitudes, counted in units of 2^-149, is
/// the product of the significands at the sum of the powers less 149.
proof fn lemma_product_fraction(sa: nat, ka: nat, sb: nat, kb: nat)
    ensures
        exact_num(sa * sb, ka + kb - 149) * pow2(149) == ((sa * pow2(ka)) * (sb * pow2(kb)))
            * exact_den(ka + kb - 149),
{
    let sig = sa * sb;
    let exp = ka + kb - 149;
    lemma_pow2_adds(ka, kb);
    let both = pow2(ka + kb);
    assert((sa * pow2(ka)) * (sb * pow2(kb)) == sig * both) by (nonlinear_arith)
        requires
            sig == sa * sb,
            both == pow2(ka) * pow2(kb),
    ;
    if exp >= 0 {
        lemma_pow2_adds(exp as nat, 149);
        lemma_mul_is_associative(sig as int, pow2(exp as nat) as int, pow2(149) as int);
    } else {
        lemma_pow2_adds(ka + kb, (-exp) as nat);
        lemma_mul_is_associative(sig as int, both as int, pow2((-exp) as nat) as int);
    }
}

/// A number to which less than a quarter of its last place is added or
/// taken away rounds back to itself.
proof fn lemma_far(s1: nat, k1: nat, x: nat)
    requires
        26 <= k1 <= 253,
        0x80_0000 <= s1 < 0x100_0000,
        4 * x < 4 * (s1 * pow2(k1)) + pow2(k1),
        4 * x > 4 * (s1 * pow2(k1)) - pow2(k1),
    ensures
        rounds_to((k1 * 0x80_0000 + s1) as u32, x, 1),
{
    let unit = pow2(k1);
    let half = pow2((k1 - 1) as nat);
    lemma_pow2_unfold(k1);
    lemma_pow2_pos((k1 - 1) as nat);
    lemma_parts(k1, s1);
    lemma_parts(k1, s1 + 1);
    lemma_mul_is_distributive_add_other_way(unit as int, s1 as int, 1);
    let p = (k1 * 0x80_0000 + s1) as u32;
    assert(scaled_magnitude((p + 1) as u32) == s1 * unit + unit);
    if s1 > 0x80_0000 {
        lemma_parts(k1, (s1 - 1) as nat);
        lemma_mul_is_distributive_sub_other_way(unit as int, s1 as int, 1);
        assert(scaled_magnitude((p - 1) as u32) == s1 * unit - unit);
    } else {
        lemma_parts((k1 - 1) as nat, 0xff_ffff);
        assert(scaled_magnitude((p - 1) as u32) == 0xff_ffff * half);
        assert(s1 * unit == 0x100_0000 * half);
    }
}

/// The pattern that the leading part of a quotient rounds to is the one
/// that the quotient rounds to.
proof fn lemma_quotient(p: u32, sa: nat, ka: nat, sb: nat, kb: nat, s: nat, q: nat, rem: nat)
    requires
        sb > 0,
        sa * pow2(s) == sb * q + rem,
        rem < sb,
        rem == 0 ==> rounds_to(
            p,
            exact_num(q, ka + 149 - s - kb),
            exact_den(ka + 149 - s - kb),
        ),
        rem != 0 ==> within(p, exact_num(q, ka + 149 - s - kb), exact_den(ka + 149 - s - kb)),
        rem != 0 ==> within(
            p,
            exact_num(q + 1, ka + 149 - s - kb),
            exact_den(ka + 149 - s - kb),
        ),
    ensures
        p == rounded((sa * pow2(ka)) * pow2(149), sb * pow2(kb)),
{
    let exp = ka + 149 - s - kb;
    let num = (sa * pow2(ka)) * pow2(149);
    let den = sb * pow2(kb);
    let x = sa * pow2(s);
    let c = exact_num(1, exp);
    let e = exact_den(exp);
    // The quotient is `x * c / (sb * e)`.
    lemma_power_fraction(ka + 149, s + kb);
    lemma_pow2_adds(ka, 149);
    lemma_pow2_adds(s, kb);
    lemma_pow2_pos(kb);
    lemma_mul_strictly_positive(sb as int, pow2(kb) as int);
    lemma_mul_strictly_positive(sb as int, e as int);
    let up = pow2(ka + 149);
    let down = pow2(s + kb);
    let (pa, pk, ps, pb) = (pow2(ka), pow2(149), pow2(s), pow2(kb));
    let both = sa * sb;
    let upper = up * e;
    assert(num * (sb * e) == both * upper) by (nonlinear_arith)
        requires
            num == (sa * pa) * pk,
            up == pa * pk,
            both == sa * sb,
            upper == up * e,
    ;
    assert((x * c) * den == both * upper) by (nonlinear_arith)
        requires
            den == sb * pb,
            x == sa * ps,
            down == ps * pb,
            both == sa * sb,
            upper == c * down,
    ;
    lemma_exact_num_linear(q, exp);
    lemma_exact_num_linear(q + 1, exp);
    if rem == 0 {
        assert(exact_num(q, exp) * (sb * e) == (x * c) * e) by (nonlinear_arith)
            requires
                exact_num(q, exp) == q * c,
                x == sb * q,
        ;
        lemma_rounds_to_same_fraction(p, exact_num(q, exp), e, x * c, sb * e);
    } else {
        assert(exact_num(q, exp) * (sb * e) < (x * c) * e && (x * c) * e < exact_num(q + 1, exp)
            * (sb * e)) by (nonlinear_arith)
            requires
                exact_num(q, exp) == q * c,
                exact_num(q + 1, exp) == (q + 1) * c,
                x == sb * q + rem,
                0 < rem < sb,
                c > 0,
                e > 0,
        ;
        lemma_within_between(p, exact_num(q, exp), e, exact_num(q + 1, exp), e, x * c, sb * e);
    }
    lemma_rounds_to_same_fraction(p, x * c, sb * e, num, den);
    lemma_rounds_to_unique(p, rounded(num, den), num, den);
}

/// The pattern that the whole part of a root rounds to is the one that
/// the root rounds to.
proof fn lemma_root(p: u32, sa: nat, ka: nat, s: nat, half: nat, root: nat)
    requires
        ka + 149 - s == 2 * half,
        root * root <= sa * pow2(s) < (root + 1) * (root + 1),
        root * root == sa * pow2(s) ==> rounds_to(p, exact_num(root, half as int), 1),
        root * root != sa * pow2(s) ==> within(p, exact_num(root, half as int), 1),
        root * root != sa * pow2(s) ==> within(p, exact_num(root + 1, half as int), 1),
    ensures
        p == rounded_root((sa * pow2(ka)) * pow2(149)),
{
    let square = (sa * pow2(ka)) * pow2(149);
    let x = sa * pow2(s);
    let c = pow2(half);
    lemma_pow2_pos(half);
    // square == x * c * c
    lemma_pow2_adds(ka, 149);
    lemma_pow2_adds(half, half);
    lemma_pow2_adds(s, 2 * half);
    let (pa, pk, ps, cc) = (pow2(ka), pow2(149), pow2(s), pow2(2 * half));
    assert(square == x * cc) by (nonlinear_arith)
        requires
            square == (sa * pa) * pk,
            x == sa * ps,
            pa * pk == ps * cc,
    ;
    let low_value = root * c;
    let high_value = (root + 1) * c;
    assert(low_value * low_value == (root * root) * cc && high_value * high_value == ((root + 1)
        * (root + 1)) * cc) by (nonlinear_arith)
        requires
            low_value == root * c,
            high_value == (root + 1) * c,
            cc == c * c,
    ;
    lemma_pow2_pos(2 * half);
    lemma_mul_inequality((root * root) as int, x as int, cc as int);
    if root * root != x {
        lemma_mul_strict_inequality((root * root) as int, x as int, cc as int);
    }
    lemma_mul_strict_inequality(x as int, ((root + 1) * (root + 1)) as int, cc as int);
    // low_value^2 <= square < high_value^2, with equality only where the root is whole
    assert((2 * low_value) * (2 * low_value) == 4 * (low_value * low_value)) by (nonlinear_arith);
    assert((2 * high_value) * (2 * high_value) == 4 * (high_value * high_value))
        by (nonlinear_arith);
    assert(exact_num(root, half as int) == low_value);
    assert(exact_num(root + 1, half as int) == high_value);
    if p > 0 {
        let low = scaled_magnitude((p - 1) as u32) + scaled_magnitude(p);
        lemma_square_order(low, 2 * low_value);
    }
    if p < INFINITY_BITS {
        let high = scaled_magnitude(p) + scaled_magnitude((p + 1) as u32);
        if root * root == x {
            lemma_square_order(2 * low_value, high);
        } else {
            lemma_square_order(2 * high_value, high);
        }
    }
    assert(root_rounds_to(p, square));
    lemma_root_unique(p, rounded_root(square), square);
}

} // verus!
