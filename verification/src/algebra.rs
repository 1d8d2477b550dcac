//! What holds of the arithmetic: the order of terms and factors, what 0 and
//! 1 do, and bounds that results keep.

use crate::arithmetic::{lemma_sign_free, with_sign};
use crate::binary32::{
    Binary32, INFINITY_BITS, MAGNITUDE_MASK, ONE_BITS, lemma_magnitude_zero,
    lemma_order_of_patterns, scaled_magnitude,
};
use crate::nearest::{
    lemma_parts, lemma_pattern_order, lemma_root_at_least, lemma_root_at_most,
    lemma_rounded_at_least, lemma_rounded_at_most, lemma_rounded_exact, lemma_rounded_exists,
    rounded,
};
use vstd::arithmetic::mul::*;
use vstd::arithmetic::power2::*;
use vstd::prelude::*;

verus! {

/// Two numbers that are no NaN and stand for the same value: equal, or the
/// two zeros.
pub open spec fn same_number(a: Binary32, b: Binary32) -> bool {
    &&& !a.is_nan_spec()
    &&& !b.is_nan_spec()
    &&& a.scaled_value() == b.scaled_value()
}

/// A number that is no NaN, not negative, and whose pattern is at least
/// `p`: at least as large as the number of that pattern, the positive
/// infinity included.
pub open spec fn at_least(x: Binary32, p: u32) -> bool {
    p <= x.bits <= INFINITY_BITS
}

/// A number is its magnitude with its sign.
pub proof fn lemma_repack(x: Binary32)
    ensures
        with_sign(x.is_sign_negative_spec(), x.magnitude()) == x,
        x.magnitude() <= MAGNITUDE_MASK,
        scaled_magnitude(x.magnitude()) == scaled_magnitude(x.bits),
{
    let bits = x.bits;
    assert(bits >= 0x8000_0000 ==> (bits & 0x7fff_ffff) + 0x8000_0000 == bits) by (bit_vector);
    assert(bits < 0x8000_0000 ==> (bits & 0x7fff_ffff) == bits) by (bit_vector);
    lemma_sign_free(bits);
}

/// A magnitude keeps what it is under either sign.
pub proof fn lemma_packed(negative: bool, magnitude: u32)
    requires
        magnitude <= INFINITY_BITS,
    ensures
        with_sign(negative, magnitude).magnitude() == magnitude,
        with_sign(negative, magnitude).is_sign_negative_spec() == negative,
        !with_sign(negative, magnitude).is_nan_spec(),
        scaled_magnitude(with_sign(negative, magnitude).bits) == scaled_magnitude(magnitude),
{
    assert(magnitude & 0x7fff_ffff == magnitude && (magnitude + 0x8000_0000) as u32 & 0x7fff_ffff
        == magnitude && (magnitude + 0x8000_0000) as u32 >= 0x8000_0000) by (bit_vector)
        requires
            magnitude <= 0x7f80_0000,
    ;
    lemma_sign_free(with_sign(negative, magnitude).bits);
}

/// Negation turns the sign and keeps the magnitude.
pub proof fn lemma_neg(x: Binary32)
    ensures
        x.neg_spec().magnitude() == x.magnitude(),
        x.neg_spec().is_sign_negative_spec() == !x.is_sign_negative_spec(),
        x.neg_spec().is_nan_spec() == x.is_nan_spec(),
        x.neg_spec().is_zero_spec() == x.is_zero_spec(),
        x.neg_spec().is_finite_spec() == x.is_finite_spec(),
        x.neg_spec().is_infinite_spec() == x.is_infinite_spec(),
        scaled_magnitude(x.neg_spec().bits) == scaled_magnitude(x.bits),
{
    let bits = x.bits;
    let m: u32 = bits & 0x7fff_ffff;
    assert(m <= 0x7fff_ffff && m & 0x7fff_ffff == m && (m + 0x8000_0000) as u32 & 0x7fff_ffff == m
        && (m + 0x8000_0000) as u32 >= 0x8000_0000) by (bit_vector)
        requires
            m == bits & 0x7fff_ffff,
    ;
    lemma_sign_free(bits);
    lemma_sign_free(x.neg_spec().bits);
}

/// What 1.0 is made of.
pub proof fn lemma_one()
    ensures
        scaled_magnitude(ONE_BITS) == pow2(149),
        !(Binary32 { bits: ONE_BITS }).is_nan_spec(),
        !(Binary32 { bits: ONE_BITS }).is_sign_negative_spec(),
        !(Binary32 { bits: ONE_BITS }).is_infinite_spec(),
        !(Binary32 { bits: ONE_BITS }).is_zero_spec(),
        (Binary32 { bits: ONE_BITS }).scaled_value() == pow2(149),
{
    lemma_parts(126, 0x80_0000);
    lemma2_to64();
    lemma_pow2_adds(23, 126);
    assert(0x3f80_0000u32 & 0x7fff_ffff == 0x3f80_0000) by (bit_vector);
}

/// The two zeros as patterns.
pub proof fn lemma_zero_patterns(negative: bool)
    ensures
        with_sign(negative, 0).is_zero_spec(),
        with_sign(negative, 0).is_sign_negative_spec() == negative,
        !with_sign(negative, 0).is_nan_spec(),
        !with_sign(negative, 0).is_infinite_spec(),
        with_sign(negative, 0).scaled_value() == 0,
{
    assert(0u32 & 0x7fff_ffff == 0) by (bit_vector);
    assert(0x8000_0000u32 & 0x7fff_ffff == 0) by (bit_vector);
    lemma_magnitude_zero(0);
    lemma_magnitude_zero(0x8000_0000);
}

/// Multiplication does not depend on the order of the factors.
pub proof fn lemma_mul_commutative(a: Binary32, b: Binary32)
    ensures
        a.mul_spec(b) == b.mul_spec(a),
{
    lemma_mul_is_commutative(scaled_magnitude(a.bits) as int, scaled_magnitude(b.bits) as int);
}

/// Addition does not depend on the order of the terms.
pub proof fn lemma_add_commutative(a: Binary32, b: Binary32)
    ensures
        a.add_spec(b) == b.add_spec(a),
{
    lemma_repack(a);
    lemma_repack(b);
}

/// Multiplying by 1.0 changes nothing.
pub proof fn lemma_mul_one(x: Binary32)
    requires
        !x.is_nan_spec(),
    ensures
        x.mul_spec(Binary32 { bits: ONE_BITS }) == x,
        (Binary32 { bits: ONE_BITS }).mul_spec(x) == x,
{
    let one = Binary32 { bits: ONE_BITS };
    lemma_one();
    lemma_repack(x);
    lemma_mul_commutative(x, one);
    if !x.is_infinite_spec() {
        lemma_pow2_pos(149);
        lemma_rounded_exact(x.magnitude(), pow2(149));
    }
}

/// Multiplying a finite number by a zero gives a zero.
pub proof fn lemma_mul_zero(x: Binary32, zero: Binary32)
    requires
        !x.is_nan_spec(),
        !x.is_infinite_spec(),
        zero.is_zero_spec(),
    ensures
        x.mul_spec(zero).is_zero_spec(),
        zero.mul_spec(x).is_zero_spec(),
        x.mul_spec(zero).is_sign_negative_spec() == (x.is_sign_negative_spec()
            != zero.is_sign_negative_spec()),
{
    lemma_mul_commutative(x, zero);
    lemma_repack(zero);
    lemma_magnitude_zero(zero.bits);
    lemma_mul_basics(scaled_magnitude(x.bits) as int);
    lemma_pow2_pos(149);
    lemma_magnitude_zero(0);
    assert(0u32 & 0x7fff_ffff == 0) by (bit_vector);
    lemma_rounded_exact(0, pow2(149));
    lemma_mul_basics(pow2(149) as int);
    let negative = x.is_sign_negative_spec() != zero.is_sign_negative_spec();
    lemma_zero_patterns(negative);
    assert(zero.magnitude() == 0);
    assert(!zero.is_nan_spec() && !zero.is_infinite_spec());
    assert(scaled_magnitude(x.bits) * scaled_magnitude(zero.bits) == 0);
    assert(x.mul_spec(zero) == with_sign(negative, 0));
}

/// Adding a zero to a number that is none leaves the number.
pub proof fn lemma_add_zero(x: Binary32, zero: Binary32)
    requires
        !x.is_nan_spec(),
        !x.is_zero_spec(),
        zero.is_zero_spec(),
    ensures
        x.add_spec(zero) == x,
        zero.add_spec(x) == x,
{
    lemma_add_commutative(x, zero);
    lemma_repack(x);
    lemma_repack(zero);
    lemma_magnitude_zero(zero.bits);
    lemma_magnitude_zero(x.bits);
    if !x.is_infinite_spec() {
        lemma_rounded_exact(x.magnitude(), 1);
        lemma_mul_basics(scaled_magnitude(x.bits) as int);
    }
}

/// The sum of two zeros is a zero.
pub proof fn lemma_add_zeros(a: Binary32, b: Binary32)
    requires
        a.is_zero_spec(),
        b.is_zero_spec(),
    ensures
        a.add_spec(b).is_zero_spec(),
        !a.add_spec(b).is_nan_spec(),
        a.add_spec(b).scaled_value() == 0,
{
    lemma_magnitude_zero(a.bits);
    lemma_magnitude_zero(b.bits);
    lemma_zero_patterns(a.is_sign_negative_spec() && b.is_sign_negative_spec());
}

/// The sum of two finite numbers is no NaN.
pub proof fn lemma_add_finite(a: Binary32, b: Binary32)
    requires
        a.is_finite_spec(),
        b.is_finite_spec(),
    ensures
        !a.add_spec(b).is_nan_spec(),
{
    let sum = a.scaled_value() + b.scaled_value();
    let magnitude = if sum == 0 {
        0u32
    } else if sum < 0 {
        rounded((-sum) as nat, 1)
    } else {
        rounded(sum as nat, 1)
    };
    if sum < 0 {
        lemma_rounded_exists((-sum) as nat, 1);
    } else if sum > 0 {
        lemma_rounded_exists(sum as nat, 1);
    }
    lemma_packed(true, magnitude);
    lemma_packed(false, magnitude);
}

/// The product of two numbers that are at least `pa` and `pb` is at least
/// `pc`, where the product of the magnitudes of `pa` and `pb` is.
pub proof fn lemma_mul_at_least(a: Binary32, b: Binary32, pa: u32, pb: u32, pc: u32)
    requires
        at_least(a, pa),
        at_least(b, pb),
        0 < pa,
        0 < pb,
        pc <= INFINITY_BITS,
        scaled_magnitude(pc) * pow2(149) <= scaled_magnitude(pa) * scaled_magnitude(pb),
    ensures
        at_least(a.mul_spec(b), pc),
{
    lemma_repack(a);
    lemma_repack(b);
    lemma_order_of_patterns(a, b);
    lemma_order_of_patterns(b, a);
    lemma_packed(false, INFINITY_BITS);
    if a.is_finite_spec() && b.is_finite_spec() {
        lemma_pattern_order(pa, a.bits);
        lemma_pattern_order(pb, b.bits);
        lemma_mul_upper_bound(
            scaled_magnitude(pa) as int,
            scaled_magnitude(a.bits) as int,
            scaled_magnitude(pb) as int,
            scaled_magnitude(b.bits) as int,
        );
        lemma_pow2_pos(149);
        lemma_rounded_at_least(
            pc,
            scaled_magnitude(a.bits) * scaled_magnitude(b.bits),
            pow2(149),
        );
    }
}

/// The difference of a number that is at least `pa` and a finite one that
/// is not negative and at most `pb` is at least `pc`, where the difference
/// of the magnitudes of `pa` and `pb` is.
pub proof fn lemma_sub_at_least(a: Binary32, b: Binary32, pa: u32, pb: u32, pc: u32)
    requires
        at_least(a, pa),
        b.bits <= pb < INFINITY_BITS,
        0 < pc <= INFINITY_BITS,
        scaled_magnitude(pc) + scaled_magnitude(pb) <= scaled_magnitude(pa),
    ensures
        at_least(a.sub_spec(b), pc),
{
    lemma_repack(a);
    lemma_repack(b);
    lemma_neg(b);
    lemma_order_of_patterns(a, b);
    lemma_order_of_patterns(b, a);
    if a.is_finite_spec() {
        lemma_pattern_order(pa, a.bits);
        lemma_pattern_order(b.bits, pb);
        lemma_pattern_order(0, pc);
        lemma_magnitude_zero(0);
        assert(0u32 & 0x7fff_ffff == 0) by (bit_vector);
        let sum = a.scaled_value() + b.neg_spec().scaled_value();
        assert(sum == scaled_magnitude(a.bits) - scaled_magnitude(b.bits));
        assert(sum >= scaled_magnitude(pc));
        lemma_mul_basics(scaled_magnitude(pc) as int);
        lemma_rounded_at_least(pc, sum as nat, 1);
    }
}

/// The square root of a number that is at least `px` is at least `pc`,
/// where the square of the magnitude of `pc` is not above the magnitude of
/// `px`.
pub proof fn lemma_sqrt_at_least(x: Binary32, px: u32, pc: u32)
    requires
        at_least(x, px),
        0 < px,
        pc <= INFINITY_BITS,
        scaled_magnitude(pc) * scaled_magnitude(pc) <= scaled_magnitude(px) * pow2(149),
    ensures
        at_least(x.sqrt_spec(), pc),
{
    lemma_repack(x);
    lemma_order_of_patterns(x, x);
    if x.is_finite_spec() {
        lemma_pattern_order(px, x.bits);
        lemma_pow2_pos(149);
        lemma_mul_inequality(
            scaled_magnitude(px) as int,
            scaled_magnitude(x.bits) as int,
            pow2(149) as int,
        );
        lemma_root_at_least(pc, scaled_magnitude(x.bits) * pow2(149));
    }
}

/// The product of two finite numbers whose magnitudes are at most `pa`
/// and `pb` has a magnitude of at most `pc`, where the product of the
/// magnitudes of `pa` and `pb` has.
pub proof fn lemma_mul_at_most(a: Binary32, b: Binary32, pa: u32, pb: u32, pc: u32)
    requires
        a.magnitude() <= pa < INFINITY_BITS,
        b.magnitude() <= pb < INFINITY_BITS,
        pc < INFINITY_BITS,
        scaled_magnitude(pa) * scaled_magnitude(pb) <= scaled_magnitude(pc) * pow2(149),
    ensures
        a.mul_spec(b).magnitude() <= pc,
        a.mul_spec(b).is_finite_spec(),
        a.mul_spec(b).is_sign_negative_spec() == (a.is_sign_negative_spec()
            != b.is_sign_negative_spec()),
{
    lemma_repack(a);
    lemma_repack(b);
    lemma_pattern_order(a.magnitude(), pa);
    lemma_pattern_order(b.magnitude(), pb);
    lemma_mul_upper_bound(
        scaled_magnitude(a.bits) as int,
        scaled_magnitude(pa) as int,
        scaled_magnitude(b.bits) as int,
        scaled_magnitude(pb) as int,
    );
    lemma_pow2_pos(149);
    let product = scaled_magnitude(a.bits) * scaled_magnitude(b.bits);
    lemma_rounded_at_most(pc, product, pow2(149));
    lemma_packed(
        a.is_sign_negative_spec() != b.is_sign_negative_spec(),
        rounded(product, pow2(149)),
    );
}

/// Taking a number that is not negative from one that is not smaller
/// gives a number that is neither negative nor larger.
pub proof fn lemma_sub_at_most(a: Binary32, b: Binary32)
    requires
        b.bits <= a.bits < INFINITY_BITS,
    ensures
        a.sub_spec(b).bits <= a.bits,
{
    lemma_repack(a);
    lemma_repack(b);
    lemma_neg(b);
    lemma_order_of_patterns(a, b);
    lemma_order_of_patterns(b, a);
    lemma_pattern_order(b.bits, a.bits);
    let sum = a.scaled_value() + b.neg_spec().scaled_value();
    assert(sum == scaled_magnitude(a.bits) - scaled_magnitude(b.bits));
    if sum > 0 {
        lemma_mul_basics(scaled_magnitude(a.bits) as int);
        lemma_rounded_at_most(a.bits, sum as nat, 1);
    }
}

/// The square root of a number that is not negative and at most `px` is
/// not negative and at most `pc`, where the square of the magnitude of
/// `pc` is not below the magnitude of `px`.
pub proof fn lemma_sqrt_at_most(x: Binary32, px: u32, pc: u32)
    requires
        x.bits <= px < INFINITY_BITS,
        pc <= INFINITY_BITS,
        scaled_magnitude(px) * pow2(149) <= scaled_magnitude(pc) * scaled_magnitude(pc),
    ensures
        x.sqrt_spec().bits <= pc,
{
    lemma_repack(x);
    lemma_order_of_patterns(x, x);
    lemma_pattern_order(x.bits, px);
    lemma_pow2_pos(149);
    lemma_mul_inequality(
        scaled_magnitude(x.bits) as int,
        scaled_magnitude(px) as int,
        pow2(149) as int,
    );
    if !x.is_zero_spec() {
        lemma_root_at_most(pc, scaled_magnitude(x.bits) * pow2(149));
    }
}

/// The quotient of two numbers that are not negative, the first finite and
/// at most `pa`, the second at least `pb`, is not negative and at most
/// `pc`, where the quotient of the magnitudes of `pa` and `pb` is.
pub proof fn lemma_div_at_most(a: Binary32, b: Binary32, pa: u32, pb: u32, pc: u32)
    requires
        a.bits <= pa < INFINITY_BITS,
        at_least(b, pb),
        0 < pb,
        pc <= INFINITY_BITS,
        scaled_magnitude(pa) * pow2(149) <= scaled_magnitude(pc) * scaled_magnitude(pb),
    ensures
        a.div_spec(b).bits <= pc,
{
    lemma_repack(a);
    lemma_repack(b);
    lemma_order_of_patterns(a, b);
    lemma_order_of_patterns(b, a);
    lemma_pattern_order(a.bits, pa);
    lemma_pattern_order(pb, b.bits);
    lemma_pattern_order(0, pb);
    lemma_magnitude_zero(0);
    assert(0u32 & 0x7fff_ffff == 0) by (bit_vector);
    if b.is_finite_spec() && !a.is_zero_spec() {
        let num = scaled_magnitude(a.bits) * pow2(149);
        let den = scaled_magnitude(b.bits);
        lemma_pow2_pos(149);
        lemma_mul_inequality(
            scaled_magnitude(a.bits) as int,
            scaled_magnitude(pa) as int,
            pow2(149) as int,
        );
        let (top, low, mid) = (
            scaled_magnitude(pc),
            scaled_magnitude(pb),
            scaled_magnitude(pa) * pow2(149),
        );
        assert(num <= top * den) by (nonlinear_arith)
            requires
                num <= mid,
                mid <= top * low,
                low <= den,
        ;
        lemma_rounded_at_most(pc, num, den);
    }
}

} // verus!
