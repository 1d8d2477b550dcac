//! IEEE 754 binary32 numbers as bit patterns, with their order.

use vstd::arithmetic::mul::*;
use vstd::arithmetic::power2::*;
use vstd::prelude::*;

verus! {

/// The sign bit of a pattern.
pub const SIGN_BIT: u32 = 0x8000_0000;

/// Everything but the sign bit.
pub const MAGNITUDE_MASK: u32 = 0x7fff_ffff;

/// The magnitude of both infinities; a larger magnitude is a NaN.
pub const INFINITY_BITS: u32 = 0x7f80_0000;

/// The pattern of +0.0.
pub const ZERO_BITS: u32 = 0;

/// The pattern of 1.0.
pub const ONE_BITS: u32 = 0x3f80_0000;

/// The biased exponent of a pattern, between 0 and 255.
pub open spec fn exponent_field(bits: u32) -> nat {
    ((bits >> 23) & 0xff) as nat
}

/// The 23 fraction bits of a pattern.
pub open spec fn fraction_field(bits: u32) -> nat {
    (bits & 0x7f_ffff) as nat
}

/// The absolute value that a pattern stands for, multiplied by 2^149.
///
/// Every finite binary32 is a whole multiple of 2^-149, so this is exact.
/// An infinity is given the magnitude 2^128, above every finite number.
/// On a NaN the result has no meaning.
pub open spec fn scaled_magnitude(bits: u32) -> nat {
    if exponent_field(bits) == 0 {
        fraction_field(bits)
    } else {
        (0x80_0000 + fraction_field(bits)) * pow2((exponent_field(bits) - 1) as nat)
    }
}

/// A binary32 number, held as its bit pattern.
#[derive(Clone, Copy, Debug, PartialEq, Eq, Structural)]
pub struct Binary32 {
    pub bits: u32,
}

impl Binary32 {
    /// The pattern without its sign.
    pub open spec fn magnitude(self) -> u32 {
        self.bits & MAGNITUDE_MASK
    }

    /// Whether the sign bit is set. True of -0.0, and of half the NaNs.
    pub open spec fn is_sign_negative_spec(self) -> bool {
        self.bits >= SIGN_BIT
    }

    /// Whether the pattern is a NaN.
    pub open spec fn is_nan_spec(self) -> bool {
        self.magnitude() > INFINITY_BITS
    }

    /// The number that the pattern stands for, multiplied by 2^149, with
    /// the infinities at plus and minus 2^128. Both zeros give 0.
    pub open spec fn scaled_value(self) -> int {
        if self.is_sign_negative_spec() {
            -(scaled_magnitude(self.bits) as int)
        } else {
            scaled_magnitude(self.bits) as int
        }
    }

    /// The order `<` of IEEE 754: false as soon as one side is a NaN,
    /// else the order of the numbers.
    pub open spec fn lt_spec(self, other: Binary32) -> bool {
        &&& !self.is_nan_spec()
        &&& !other.is_nan_spec()
        &&& self.scaled_value() < other.scaled_value()
    }

    /// +0.0.
    pub open spec fn zero_spec() -> Binary32 {
        Binary32 { bits: ZERO_BITS }
    }

    /// What a parameter that must not be negative is stored as: +0.0 in
    /// place of a number below zero, anything else as it is. A NaN and
    /// -0.0 are not below zero and stay.
    pub open spec fn clamp_non_negative_spec(self) -> Binary32 {
        if self.lt_spec(Binary32::zero_spec()) {
            Binary32::zero_spec()
        } else {
            self
        }
    }

    /// +0.0.
    pub fn zero() -> (r: Binary32)
        ensures
            r == Binary32::zero_spec(),
    {
        Binary32 { bits: ZERO_BITS }
    }

    /// Whether the pattern is a NaN.
    pub fn is_nan(self) -> (r: bool)
        ensures
            r == self.is_nan_spec(),
    {
        (self.bits & MAGNITUDE_MASK) > INFINITY_BITS
    }

    /// Whether the sign bit is set.
    pub fn is_sign_negative(self) -> (r: bool)
        ensures
            r == self.is_sign_negative_spec(),
    {
        self.bits >= SIGN_BIT
    }

    /// `self < other`, as IEEE 754 orders the two numbers.
    pub fn lt(self, other: Binary32) -> (r: bool)
        ensures
            r == self.lt_spec(other),
    {
        if self.is_nan() || other.is_nan() {
            return false;
        }
        let a: u32 = self.bits & MAGNITUDE_MASK;
        let b: u32 = other.bits & MAGNITUDE_MASK;
        proof {
            lemma_magnitude_order(self.bits, other.bits);
            lemma_magnitude_order(other.bits, self.bits);
            lemma_magnitude_zero(self.bits);
            lemma_magnitude_zero(other.bits);
        }
        if self.is_sign_negative() {
            if other.is_sign_negative() {
                b < a
            } else {
                a != 0 || b != 0
            }
        } else {
            if other.is_sign_negative() {
                false
            } else {
                a < b
            }
        }
    }

    /// `self` where it is not below zero, else +0.0.
    pub fn clamp_non_negative(self) -> (r: Binary32)
        ensures
            r == self.clamp_non_negative_spec(),
            !r.lt_spec(Binary32::zero_spec()),
            !self.is_nan_spec() ==> r.scaled_value() == if self.scaled_value() < 0 {
                0
            } else {
                self.scaled_value()
            },
    {
        proof {
            lemma_magnitude_zero(ZERO_BITS);
            assert(ZERO_BITS & MAGNITUDE_MASK == 0) by (bit_vector);
        }
        if self.lt(Binary32::zero()) {
            Binary32::zero()
        } else {
            self
        }
    }
}

/// A pattern splits into sign, exponent and fraction.
pub proof fn lemma_fields(bits: u32)
    ensures
        fraction_field(bits) < 0x80_0000,
        exponent_field(bits) < 0x100,
        (bits & MAGNITUDE_MASK) == exponent_field(bits) * 0x80_0000 + fraction_field(bits),
{
    assert((bits & 0x7f_ffff) < 0x80_0000) by (bit_vector);
    assert(((bits >> 23) & 0xff) < 0x100) by (bit_vector);
    assert((bits & 0x7fff_ffff) == ((bits >> 23) & 0xff) * 0x80_0000 + (bits & 0x7f_ffff))
        by (bit_vector);
}

/// Only the two zeros have magnitude 0.
pub proof fn lemma_magnitude_zero(bits: u32)
    ensures
        scaled_magnitude(bits) == 0 <==> (bits & MAGNITUDE_MASK) == 0,
{
    lemma_fields(bits);
    let e = exponent_field(bits);
    let f = fraction_field(bits);
    if e != 0 {
        let p = pow2((e - 1) as nat);
        lemma_pow2_pos((e - 1) as nat);
        lemma_mul_strict_inequality(0, (0x80_0000 + f) as int, p as int);
    }
}

/// Magnitudes are ordered as their patterns are: a larger pattern stands
/// for a larger absolute value.
pub proof fn lemma_magnitude_order(a: u32, b: u32)
    ensures
        (a & MAGNITUDE_MASK) < (b & MAGNITUDE_MASK) ==> scaled_magnitude(a) < scaled_magnitude(b),
        (a & MAGNITUDE_MASK) == (b & MAGNITUDE_MASK) ==> scaled_magnitude(a) == scaled_magnitude(
            b,
        ),
{
    lemma_fields(a);
    lemma_fields(b);
    let ea = exponent_field(a);
    let fa = fraction_field(a);
    let eb = exponent_field(b);
    let fb = fraction_field(b);
    if (a & MAGNITUDE_MASK) < (b & MAGNITUDE_MASK) {
        assert(ea <= eb);
        if ea == eb {
            if ea != 0 {
                let p = pow2((ea - 1) as nat);
                lemma_pow2_pos((ea - 1) as nat);
                lemma_mul_strict_inequality((0x80_0000 + fa) as int, (0x80_0000 + fb) as int, p as int);
            }
        } else {
            let pb = pow2((eb - 1) as nat);
            lemma_pow2_pos((eb - 1) as nat);
            lemma_mul_inequality(0x80_0000, (0x80_0000 + fb) as int, pb as int);
            if ea != 0 {
                let pa = pow2((ea - 1) as nat);
                lemma_pow2_pos((ea - 1) as nat);
                lemma_mul_strict_inequality((0x80_0000 + fa) as int, 0x100_0000, pa as int);
                lemma_pow2_unfold(ea);
                if ea < eb - 1 {
                    lemma_pow2_strictly_increases(ea, (eb - 1) as nat);
                }
                assert(2 * pa <= pb);
            }
        }
    } else if (a & MAGNITUDE_MASK) == (b & MAGNITUDE_MASK) {
        assert(ea == eb && fa == fb);
    }
}

/// Numbers that are neither negative nor a NaN are ordered as their
/// patterns are.
pub proof fn lemma_order_of_patterns(a: Binary32, b: Binary32)
    requires
        a.bits <= INFINITY_BITS,
        b.bits <= INFINITY_BITS,
    ensures
        a.lt_spec(b) == (a.bits < b.bits),
        !a.is_nan_spec(),
        !a.is_sign_negative_spec(),
        a.scaled_value() >= 0,
{
    let (x, y) = (a.bits, b.bits);
    assert(x & 0x7fff_ffff == x) by (bit_vector)
        requires
            x <= 0x7f80_0000,
    ;
    assert(y & 0x7fff_ffff == y) by (bit_vector)
        requires
            y <= 0x7f80_0000,
    ;
    lemma_magnitude_order(x, y);
    lemma_magnitude_order(y, x);
}

} // verus!
