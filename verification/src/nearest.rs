//! Rounding to the nearest binary32, ties to the even pattern: what it means,
//! and what follows from it.
//!
//! Magnitudes are handled here, without a sign: a pattern between 0 and
//! `INFINITY_BITS` stands for `scaled_magnitude` units of 2^-149, and the
//! exact value to be rounded is a fraction `num / den` of such units, or
//! the square root of a number of squared units.

use crate::binary32::{
    INFINITY_BITS, exponent_field, fraction_field, lemma_fields, lemma_magnitude_order,
    scaled_magnitude,
};
use vstd::arithmetic::mul::*;
use vstd::arithmetic::power2::*;
use vstd::prelude::*;

verus! {

/// `num / den` lies in the rounding interval of the pattern `p`: between
/// the midpoints to the next pattern below and above, a midpoint itself
/// only where `p` is even. The interval of 0 starts at 0, and that of
/// infinity, which ranks as 2^128, has no upper end.
pub open spec fn rounds_to(p: u32, num: nat, den: nat) -> bool {
    &&& p <= INFINITY_BITS
    &&& p > 0 ==> {
        let low = den * (scaled_magnitude((p - 1) as u32) + scaled_magnitude(p));
        if p % 2 == 0 {
            low <= 2 * num
        } else {
            low < 2 * num
        }
    }
    &&& p < INFINITY_BITS ==> {
        let high = den * (scaled_magnitude(p) + scaled_magnitude((p + 1) as u32));
        if p % 2 == 0 {
            2 * num <= high
        } else {
            2 * num < high
        }
    }
}

/// `num / den` lies in the rounding interval of `p` or on one of its ends.
pub open spec fn within(p: u32, num: nat, den: nat) -> bool {
    &&& p <= INFINITY_BITS
    &&& p > 0 ==> den * (scaled_magnitude((p - 1) as u32) + scaled_magnitude(p)) <= 2 * num
    &&& p < INFINITY_BITS ==> 2 * num <= den * (scaled_magnitude(p) + scaled_magnitude(
        (p + 1) as u32,
    ))
}

/// The pattern that `num / den` rounds to. `lemma_rounds_to_unique` shows
/// that there is at most one, and `round_magnitude` computes it.
pub open spec fn rounded(num: nat, den: nat) -> u32 {
    choose|p: u32| rounds_to(p, num, den)
}

/// The square root of `square` lies in the rounding interval of the
/// pattern `p`: `square` lies between the squares of the two midpoints, on
/// one of them only where `p` is even.
pub open spec fn root_rounds_to(p: u32, square: nat) -> bool {
    &&& p <= INFINITY_BITS
    &&& p > 0 ==> {
        let low = scaled_magnitude((p - 1) as u32) + scaled_magnitude(p);
        if p % 2 == 0 {
            low * low <= 4 * square
        } else {
            low * low < 4 * square
        }
    }
    &&& p < INFINITY_BITS ==> {
        let high = scaled_magnitude(p) + scaled_magnitude((p + 1) as u32);
        if p % 2 == 0 {
            4 * square <= high * high
        } else {
            4 * square < high * high
        }
    }
}

/// The pattern that the square root of `square` rounds to.
pub open spec fn rounded_root(square: nat) -> u32 {
    choose|p: u32| root_rounds_to(p, square)
}

/// The pattern of a power of two: `(n - 22) * 2^23` stands for 2^n units.
pub open spec fn power_pattern(n: nat) -> u32 {
    ((n - 22) * 0x80_0000) as u32
}

/// The distance from `num / den` to `x`, multiplied by `den`.
pub open spec fn distance(x: nat, num: nat, den: nat) -> int {
    if den * x >= num {
        den * x - num
    } else {
        num - den * x
    }
}

/// Patterns without a sign are ordered as the magnitudes they stand for.
pub proof fn lemma_pattern_order(p: u32, q: u32)
    requires
        p <= INFINITY_BITS,
        q <= INFINITY_BITS,
    ensures
        p < q ==> scaled_magnitude(p) < scaled_magnitude(q),
        p <= q ==> scaled_magnitude(p) <= scaled_magnitude(q),
{
    assert(p & 0x7fff_ffff == p) by (bit_vector)
        requires
            p <= 0x7f80_0000,
    ;
    assert(q & 0x7fff_ffff == q) by (bit_vector)
        requires
            q <= 0x7f80_0000,
    ;
    lemma_magnitude_order(p, q);
}

/// The pattern `k * 2^23 + m` stands for `m * 2^k`, where `m` is a
/// significand of at most 24 bits, or 2^24 itself, and has its leading bit
/// unless `k` is 0.
pub proof fn lemma_parts(k: nat, m: nat)
    requires
        k <= 253,
        m <= 0x100_0000,
        k >= 1 ==> m >= 0x80_0000,
    ensures
        k * 0x80_0000 + m <= INFINITY_BITS,
        scaled_magnitude((k * 0x80_0000 + m) as u32) == m * pow2(k),
        (k * 0x80_0000 + m) % 2 == m % 2,
{
    let p = (k * 0x80_0000 + m) as u32;
    lemma_fields(p);
    assert(p & 0x7fff_ffff == p) by (bit_vector)
        requires
            p <= 0x7f80_0000,
    ;
    let e = exponent_field(p);
    let f = fraction_field(p);
    if m < 0x80_0000 {
        assert(e == 0 && f == m);
        lemma2_to64();
        assert(m * pow2(k) == m);
    } else if m < 0x100_0000 {
        assert(e == k + 1 && f == m - 0x80_0000);
        assert((e - 1) as nat == k);
        assert(0x80_0000 + f == m);
    } else {
        assert(e == k + 2 && f == 0);
        assert((e - 1) as nat == k + 1);
        lemma_pow2_unfold(k + 1);
        assert(0x80_0000 * (2 * pow2(k)) == 0x100_0000 * pow2(k));
    }
}

/// `power_pattern(n)` stands for 2^n units of 2^-149.
pub proof fn lemma_power_pattern(n: nat)
    requires
        23 <= n <= 277,
    ensures
        0 < power_pattern(n) <= INFINITY_BITS,
        scaled_magnitude(power_pattern(n)) == pow2(n),
{
    lemma2_to64();
    if n < 277 {
        lemma_parts((n - 23) as nat, 0x80_0000);
        lemma_pow2_adds(23, (n - 23) as nat);
    } else {
        lemma_parts(253, 0x100_0000);
        lemma_pow2_adds(24, 253);
    }
}

/// Comparing `den * x` with `2 * num` does not depend on how the fraction
/// `num / den` is written.
pub proof fn lemma_same_fraction(x: nat, num: nat, den: nat, num2: nat, den2: nat)
    by (nonlinear_arith)
    requires
        den > 0,
        den2 > 0,
        num * den2 == num2 * den,
    ensures
        (den * x <= 2 * num) == (den2 * x <= 2 * num2),
        (den * x < 2 * num) == (den2 * x < 2 * num2),
        (2 * num <= den * x) == (2 * num2 <= den2 * x),
        (2 * num < den * x) == (2 * num2 < den2 * x),
{
}

/// Rounding depends on the value of the fraction alone.
pub proof fn lemma_rounds_to_same_fraction(p: u32, num: nat, den: nat, num2: nat, den2: nat)
    requires
        den > 0,
        den2 > 0,
        num * den2 == num2 * den,
    ensures
        rounds_to(p, num, den) == rounds_to(p, num2, den2),
{
    if 0 < p <= INFINITY_BITS {
        lemma_same_fraction(
            scaled_magnitude((p - 1) as u32) + scaled_magnitude(p),
            num,
            den,
            num2,
            den2,
        );
    }
    if p < INFINITY_BITS {
        lemma_same_fraction(
            scaled_magnitude(p) + scaled_magnitude((p + 1) as u32),
            num,
            den,
            num2,
            den2,
        );
    }
}

/// Lying within an interval depends on the value of the fraction alone.
pub proof fn lemma_within_same_fraction(p: u32, num: nat, den: nat, num2: nat, den2: nat)
    requires
        den > 0,
        den2 > 0,
        num * den2 == num2 * den,
    ensures
        within(p, num, den) == within(p, num2, den2),
{
    if 0 < p <= INFINITY_BITS {
        lemma_same_fraction(
            scaled_magnitude((p - 1) as u32) + scaled_magnitude(p),
            num,
            den,
            num2,
            den2,
        );
    }
    if p < INFINITY_BITS {
        lemma_same_fraction(
            scaled_magnitude(p) + scaled_magnitude((p + 1) as u32),
            num,
            den,
            num2,
            den2,
        );
    }
}

/// A bound that holds of a smaller value holds strictly of a larger one.
proof fn lemma_strictly_above(x: nat, low: nat, low_den: nat, num: nat, den: nat)
    by (nonlinear_arith)
    requires
        low_den > 0,
        den > 0,
        low_den * x <= 2 * low,
        low * den < num * low_den,
    ensures
        den * x < 2 * num,
{
    assert((low_den * x) * den <= (2 * low) * den);
    assert(2 * (low * den) < 2 * (num * low_den));
    assert((den * x) * low_den < (2 * num) * low_den);
}

/// A bound that holds of a larger value holds strictly of a smaller one.
proof fn lemma_strictly_below(x: nat, high: nat, high_den: nat, num: nat, den: nat)
    by (nonlinear_arith)
    requires
        high_den > 0,
        den > 0,
        2 * high <= high_den * x,
        num * high_den < high * den,
    ensures
        2 * num < den * x,
{
    assert((2 * high) * den <= (high_den * x) * den);
    assert(2 * (num * high_den) < 2 * (high * den));
    assert((2 * num) * high_den < (den * x) * high_den);
}

/// What lies strictly between two values of one interval rounds to the
/// pattern of that interval.
pub proof fn lemma_within_between(
    p: u32,
    low: nat,
    low_den: nat,
    high: nat,
    high_den: nat,
    num: nat,
    den: nat,
)
    requires
        low_den > 0,
        high_den > 0,
        den > 0,
        within(p, low, low_den),
        within(p, high, high_den),
        low * den < num * low_den,
        num * high_den < high * den,
    ensures
        rounds_to(p, num, den),
{
    if p > 0 {
        lemma_strictly_above(
            scaled_magnitude((p - 1) as u32) + scaled_magnitude(p),
            low,
            low_den,
            num,
            den,
        );
    }
    if p < INFINITY_BITS {
        lemma_strictly_below(
            scaled_magnitude(p) + scaled_magnitude((p + 1) as u32),
            high,
            high_den,
            num,
            den,
        );
    }
}

/// For `p < q`, the upper end of the interval of `p` is not above the
/// lower end of the interval of `q`, and the two meet only where `q` is
/// the pattern after `p`.
pub proof fn lemma_between_neighbours(p: u32, q: u32, den: nat)
    requires
        den > 0,
        p < q <= INFINITY_BITS,
    ensures
        den * (scaled_magnitude(p) + scaled_magnitude((p + 1) as u32)) <= den * (scaled_magnitude(
            (q - 1) as u32,
        ) + scaled_magnitude(q)),
        q != p + 1 ==> den * (scaled_magnitude(p) + scaled_magnitude((p + 1) as u32)) < den * (
        scaled_magnitude((q - 1) as u32) + scaled_magnitude(q)),
{
    let a = scaled_magnitude(p) + scaled_magnitude((p + 1) as u32);
    let b = scaled_magnitude((q - 1) as u32) + scaled_magnitude(q);
    lemma_pattern_order(p, (q - 1) as u32);
    lemma_pattern_order((p + 1) as u32, q);
    assert(a <= b);
    lemma_mul_inequality(a as int, b as int, den as int);
    lemma_mul_is_commutative(a as int, den as int);
    lemma_mul_is_commutative(b as int, den as int);
    if q != p + 1 {
        assert(a < b);
        lemma_mul_strict_inequality(a as int, b as int, den as int);
    }
}

/// A value rounds to one pattern only.
pub proof fn lemma_rounds_to_unique(p: u32, q: u32, num: nat, den: nat)
    requires
        den > 0,
        rounds_to(p, num, den),
        rounds_to(q, num, den),
    ensures
        p == q,
{
    if p < q {
        lemma_between_neighbours(p, q, den);
    } else if q < p {
        lemma_between_neighbours(q, p, den);
    }
}

/// A magnitude that a pattern stands for rounds to that pattern.
pub proof fn lemma_exact_rounds(p: u32)
    requires
        p <= INFINITY_BITS,
    ensures
        rounds_to(p, scaled_magnitude(p), 1),
{
    if p > 0 {
        lemma_pattern_order((p - 1) as u32, p);
    }
    if p < INFINITY_BITS {
        lemma_pattern_order(p, (p + 1) as u32);
    }
}

/// The search for the pattern that a value rounds to: `p` starts below the
/// value or at 0, and goes up while the next interval starts at or below
/// the value.
proof fn lemma_search(p: u32, num: nat, den: nat) -> (r: u32)
    requires
        den > 0,
        p <= INFINITY_BITS,
        p > 0 ==> {
            let low = den * (scaled_magnitude((p - 1) as u32) + scaled_magnitude(p));
            if p % 2 == 0 {
                low <= 2 * num
            } else {
                low < 2 * num
            }
        },
    ensures
        rounds_to(r, num, den),
    decreases INFINITY_BITS - p,
{
    if p == INFINITY_BITS {
        p
    } else {
        let next = (p + 1) as u32;
        let low = den * (scaled_magnitude(p) + scaled_magnitude(next));
        let starts = if next % 2 == 0 {
            low <= 2 * num
        } else {
            low < 2 * num
        };
        if starts {
            lemma_search(next, num, den)
        } else {
            p
        }
    }
}

/// Every value rounds to some pattern, so `rounded` is that pattern.
pub proof fn lemma_rounded_exists(num: nat, den: nat)
    requires
        den > 0,
    ensures
        rounds_to(rounded(num, den), num, den),
{
    let r = lemma_search(0, num, den);
    assert(rounds_to(r, num, den));
}

/// A magnitude that a pattern stands for is rounded to that pattern,
/// however the fraction is written.
pub proof fn lemma_rounded_exact(p: u32, den: nat)
    requires
        p <= INFINITY_BITS,
        den > 0,
    ensures
        rounded(scaled_magnitude(p) * den, den) == p,
{
    lemma_exact_rounds(p);
    let num = scaled_magnitude(p) * den;
    lemma_mul_basics(num as int);
    lemma_rounds_to_same_fraction(p, scaled_magnitude(p), 1, num, den);
    lemma_rounded_exists(num, den);
    lemma_rounds_to_unique(p, rounded(num, den), num, den);
}

/// Rounding keeps the order: of two values, the larger does not round to
/// the smaller pattern.
pub proof fn lemma_rounded_monotonic(num: nat, den: nat, num2: nat, den2: nat)
    requires
        den > 0,
        den2 > 0,
        num * den2 <= num2 * den,
    ensures
        rounded(num, den) <= rounded(num2, den2),
{
    let p = rounded(num, den);
    let q = rounded(num2, den2);
    lemma_rounded_exists(num, den);
    lemma_rounded_exists(num2, den2);
    // Both over the denominator `den * den2`.
    let both = den * den2;
    let a = num * den2;
    let b = num2 * den;
    lemma_mul_strictly_positive(den as int, den2 as int);
    assert(num * both == a * den && num2 * both == b * den2) by (nonlinear_arith)
        requires
            both == den * den2,
            a == num * den2,
            b == num2 * den,
    ;
    lemma_rounds_to_same_fraction(p, num, den, a, both);
    lemma_rounds_to_same_fraction(q, num2, den2, b, both);
    if q < p {
        lemma_between_neighbours(q, p, both);
    }
}

/// A value that is not below the magnitude of `p` does not round below
/// `p`.
pub proof fn lemma_rounded_at_least(p: u32, num: nat, den: nat)
    requires
        p <= INFINITY_BITS,
        den > 0,
        scaled_magnitude(p) * den <= num,
    ensures
        p <= rounded(num, den) <= INFINITY_BITS,
{
    let exact = scaled_magnitude(p) * den;
    lemma_rounded_exact(p, den);
    lemma_mul_inequality(exact as int, num as int, den as int);
    lemma_rounded_monotonic(exact, den, num, den);
    lemma_rounded_exists(num, den);
}

/// A value that is not above the magnitude of `p` does not round above
/// `p`.
pub proof fn lemma_rounded_at_most(p: u32, num: nat, den: nat)
    requires
        p <= INFINITY_BITS,
        den > 0,
        num <= scaled_magnitude(p) * den,
    ensures
        rounded(num, den) <= p,
{
    let exact = scaled_magnitude(p) * den;
    lemma_rounded_exact(p, den);
    lemma_mul_inequality(num as int, exact as int, den as int);
    lemma_rounded_monotonic(num, den, exact, den);
}

/// What a value rounds to is nearest to it: no pattern stands for a
/// magnitude that is closer.
pub proof fn lemma_rounds_to_nearest(p: u32, num: nat, den: nat, other: u32)
    requires
        den > 0,
        rounds_to(p, num, den),
        other <= INFINITY_BITS,
    ensures
        distance(scaled_magnitude(p), num, den) <= distance(scaled_magnitude(other), num, den),
{
    let sp = scaled_magnitude(p);
    let so = scaled_magnitude(other);
    if other < p {
        let below = scaled_magnitude((p - 1) as u32);
        lemma_pattern_order(other, (p - 1) as u32);
        lemma_pattern_order((p - 1) as u32, p);
        assert(den * so <= den * below && den * below <= den * sp && den * (below + sp) == den
            * below + den * sp) by (nonlinear_arith)
            requires
                so <= below,
                below <= sp,
        ;
    } else if other > p {
        let above = scaled_magnitude((p + 1) as u32);
        lemma_pattern_order((p + 1) as u32, other);
        lemma_pattern_order(p, (p + 1) as u32);
        assert(den * above <= den * so && den * sp <= den * above && den * (sp + above) == den
            * sp + den * above) by (nonlinear_arith)
            requires
                above <= so,
                sp <= above,
        ;
    }
}

/// Squares of magnitudes are ordered as the magnitudes are.
pub proof fn lemma_square_order(a: nat, b: nat)
    by (nonlinear_arith)
    ensures
        a <= b ==> a * a <= b * b,
        a < b ==> a * a < b * b,
{
}

/// A square root rounds to one pattern only.
pub proof fn lemma_root_unique(p: u32, q: u32, square: nat)
    requires
        root_rounds_to(p, square),
        root_rounds_to(q, square),
    ensures
        p == q,
{
    if p < q {
        lemma_between_neighbours(p, q, 1);
        lemma_square_order(
            scaled_magnitude(p) + scaled_magnitude((p + 1) as u32),
            scaled_magnitude((q - 1) as u32) + scaled_magnitude(q),
        );
    } else if q < p {
        lemma_between_neighbours(q, p, 1);
        lemma_square_order(
            scaled_magnitude(q) + scaled_magnitude((q + 1) as u32),
            scaled_magnitude((p - 1) as u32) + scaled_magnitude(p),
        );
    }
}

/// The search for the pattern that a square root rounds to.
proof fn lemma_root_search(p: u32, square: nat) -> (r: u32)
    requires
        p <= INFINITY_BITS,
        p > 0 ==> {
            let low = scaled_magnitude((p - 1) as u32) + scaled_magnitude(p);
            if p % 2 == 0 {
                low * low <= 4 * square
            } else {
                low * low < 4 * square
            }
        },
    ensures
        root_rounds_to(r, square),
    decreases INFINITY_BITS - p,
{
    if p == INFINITY_BITS {
        p
    } else {
        let next = (p + 1) as u32;
        let low = scaled_magnitude(p) + scaled_magnitude(next);
        let starts = if next % 2 == 0 {
            low * low <= 4 * square
        } else {
            low * low < 4 * square
        };
        if starts {
            lemma_root_search(next, square)
        } else {
            p
        }
    }
}

/// Every square root rounds to some pattern, so `rounded_root` is that
/// pattern.
pub proof fn lemma_root_exists(square: nat)
    ensures
        root_rounds_to(rounded_root(square), square),
{
    let r = lemma_root_search(0, square);
    assert(root_rounds_to(r, square));
}

/// The root of a value that is not below the square of the magnitude of
/// `p` does not round below `p`.
pub proof fn lemma_root_at_least(p: u32, square: nat)
    requires
        p <= INFINITY_BITS,
        scaled_magnitude(p) * scaled_magnitude(p) <= square,
    ensures
        p <= rounded_root(square) <= INFINITY_BITS,
{
    let r = rounded_root(square);
    lemma_root_exists(square);
    if r < p {
        let next = (r + 1) as u32;
        let high = scaled_magnitude(r) + scaled_magnitude(next);
        lemma_pattern_order(r, next);
        lemma_pattern_order(next, p);
        lemma_square_order(high, 2 * scaled_magnitude(p));
        let top = scaled_magnitude(p);
        assert((2 * top) * (2 * top) == 4 * (top * top)) by (nonlinear_arith);
    }
}

/// The root of a value that is not above the square of the magnitude of
/// `p` does not round above `p`.
pub proof fn lemma_root_at_most(p: u32, square: nat)
    requires
        p <= INFINITY_BITS,
        square <= scaled_magnitude(p) * scaled_magnitude(p),
    ensures
        rounded_root(square) <= p,
{
    let r = rounded_root(square);
    lemma_root_exists(square);
    if r > p {
        let before = (r - 1) as u32;
        let low = scaled_magnitude(before) + scaled_magnitude(r);
        lemma_pattern_order(before, r);
        lemma_pattern_order(p, before);
        lemma_square_order(2 * scaled_magnitude(p), low);
        let top = scaled_magnitude(p);
        assert((2 * top) * (2 * top) == 4 * (top * top)) by (nonlinear_arith);
    }
}

} // verus!
