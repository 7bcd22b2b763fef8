//! IEEE 754 binary32 and binary64 numbers, handled as their bit patterns.
//!
//! A binary32 pattern is a `u32`: one sign bit, eight exponent bits and
//! twenty-three fraction bits. Every finite binary32 number is a whole
//! multiple of 2^-149; its *units* are that multiple. A binary64 pattern is a
//! `u64` in the same way, with units of 2^-1074. All results are rounded to
//! the nearest representable number, ties to the one with an even fraction.
//! Every operation that yields a NaN yields the one pattern `SINGLE_NAN`.

use vstd::prelude::*;
use vstd::arithmetic::power2::{
    lemma2_to64, lemma_pow2_adds, lemma_pow2_pos, lemma_pow2_unfold, pow2,
};
use vstd::arithmetic::div_mod::{
    lemma_div_denominator, lemma_div_multiples_vanish_quotient, lemma_fundamental_div_mod,
    lemma_fundamental_div_mod_converse, lemma_truncate_middle,
};
use crate::bignat::{bit_length, BigNat};

verus! {

/// The sign bit of a binary32 pattern.
pub const SINGLE_SIGN: u32 = 0x8000_0000;

/// Positive infinity in binary32.
pub const SINGLE_INF: u32 = 0x7f80_0000;

/// The NaN that the operations of this module return.
pub const SINGLE_NAN: u32 = 0x7fc0_0000;

/// Two to the power 23: the weight of the exponent field in binary32.
pub const SINGLE_UNIT: u32 = 0x80_0000;

/// The sign bit of a binary64 pattern.
pub const DOUBLE_SIGN: u64 = 0x8000_0000_0000_0000;

/// Positive infinity in binary64.
pub const DOUBLE_INF: u64 = 0x7ff0_0000_0000_0000;

/// Two to the power 52: the weight of the exponent field in binary64.
pub const DOUBLE_UNIT: u64 = 0x10_0000_0000_0000;

/// The integer nearest to `n / d`; of two equally near ones, the even one.
pub open spec fn half_even(n: nat, d: nat) -> nat {
    let q = n / d;
    let r = n % d;
    if 2 * r > d || (2 * r == d && q % 2 == 1) {
        q + 1
    } else {
        q
    }
}

/// How often `x` must be halved to come below `limit`.
pub open spec fn excess_bits(x: nat, limit: nat) -> nat
    decreases x,
{
    if x < limit || limit == 0 {
        0
    } else {
        1 + excess_bits(x / 2, limit)
    }
}

/// The pattern, without sign, of the number nearest to `n / d` units, in a
/// format whose exponent field has the weight `unit` and is all ones at
/// `max_field`.
///
/// With `s` the number of bits that `n / d` has beyond the format's
/// precision, the quotient is rounded to a multiple of 2^s units. A pattern
/// is the exponent field times `unit` plus the fraction, so that `s * unit`
/// plus the rounded significand is the pattern also where rounding carries
/// into the next exponent. What does not fit below infinity is infinity.
pub open spec fn round_magnitude(n: nat, d: nat, unit: nat, max_field: nat) -> nat {
    let s = excess_bits(n / d, 2 * unit);
    let m = half_even(n, d * pow2(s));
    let bits = s * unit + m;
    if bits < max_field * unit {
        bits
    } else {
        max_field * unit
    }
}

/// A binary32 pattern without its sign bit.
pub open spec fn single_abs(bits: u32) -> nat {
    (bits % 0x8000_0000) as nat
}

/// Whether the sign bit is set.
pub open spec fn single_negative(bits: u32) -> bool {
    bits >= 0x8000_0000
}

/// Whether a binary32 pattern is a NaN: all exponent bits set, and the
/// fraction not zero.
pub open spec fn single_is_nan(bits: u32) -> bool {
    single_abs(bits) > 0x7f80_0000
}

/// Whether a binary32 pattern is an infinity: all exponent bits set, and
/// the fraction zero.
pub open spec fn single_is_inf(bits: u32) -> bool {
    single_abs(bits) == 0x7f80_0000
}

/// Whether the pattern is +0 or -0.
pub open spec fn single_is_zero(bits: u32) -> bool {
    single_abs(bits) == 0
}

/// The magnitude of a finite binary32 number, in units of 2^-149.
pub open spec fn single_units(bits: u32) -> nat {
    let e = single_abs(bits) / 0x80_0000;
    let f = single_abs(bits) % 0x80_0000;
    if e == 0 {
        f
    } else {
        (0x80_0000 + f) * pow2((e - 1) as nat)
    }
}

/// The pattern with the given sign and magnitude pattern.
pub open spec fn single_signed(negative: bool, magnitude: nat) -> u32 {
    if negative {
        (magnitude + 0x8000_0000) as u32
    } else {
        magnitude as u32
    }
}

/// The number nearest to `n / d` units of 2^-149, with the given sign.
pub open spec fn single_rounded(negative: bool, n: nat, d: nat) -> u32 {
    single_signed(negative, round_magnitude(n, d, 0x80_0000, 255))
}

/// The same number with the opposite sign.
pub open spec fn single_negated(bits: u32) -> u32 {
    if bits >= 0x8000_0000 {
        (bits - 0x8000_0000) as u32
    } else {
        (bits + 0x8000_0000) as u32
    }
}

/// An integer that orders the numbers as their values do; both zeros give 0.
pub open spec fn single_rank(bits: u32) -> int {
    if single_negative(bits) {
        -(single_abs(bits) as int)
    } else {
        single_abs(bits) as int
    }
}

/// `x == y` as numbers: false where either is a NaN.
pub open spec fn single_eq(x: u32, y: u32) -> bool {
    !single_is_nan(x) && !single_is_nan(y) && single_rank(x) == single_rank(y)
}

/// `x < y` as numbers: false where either is a NaN.
pub open spec fn single_lt(x: u32, y: u32) -> bool {
    !single_is_nan(x) && !single_is_nan(y) && single_rank(x) < single_rank(y)
}

/// `x <= y` as numbers: false where either is a NaN.
pub open spec fn single_le(x: u32, y: u32) -> bool {
    !single_is_nan(x) && !single_is_nan(y) && single_rank(x) <= single_rank(y)
}

/// `x + y`.
pub open spec fn single_sum(x: u32, y: u32) -> u32 {
    if single_is_nan(x) || single_is_nan(y) {
        SINGLE_NAN
    } else if single_is_inf(x) {
        if single_is_inf(y) && single_negative(x) != single_negative(y) {
            SINGLE_NAN
        } else {
            x
        }
    } else if single_is_inf(y) {
        y
    } else if single_negative(x) == single_negative(y) {
        single_rounded(single_negative(x), single_units(x) + single_units(y), 1)
    } else if single_units(x) == single_units(y) {
        0
    } else if single_units(x) > single_units(y) {
        single_rounded(single_negative(x), (single_units(x) - single_units(y)) as nat, 1)
    } else {
        single_rounded(single_negative(y), (single_units(y) - single_units(x)) as nat, 1)
    }
}

/// `x - y`.
pub open spec fn single_difference(x: u32, y: u32) -> u32 {
    single_sum(x, single_negated(y))
}

/// `x * y`.
pub open spec fn single_product(x: u32, y: u32) -> u32 {
    let negative = single_negative(x) != single_negative(y);
    if single_is_nan(x) || single_is_nan(y) {
        SINGLE_NAN
    } else if single_is_inf(x) || single_is_inf(y) {
        if single_is_zero(x) || single_is_zero(y) {
            SINGLE_NAN
        } else {
            single_signed(negative, 0x7f80_0000)
        }
    } else {
        single_rounded(negative, single_units(x) * single_units(y), pow2(149))
    }
}

/// `x / y`.
pub open spec fn single_quotient(x: u32, y: u32) -> u32 {
    let negative = single_negative(x) != single_negative(y);
    if single_is_nan(x) || single_is_nan(y) {
        SINGLE_NAN
    } else if single_is_inf(x) {
        if single_is_inf(y) {
            SINGLE_NAN
        } else {
            single_signed(negative, 0x7f80_0000)
        }
    } else if single_is_inf(y) {
        single_signed(negative, 0)
    } else if single_is_zero(y) {
        if single_is_zero(x) {
            SINGLE_NAN
        } else {
            single_signed(negative, 0x7f80_0000)
        }
    } else {
        single_rounded(negative, single_units(x) * pow2(149), single_units(y))
    }
}

/// The binary32 number nearest to the integer `x`.
pub open spec fn single_from_int(x: int) -> u32 {
    if x < 0 {
        single_rounded(true, (-x) as nat * pow2(149), 1)
    } else {
        single_rounded(false, x as nat * pow2(149), 1)
    }
}

/// A binary64 pattern without its sign bit.
pub open spec fn double_abs(bits: u64) -> nat {
    (bits % 0x8000_0000_0000_0000) as nat
}

/// Whether the sign bit is set.
pub open spec fn double_negative(bits: u64) -> bool {
    bits >= 0x8000_0000_0000_0000
}

/// Whether a binary64 pattern is a NaN.
pub open spec fn double_is_nan(bits: u64) -> bool {
    double_abs(bits) > 0x7ff0_0000_0000_0000
}

/// Whether a binary64 pattern is an infinity.
pub open spec fn double_is_inf(bits: u64) -> bool {
    double_abs(bits) == 0x7ff0_0000_0000_0000
}

/// The magnitude of a finite binary64 number, in units of 2^-1074.
pub open spec fn double_units(bits: u64) -> nat {
    let e = double_abs(bits) / 0x10_0000_0000_0000;
    let f = double_abs(bits) % 0x10_0000_0000_0000;
    if e == 0 {
        f
    } else {
        (0x10_0000_0000_0000 + f) * pow2((e - 1) as nat)
    }
}

/// The pattern of the positive binary64 number nearest to `n / d`.
pub open spec fn double_from_ratio(n: nat, d: nat) -> u64 {
    round_magnitude(n * pow2(1074), d, 0x10_0000_0000_0000, 2047) as u64
}

/// The binary32 number nearest to a binary64 number.
pub open spec fn double_to_single(bits: u64) -> u32 {
    if double_is_nan(bits) {
        SINGLE_NAN
    } else if double_is_inf(bits) {
        single_signed(double_negative(bits), 0x7f80_0000)
    } else {
        single_rounded(double_negative(bits), double_units(bits), pow2(925))
    }
}

/// Division by `d` times a power of two, from the division by `d`: the
/// quotient is the quotient's high part, and the remainder is made of the
/// quotient's low part and the remainder.
pub proof fn lemma_divide_in_two_steps(n: nat, d: nat, s: nat)
    requires
        d > 0,
    ensures
        d * pow2(s) > 0,
        n / (d * pow2(s)) == (n / d) / pow2(s),
        n % (d * pow2(s)) == ((n / d) % pow2(s)) * d + n % d,
{
    let p = pow2(s);
    lemma_pow2_pos(s);
    let q = n / d;
    let r = n % d;
    let m = q / p;
    let low = q % p;
    lemma_fundamental_div_mod(n as int, d as int);
    lemma_fundamental_div_mod(q as int, p as int);
    assert(d * p > 0) by (nonlinear_arith)
        requires
            d > 0,
            p > 0,
    ;
    assert(n == m * (d * p) + (low * d + r)) by (nonlinear_arith)
        requires
            n == d * q + r,
            q == p * m + low,
    ;
    assert(low * d + r < d * p) by (nonlinear_arith)
        requires
            0 <= low < p,
            0 <= r < d,
    ;
    lemma_fundamental_div_mod_converse(
        n as int,
        (d * p) as int,
        m as int,
        (low * d + r) as int,
    );
}

/// A fraction rounds as the same fraction with both parts multiplied by `c`.
pub proof fn lemma_round_scaled(n: nat, d: nat, c: nat, unit: nat, max_field: nat)
    requires
        d > 0,
        c > 0,
    ensures
        round_magnitude(c * n, c * d, unit, max_field) == round_magnitude(n, d, unit, max_field),
{
    lemma_div_multiples_vanish_quotient(c as int, n as int, d as int);
    let s = excess_bits(n / d, 2 * unit);
    let big = d * pow2(s);
    lemma_pow2_pos(s);
    assert(big > 0) by (nonlinear_arith)
        requires
            big == d * pow2(s),
            d > 0,
            pow2(s) > 0,
    ;
    assert((c * d) * pow2(s) == c * big) by (nonlinear_arith)
        requires
            big == d * pow2(s),
    ;
    lemma_div_multiples_vanish_quotient(c as int, n as int, big as int);
    lemma_truncate_middle(n as int, c as int, big as int);
    let r = n % big;
    assert((2 * (c * r) > c * big) == (2 * r > big)) by (nonlinear_arith)
        requires
            c > 0,
    ;
    assert((2 * (c * r) == c * big) == (2 * r == big)) by (nonlinear_arith)
        requires
            c > 0,
    ;
    assert(half_even(c * n, c * big) == half_even(n, big));
}

/// Dropping low bits of a number takes as many from its length.
pub proof fn lemma_shifted_length(x: nat, s: nat)
    ensures
        bit_length(x / pow2(s)) == if bit_length(x) <= s {
            0
        } else {
            bit_length(x) - s
        },
    decreases s,
{
    lemma2_to64();
    if s == 0 {
        assert(x / 1 == x);
    } else {
        lemma_pow2_unfold(s);
        lemma_pow2_pos((s - 1) as nat);
        lemma_div_denominator(x as int, 2, pow2((s - 1) as nat) as int);
        assert(2 * pow2((s - 1) as nat) == pow2(s));
        lemma_shifted_length(x / 2, (s - 1) as nat);
    }
}

/// How often a number must be halved to come below two to the power
/// `width`: the bits that it has beyond `width`.
pub proof fn lemma_excess_bits(x: nat, width: nat)
    ensures
        excess_bits(x, pow2(width)) == if bit_length(x) <= width {
            0
        } else {
            bit_length(x) - width
        },
        x < pow2(width) <==> bit_length(x) <= width,
    decreases x,
{
    lemma_pow2_pos(width);
    if x == 0 {
    } else {
        lemma_excess_bits(x / 2, width);
        if width == 0 {
            lemma2_to64();
        } else {
            lemma_pow2_unfold(width);
            lemma_excess_bits(x / 2, (width - 1) as nat);
        }
    }
}

/// The pattern of the number nearest to `n / d` units, in a format whose
/// significands have `width` bits.
pub fn round_to_format(n: &BigNat, d: &BigNat, unit: u64, max_field: u64, width: usize) -> (r:
    u64)
    requires
        d@ > 0,
        0 < unit <= 0x10_0000_0000_0000,
        max_field <= 2047,
        2 * unit == pow2(width as nat),
    ensures
        r == round_magnitude(n@, d@, unit as nat, max_field as nat),
{
    let (whole, rest) = n.div_rem(d);
    let length: usize = whole.bit_len();
    let s: usize = if length <= width {
        0
    } else {
        length - width
    };
    let q = whole.shr(s);
    proof {
        lemma_excess_bits(whole@, width as nat);
        lemma_excess_bits(q@, width as nat);
        lemma_shifted_length(whole@, s as nat);
    }
    assert(max_field * unit <= 2047 * 0x10_0000_0000_0000) by (nonlinear_arith)
        requires
            max_field <= 2047,
            unit <= 0x10_0000_0000_0000,
    ;
    let infinity: u64 = max_field * unit;
    if s >= 2047 {
        proof {
            assert(s * unit >= max_field * unit) by (nonlinear_arith)
                requires
                    s >= 2047,
                    max_field <= 2047,
                    unit > 0,
            ;
        }
        return infinity;
    }
    let m: u64 = q.to_u64();
    let low = whole.low_bits(s);
    let ghost scaled = d@ * pow2(s as nat);
    let ghost left = low@ * d@ + rest@;
    proof {
        lemma_divide_in_two_steps(n@, d@, s as nat);
        assert(n@ / scaled == m);
        assert(n@ % scaled == left);
    }
    let up: bool = if s == 0 {
        proof {
            lemma2_to64();
            assert(low@ == 0);
            assert(scaled == d@) by (nonlinear_arith)
                requires
                    scaled == d@ * 1,
            ;
            assert(left == rest@) by (nonlinear_arith)
                requires
                    left == 0 * d@ + rest@,
            ;
        }
        let twice = rest.plus(&rest);
        d.lt(&twice) || (d.le(&twice) && m % 2 == 1)
    } else {
        let half = power_of_two(s - 1);
        let ghost h = half@;
        proof {
            lemma_pow2_unfold(s as nat);
            lemma_pow2_pos(s as nat);
            assert(scaled == 2 * (h * d@)) by (nonlinear_arith)
                requires
                    scaled == d@ * (2 * h),
            ;
            if low@ > h {
                assert(low@ * d@ >= (h + 1) * d@) by (nonlinear_arith)
                    requires
                        low@ >= h + 1,
                        d@ > 0,
                ;
                assert((h + 1) * d@ == h * d@ + d@) by (nonlinear_arith);
            } else if low@ < h {
                assert(low@ * d@ <= (h - 1) * d@) by (nonlinear_arith)
                    requires
                        low@ <= h - 1,
                        d@ > 0,
                ;
                assert((h - 1) * d@ == h * d@ - d@) by (nonlinear_arith);
            }
        }
        let exact: bool = rest.is_zero();
        if half.lt(&low) {
            true
        } else if half.le(&low) {
            !exact || m % 2 == 1
        } else {
            false
        }
    };
    let rounded: u64 = if up {
        m + 1
    } else {
        m
    };
    assert(rounded == half_even(n@, scaled));
    assert(s * unit <= 2047 * 0x10_0000_0000_0000) by (nonlinear_arith)
        requires
            s <= 2047,
            unit <= 0x10_0000_0000_0000,
    ;
    let bits: u64 = (s as u64) * unit + rounded;
    if bits < infinity {
        bits
    } else {
        infinity
    }
}

/// Whether a binary32 pattern is a NaN.
pub fn single_nan(bits: u32) -> (r: bool)
    ensures
        r == single_is_nan(bits),
{
    bits % SINGLE_SIGN > SINGLE_INF
}

/// Whether a binary32 pattern is an infinity.
pub fn single_infinite(bits: u32) -> (r: bool)
    ensures
        r == single_is_inf(bits),
{
    bits % SINGLE_SIGN == SINGLE_INF
}

/// Whether a binary32 pattern is +0 or -0.
pub fn single_zero(bits: u32) -> (r: bool)
    ensures
        r == single_is_zero(bits),
{
    bits % SINGLE_SIGN == 0
}

/// The same number with the opposite sign.
pub fn single_negate(bits: u32) -> (r: u32)
    ensures
        r == single_negated(bits),
{
    if bits >= SINGLE_SIGN {
        bits - SINGLE_SIGN
    } else {
        bits + SINGLE_SIGN
    }
}

fn single_rank_of(bits: u32) -> (r: i64)
    ensures
        r == single_rank(bits),
{
    let a: i64 = (bits % SINGLE_SIGN) as i64;
    if bits >= SINGLE_SIGN {
        -a
    } else {
        a
    }
}

/// `x == y` as numbers.
pub fn single_equal(x: u32, y: u32) -> (r: bool)
    ensures
        r == single_eq(x, y),
{
    !single_nan(x) && !single_nan(y) && single_rank_of(x) == single_rank_of(y)
}

/// `x < y` as numbers.
pub fn single_less(x: u32, y: u32) -> (r: bool)
    ensures
        r == single_lt(x, y),
{
    !single_nan(x) && !single_nan(y) && single_rank_of(x) < single_rank_of(y)
}

/// `x <= y` as numbers.
pub fn single_less_equal(x: u32, y: u32) -> (r: bool)
    ensures
        r == single_le(x, y),
{
    !single_nan(x) && !single_nan(y) && single_rank_of(x) <= single_rank_of(y)
}

/// The magnitude of a finite number, in units.
pub fn single_units_of(bits: u32) -> (r: BigNat)
    ensures
        r@ == single_units(bits),
{
    let a: u32 = bits % SINGLE_SIGN;
    let e: u32 = a / SINGLE_UNIT;
    let f: u32 = a % SINGLE_UNIT;
    if e == 0 {
        BigNat::from_u64(f as u64)
    } else {
        BigNat::from_u64((SINGLE_UNIT + f) as u64).shl((e - 1) as usize)
    }
}

fn single_round(negative: bool, n: &BigNat, d: &BigNat) -> (r: u32)
    requires
        d@ > 0,
    ensures
        r == single_rounded(negative, n@, d@),
{
    proof {
        lemma2_to64();
    }
    let magnitude: u64 = round_to_format(n, d, SINGLE_UNIT as u64, 255, 24);
    assert(magnitude <= 0x7f80_0000);
    if negative {
        magnitude as u32 + SINGLE_SIGN
    } else {
        magnitude as u32
    }
}

/// Two to the power `k`.
pub fn power_of_two(k: usize) -> (r: BigNat)
    ensures
        r@ == pow2(k as nat),
        r@ > 0,
{
    let one = BigNat::from_u64(1);
    let r = one.shl(k);
    proof {
        lemma_pow2_pos(k as nat);
    }
    assert(1 * pow2(k as nat) == pow2(k as nat));
    r
}

/// `x + y`.
pub fn single_add(x: u32, y: u32) -> (r: u32)
    ensures
        r == single_sum(x, y),
{
    if single_nan(x) || single_nan(y) {
        return SINGLE_NAN;
    }
    let x_negative: bool = x >= SINGLE_SIGN;
    let y_negative: bool = y >= SINGLE_SIGN;
    if single_infinite(x) {
        if single_infinite(y) && x_negative != y_negative {
            return SINGLE_NAN;
        }
        return x;
    }
    if single_infinite(y) {
        return y;
    }
    let a = single_units_of(x);
    let b = single_units_of(y);
    let one = BigNat::from_u64(1);
    if x_negative == y_negative {
        single_round(x_negative, &a.plus(&b), &one)
    } else if a.le(&b) && b.le(&a) {
        0
    } else if b.le(&a) {
        single_round(x_negative, &a.minus(&b), &one)
    } else {
        single_round(y_negative, &b.minus(&a), &one)
    }
}

/// `x - y`.
pub fn single_subtract(x: u32, y: u32) -> (r: u32)
    ensures
        r == single_difference(x, y),
{
    single_add(x, single_negate(y))
}

/// `x * y`.
pub fn single_multiply(x: u32, y: u32) -> (r: u32)
    ensures
        r == single_product(x, y),
{
    if single_nan(x) || single_nan(y) {
        return SINGLE_NAN;
    }
    let negative: bool = (x >= SINGLE_SIGN) != (y >= SINGLE_SIGN);
    if single_infinite(x) || single_infinite(y) {
        if single_zero(x) || single_zero(y) {
            return SINGLE_NAN;
        }
        return if negative {
            SINGLE_INF + SINGLE_SIGN
        } else {
            SINGLE_INF
        };
    }
    let a = single_units_of(x);
    let b = single_units_of(y);
    let n = a.times(&b);
    single_round(negative, &n, &power_of_two(149))
}

/// `x / y`.
pub fn single_divide(x: u32, y: u32) -> (r: u32)
    ensures
        r == single_quotient(x, y),
{
    if single_nan(x) || single_nan(y) {
        return SINGLE_NAN;
    }
    let negative: bool = (x >= SINGLE_SIGN) != (y >= SINGLE_SIGN);
    let infinity: u32 = if negative {
        SINGLE_INF + SINGLE_SIGN
    } else {
        SINGLE_INF
    };
    let zero: u32 = if negative {
        SINGLE_SIGN
    } else {
        0
    };
    if single_infinite(x) {
        if single_infinite(y) {
            return SINGLE_NAN;
        }
        return infinity;
    }
    if single_infinite(y) {
        return zero;
    }
    if single_zero(y) {
        if single_zero(x) {
            return SINGLE_NAN;
        }
        return infinity;
    }
    let a = single_units_of(x);
    let b = single_units_of(y);
    proof {
        lemma_single_units_positive(y);
    }
    single_round(negative, &a.shl(149), &b)
}

/// A finite number that is not a zero has positive units.
pub proof fn lemma_single_units_positive(bits: u32)
    requires
        !single_is_zero(bits),
    ensures
        single_units(bits) > 0,
{
    let e = single_abs(bits) / 0x80_0000;
    let f = single_abs(bits) % 0x80_0000;
    if e > 0 {
        lemma_pow2_pos((e - 1) as nat);
        assert((0x80_0000 + f) * pow2((e - 1) as nat) > 0) by (nonlinear_arith)
            requires
                pow2((e - 1) as nat) > 0,
                f >= 0,
        ;
    }
}

/// The binary32 number nearest to an integer.
pub fn single_of_int(x: i64) -> (r: u32)
    ensures
        r == single_from_int(x as int),
{
    let negative: bool = x < 0;
    let magnitude: u64 = if x < 0 {
        ((-(x + 1)) as u64) + 1
    } else {
        x as u64
    };
    let n = BigNat::from_u64(magnitude).shl(149);
    single_round(negative, &n, &BigNat::from_u64(1))
}

/// The pattern of the positive binary64 number nearest to `n / d`.
pub fn double_of_ratio(n: &BigNat, d: &BigNat) -> (r: u64)
    requires
        d@ > 0,
    ensures
        r == double_from_ratio(n@, d@),
{
    proof {
        vstd::arithmetic::power2::lemma2_to64_rest();
    }
    round_to_format(&n.shl(1074), d, DOUBLE_UNIT, 2047, 53)
}

/// The binary32 number nearest to a binary64 number.
pub fn single_of_double(bits: u64) -> (r: u32)
    ensures
        r == double_to_single(bits),
{
    let a: u64 = bits % DOUBLE_SIGN;
    let negative: bool = bits >= DOUBLE_SIGN;
    if a > DOUBLE_INF {
        SINGLE_NAN
    } else if a == DOUBLE_INF {
        if negative {
            SINGLE_INF + SINGLE_SIGN
        } else {
            SINGLE_INF
        }
    } else {
        let e: u64 = a / DOUBLE_UNIT;
        let f: u64 = a % DOUBLE_UNIT;
        if e == 0 {
            single_round(negative, &BigNat::from_u64(f), &power_of_two(925))
        } else if e >= 926 {
            // The units, a multiple of 2^925, over 2^925.
            let n = BigNat::from_u64(DOUBLE_UNIT + f).shl((e - 926) as usize);
            proof {
                let c = pow2(925);
                lemma_pow2_pos(925);
                lemma_pow2_adds(925, (e - 926) as nat);
                assert(c * n@ == double_units(bits)) by (nonlinear_arith)
                    requires
                        n@ == (0x10_0000_0000_0000 + f) * pow2((e - 926) as nat),
                        double_units(bits) == (0x10_0000_0000_0000 + f) * pow2((e - 1) as nat),
                        pow2((e - 1) as nat) == c * pow2((e - 926) as nat),
                ;
                assert(c * 1 == c);
                lemma_round_scaled(n@, 1, c, 0x80_0000, 255);
            }
            single_round(negative, &n, &BigNat::from_u64(1))
        } else {
            // The units and 2^925, both without the factor 2^(e - 1).
            let n = BigNat::from_u64(DOUBLE_UNIT + f);
            let d = power_of_two((926 - e) as usize);
            proof {
                let c = pow2((e - 1) as nat);
                lemma_pow2_pos((e - 1) as nat);
                lemma_pow2_adds((e - 1) as nat, (926 - e) as nat);
                assert(c * n@ == double_units(bits)) by (nonlinear_arith)
                    requires
                        n@ == 0x10_0000_0000_0000 + f,
                        double_units(bits) == (0x10_0000_0000_0000 + f) * c,
                ;
                assert(c * d@ == pow2(925));
                lemma_round_scaled(n@, d@, c, 0x80_0000, 255);
            }
            single_round(negative, &n, &d)
        }
    }
}

} // verus!
