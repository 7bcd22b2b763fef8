//! Numbers and decimal text: reading a decimal literal as a binary64 number,
//! and writing a binary32 number with the fewest digits that still name it.

use vstd::prelude::*;
use vstd::arithmetic::power2::{
    lemma2_to64, lemma_pow2_adds, lemma_pow2_pos, lemma_pow2_strictly_increases, lemma_pow2_unfold,
    pow2,
};
use vstd::arithmetic::div_mod::lemma_mod_multiples_basic;
use vstd::arithmetic::div_mod::{lemma_fundamental_div_mod, lemma_fundamental_div_mod_converse};
use crate::bignat::BigNat;
use crate::ieee::{
    double_from_ratio, double_of_ratio, power_of_two, single_abs, single_is_inf, single_is_nan,
    single_is_zero, single_negative, single_units, single_units_of, SINGLE_INF, SINGLE_SIGN,
    SINGLE_UNIT,
};
use crate::text::string_of;

verus! {

/// Ten to the power `k`.
pub open spec fn pow10(k: nat) -> nat
    decreases k,
{
    if k == 0 {
        1
    } else {
        10 * pow10((k - 1) as nat)
    }
}

/// Whether `c` is a decimal digit.
pub open spec fn is_digit_char(c: char) -> bool {
    '0' <= c <= '9'
}

/// The value of a decimal digit.
pub open spec fn digit_value(c: char) -> nat {
    (c as nat - 48) as nat
}

/// The character of a decimal digit.
pub open spec fn digit_char(d: nat) -> char {
    (d + 48) as char
}

/// The number whose decimal digits are those of `acc`, then `digits`.
pub open spec fn decimal_append(acc: nat, digits: Seq<char>) -> nat
    decreases digits.len(),
{
    if digits.len() == 0 {
        acc
    } else {
        10 * decimal_append(acc, digits.drop_last()) + digit_value(digits.last())
    }
}

/// The binary64 number nearest to the literal `whole "." fraction`.
pub open spec fn literal_double(whole: Seq<char>, fraction: Seq<char>) -> u64 {
    double_from_ratio(
        decimal_append(decimal_append(0, whole), fraction),
        pow10(fraction.len()),
    )
}

/// The decimal digits of `n`, without leading zeros ("0" for zero).
pub open spec fn nat_digits(n: nat) -> Seq<char>
    decreases n,
{
    if n < 10 {
        seq![digit_char(n)]
    } else {
        nat_digits(n / 10).push(digit_char(n % 10))
    }
}

/// `count` zeros.
pub open spec fn zeros(count: nat) -> Seq<char> {
    Seq::new(count, |i: int| '0')
}

/// Plain decimal notation for `digits` times ten to the power `exponent`.
pub open spec fn decimal_text(digits: nat, exponent: int) -> Seq<char> {
    let d = nat_digits(digits);
    if exponent >= 0 {
        d + zeros(exponent as nat)
    } else if d.len() > -exponent {
        d.take(d.len() + exponent) + seq!['.'] + d.skip(d.len() + exponent)
    } else {
        seq!['0', '.'] + zeros((-exponent - d.len()) as nat) + d
    }
}

/// The step of the decimal grids, in the units of `shortest_from`: a quarter
/// of 2^-149 is one, and the coarsest grid is that of 10^39.
pub open spec fn grid_step() -> nat {
    pow2(151) * pow10(39)
}

/// Whether `y` lies between `low` and `high`; the two ends count where
/// `closed` is set.
pub open spec fn in_interval(y: nat, low: nat, high: nat, closed: bool) -> bool {
    if closed {
        low <= y <= high
    } else {
        low < y < high
    }
}

/// The finest grid that the search for the shortest decimal tries. Every
/// finite binary32 number is a multiple of 10^-151, so that the search ends
/// on the grid of level 190 at the latest.
pub const FINEST: u32 = 200;

/// The shortest decimal in the interval from `low` to `high`, and of several
/// the one nearest to `x`; of two equally near ones the greater.
///
/// At level `t` the three numbers are given times 10^t, so that the multiples
/// of `grid_step()` stand for the multiples of 10^(39 - t). The two multiples
/// next to `x` are tried; where neither lies in the interval the next finer
/// grid is taken. The result is the multiple's factor and the level.
pub open spec fn shortest_from(x: nat, low: nat, high: nat, closed: bool, t: nat) -> (nat, nat)
    decreases FINEST - t,
{
    let below = x / grid_step();
    let a = below * grid_step();
    let b = a + grid_step();
    let a_fits = in_interval(a, low, high, closed);
    let b_fits = in_interval(b, low, high, closed);
    if a_fits && (!b_fits || x - a < b - x) {
        (below, t)
    } else if b_fits {
        (below + 1, t)
    } else if t >= FINEST {
        (below, t)
    } else {
        shortest_from(10 * x, 10 * low, 10 * high, closed, t + 1)
    }
}

/// The distance between a finite binary32 number and the next one away from
/// zero, in units of 2^-149.
pub open spec fn single_step(bits: u32) -> nat {
    let e = single_abs(bits) / 0x80_0000;
    if e == 0 {
        1
    } else {
        pow2((e - 1) as nat)
    }
}

/// Half way from a finite binary32 number to the next one toward zero, in
/// quarters of a unit. The step toward zero is half the step away from it
/// where the number is the least of its exponent.
pub open spec fn single_low(bits: u32) -> nat {
    let e = single_abs(bits) / 0x80_0000;
    let f = single_abs(bits) % 0x80_0000;
    if f == 0 && e > 1 {
        (4 * single_units(bits) - single_step(bits)) as nat
    } else {
        (4 * single_units(bits) - 2 * single_step(bits)) as nat
    }
}

/// Half way from a finite binary32 number to the next one away from zero, in
/// quarters of a unit.
pub open spec fn single_high(bits: u32) -> nat {
    4 * single_units(bits) + 2 * single_step(bits)
}

/// The shortest decimal that rounds to the finite, nonzero binary32 number.
/// Every decimal between the two half-way points does; the points themselves
/// do where the number's fraction is even.
pub open spec fn single_decimal(bits: u32) -> (nat, int) {
    let found = shortest_from(
        4 * single_units(bits),
        single_low(bits),
        single_high(bits),
        single_abs(bits) % 2 == 0,
        0,
    );
    (found.0, 39 - found.1)
}

/// A binary32 number as text: "NaN", "inf", "-inf", or plain decimal notation
/// with the fewest digits that round to the number, "-" first where the sign
/// bit is set.
pub open spec fn single_text(bits: u32) -> Seq<char> {
    let sign = if single_negative(bits) {
        seq!['-']
    } else {
        Seq::<char>::empty()
    };
    if single_is_nan(bits) {
        "NaN"@
    } else if single_is_inf(bits) {
        sign + "inf"@
    } else if single_is_zero(bits) {
        sign + seq!['0']
    } else {
        let v = single_decimal(bits);
        sign + decimal_text(v.0, v.1)
    }
}

/// Five to the power `k`.
pub open spec fn pow5(k: nat) -> nat
    decreases k,
{
    if k == 0 {
        1
    } else {
        5 * pow5((k - 1) as nat)
    }
}

/// Powers of ten are positive.
pub proof fn lemma_pow10_positive(k: nat)
    ensures
        pow10(k) > 0,
    decreases k,
{
    if k > 0 {
        lemma_pow10_positive((k - 1) as nat);
    }
}

/// Ten to the power `a + b` is the product of the two powers.
pub proof fn lemma_pow10_adds(a: nat, b: nat)
    ensures
        pow10(a + b) == pow10(a) * pow10(b),
    decreases a,
{
    if a == 0 {
        assert(pow10(b) == 1 * pow10(b));
    } else {
        lemma_pow10_adds((a - 1) as nat, b);
        assert(10 * (pow10((a - 1) as nat) * pow10(b)) == (10 * pow10((a - 1) as nat)) * pow10(b))
            by (nonlinear_arith);
    }
}

/// A power of ten is the product of the powers of two and of five.
pub proof fn lemma_pow10_factors(k: nat)
    ensures
        pow10(k) == pow2(k) * pow5(k),
    decreases k,
{
    lemma2_to64();
    if k == 0 {
        assert(pow2(0) * pow5(0) == 1) by (nonlinear_arith)
            requires
                pow2(0) == 1,
                pow5(0) == 1,
        ;
    } else {
        lemma_pow10_factors((k - 1) as nat);
        lemma_pow2_unfold(k);
        assert(10 * (pow2((k - 1) as nat) * pow5((k - 1) as nat)) == (2 * pow2((k - 1) as nat)) * (
        5 * pow5((k - 1) as nat))) by (nonlinear_arith);
    }
}

/// The step of the coarsest grid is positive, and divides 10^190.
pub proof fn lemma_grid_step()
    ensures
        grid_step() > 0,
        pow10(190) == pow5(151) * grid_step(),
{
    lemma_pow2_pos(151);
    lemma_pow10_positive(39);
    lemma_pow10_adds(151, 39);
    lemma_pow10_factors(151);
    assert(grid_step() > 0) by (nonlinear_arith)
        requires
            grid_step() == pow2(151) * pow10(39),
            pow2(151) > 0,
            pow10(39) > 0,
    ;
    assert((pow2(151) * pow5(151)) * pow10(39) == pow5(151) * (pow2(151) * pow10(39)))
        by (nonlinear_arith);
}

/// The interval and a number in it, all times ten.
pub proof fn lemma_interval_times_ten(y: nat, low: nat, high: nat, closed: bool)
    ensures
        in_interval(10 * y, 10 * low, 10 * high, closed) == in_interval(y, low, high, closed),
{
}

/// The search for the shortest decimal ends on the grid of 10^-151 at the
/// latest, with a decimal in the interval: where `x` lies strictly between
/// `low` and `high` and is, at level `t`, a multiple of the step of the
/// grid of level 190.
pub proof fn lemma_search_ends(x: nat, low: nat, high: nat, closed: bool, t: nat)
    requires
        t <= 190,
        low < x < high,
        (x * pow10((190 - t) as nat)) % grid_step() == 0,
    ensures
        t <= shortest_from(x, low, high, closed, t).1 <= 190,
        shortest_from(x, low, high, closed, t).1 == t ==> shortest_from(x, low, high, closed, t).0
            == x / grid_step() || shortest_from(x, low, high, closed, t).0 == x / grid_step() + 1,
        in_interval(
            shortest_from(x, low, high, closed, t).0 * grid_step(),
            low * pow10((shortest_from(x, low, high, closed, t).1 - t) as nat),
            high * pow10((shortest_from(x, low, high, closed, t).1 - t) as nat),
            closed,
        ),
    decreases 190 - t,
{
    lemma_grid_step();
    let g = grid_step();
    let below = x / g;
    let a = below * g;
    let b = a + g;
    let a_fits = in_interval(a, low, high, closed);
    let b_fits = in_interval(b, low, high, closed);
    assert((below + 1) * g == a + g) by (nonlinear_arith)
        requires
            a == below * g,
    ;
    assert(low * 1 == low && high * 1 == high);
    if a_fits && (!b_fits || x - a < b - x) {
    } else if b_fits {
    } else {
        if t == 190 {
            assert(x * 1 == x);
            lemma_fundamental_div_mod(x as int, g as int);
            assert(g * below == below * g) by (nonlinear_arith);
            assert(a == x);
            assert(false);
        }
        let rest = (189 - t) as nat;
        assert((10 * x) * pow10(rest) == x * pow10((190 - t) as nat)) by (nonlinear_arith)
            requires
                pow10((190 - t) as nat) == 10 * pow10(rest),
        ;
        lemma_search_ends(10 * x, 10 * low, 10 * high, closed, t + 1);
        let found = shortest_from(10 * x, 10 * low, 10 * high, closed, t + 1);
        let deeper = (found.1 - t - 1) as nat;
        assert((10 * low) * pow10(deeper) == low * pow10((found.1 - t) as nat))
            by (nonlinear_arith)
            requires
                pow10((found.1 - t) as nat) == 10 * pow10(deeper),
        ;
        assert((10 * high) * pow10(deeper) == high * pow10((found.1 - t) as nat))
            by (nonlinear_arith)
            requires
                pow10((found.1 - t) as nat) == 10 * pow10(deeper),
        ;
    }
}

/// A decimal that the search finds on a grid finer than the one it starts
/// with does not end in a zero: it would have been found on the grid
/// before.
pub proof fn lemma_search_digits(x: nat, low: nat, high: nat, closed: bool, t: nat)
    requires
        t <= 190,
        low < x < high,
        (x * pow10((190 - t) as nat)) % grid_step() == 0,
    ensures
        shortest_from(x, low, high, closed, t).1 > t ==> shortest_from(x, low, high, closed, t).0
            % 10 != 0,
    decreases 190 - t,
{
    lemma_grid_step();
    lemma_search_ends(x, low, high, closed, t);
    let g = grid_step();
    let below = x / g;
    let a = below * g;
    let b = a + g;
    let a_fits = in_interval(a, low, high, closed);
    let b_fits = in_interval(b, low, high, closed);
    let found = shortest_from(x, low, high, closed, t);
    if found.1 > t {
        assert(!a_fits && !b_fits);
        assert(t < 190);
        let rest = (189 - t) as nat;
        assert((10 * x) * pow10(rest) == x * pow10((190 - t) as nat)) by (nonlinear_arith)
            requires
                pow10((190 - t) as nat) == 10 * pow10(rest),
        ;
        lemma_search_ends(10 * x, 10 * low, 10 * high, closed, t + 1);
        lemma_search_digits(10 * x, 10 * low, 10 * high, closed, t + 1);
        assert(found == shortest_from(10 * x, 10 * low, 10 * high, closed, t + 1));
        if found.1 == t + 1 {
            let c = found.0;
            let next = (10 * x) / g;
            lemma_fundamental_div_mod((10 * x) as int, g as int);
            lemma_fundamental_div_mod(x as int, g as int);
            assert(g * next == next * g) by (nonlinear_arith);
            assert(g * below == below * g) by (nonlinear_arith);
            assert(c == next || c == next + 1);
            assert((next + 1) * g == next * g + g) by (nonlinear_arith);
            assert(pow10(0) == 1);
            assert((10 * low) * 1 == 10 * low && (10 * high) * 1 == 10 * high);
            assert(in_interval(c * g, 10 * low, 10 * high, closed));
            if c % 10 == 0 {
                let k = c / 10;
                assert(c == 10 * k);
                assert(c * g == 10 * (k * g)) by (nonlinear_arith)
                    requires
                        c == 10 * k,
                ;
                lemma_interval_times_ten(k * g, low, high, closed);
                assert(in_interval(k * g, low, high, closed));
                if c == next {
                    // k * g <= x < k * g + g
                    assert(k * g <= x && x < k * g + g) by (nonlinear_arith)
                        requires
                            10 * (k * g) == next * g,
                            next * g <= 10 * x,
                            10 * x < next * g + g,
                            g > 0,
                    ;
                    lemma_fundamental_div_mod_converse(
                        x as int,
                        g as int,
                        k as int,
                        (x - k * g) as int,
                    );
                    assert(k * g == a);
                } else {
                    // (k - 1) * g <= x < k * g
                    assert(k >= 1);
                    assert((k - 1) * g == k * g - g) by (nonlinear_arith);
                    assert((k - 1) * g <= x && x < k * g) by (nonlinear_arith)
                        requires
                            10 * (k * g) == next * g + g,
                            next * g <= 10 * x,
                            10 * x < next * g + g,
                            (k - 1) * g == k * g - g,
                            g > 0,
                    ;
                    lemma_fundamental_div_mod_converse(
                        x as int,
                        g as int,
                        (k - 1) as int,
                        (x - (k - 1) * g) as int,
                    );
                    assert(k * g == b);
                }
                assert(false);
            }
        }
    }
}

/// No decimal on a grid coarser than that of the decimal found lies in the
/// interval: the decimal found is one of the shortest.
pub proof fn lemma_search_shortest(
    x: nat,
    low: nat,
    high: nat,
    closed: bool,
    t: nat,
    level: nat,
    k: nat,
)
    requires
        t <= 190,
        low < x < high,
        (x * pow10((190 - t) as nat)) % grid_step() == 0,
        t <= level < shortest_from(x, low, high, closed, t).1,
    ensures
        !in_interval(
            k * grid_step(),
            low * pow10((level - t) as nat),
            high * pow10((level - t) as nat),
            closed,
        ),
    decreases 190 - t,
{
    lemma_grid_step();
    lemma_search_ends(x, low, high, closed, t);
    let g = grid_step();
    let below = x / g;
    let a = below * g;
    let b = a + g;
    assert(!in_interval(a, low, high, closed) && !in_interval(b, low, high, closed));
    if level == t {
        assert(low * 1 == low && high * 1 == high);
        lemma_fundamental_div_mod(x as int, g as int);
        assert(g * below == below * g) by (nonlinear_arith);
        if k <= below {
            assert(k * g <= below * g) by (nonlinear_arith)
                requires
                    k <= below,
                    g > 0,
            ;
        } else {
            assert(k * g >= below * g + g) by (nonlinear_arith)
                requires
                    k >= below + 1,
                    g > 0,
            ;
        }
    } else {
        let rest = (189 - t) as nat;
        assert((10 * x) * pow10(rest) == x * pow10((190 - t) as nat)) by (nonlinear_arith)
            requires
                pow10((190 - t) as nat) == 10 * pow10(rest),
        ;
        lemma_search_shortest(10 * x, 10 * low, 10 * high, closed, t + 1, level, k);
        let deeper = (level - t - 1) as nat;
        assert((10 * low) * pow10(deeper) == low * pow10((level - t) as nat)) by (nonlinear_arith)
            requires
                pow10((level - t) as nat) == 10 * pow10(deeper),
        ;
        assert((10 * high) * pow10(deeper) == high * pow10((level - t) as nat))
            by (nonlinear_arith)
            requires
                pow10((level - t) as nat) == 10 * pow10(deeper),
        ;
    }
}

/// How far two numbers are apart.
pub open spec fn distance(a: int, b: int) -> int {
    if a < b {
        b - a
    } else {
        a - b
    }
}

/// Of the decimals in the interval that are on the grid of the decimal
/// found, none is nearer to the number, and none that is as near is greater.
pub proof fn lemma_search_nearest(x: nat, low: nat, high: nat, closed: bool, t: nat, k: nat)
    requires
        t <= 190,
        low < x < high,
        (x * pow10((190 - t) as nat)) % grid_step() == 0,
        in_interval(
            k * grid_step(),
            low * pow10((shortest_from(x, low, high, closed, t).1 - t) as nat),
            high * pow10((shortest_from(x, low, high, closed, t).1 - t) as nat),
            closed,
        ),
    ensures
        ({
            let found = shortest_from(x, low, high, closed, t);
            let scaled = x * pow10((found.1 - t) as nat);
            let there = distance((found.0 * grid_step()) as int, scaled as int);
            let here = distance((k * grid_step()) as int, scaled as int);
            here > there || (here == there && k <= found.0)
        }),
    decreases 190 - t,
{
    lemma_grid_step();
    lemma_search_ends(x, low, high, closed, t);
    let g = grid_step();
    let below = x / g;
    let a = below * g;
    let b = a + g;
    let found = shortest_from(x, low, high, closed, t);
    if found.1 == t {
        assert(low * 1 == low && high * 1 == high && x * 1 == x);
        lemma_fundamental_div_mod(x as int, g as int);
        assert(g * below == below * g) by (nonlinear_arith);
        assert((below + 1) * g == b) by (nonlinear_arith)
            requires
                b == below * g + g,
        ;
        if k <= below {
            assert(k * g <= below * g) by (nonlinear_arith)
                requires
                    k <= below,
                    g > 0,
            ;
            if k < below {
                assert(k * g < below * g) by (nonlinear_arith)
                    requires
                        k < below,
                        g > 0,
                ;
            }
        } else {
            assert(k * g >= below * g + g) by (nonlinear_arith)
                requires
                    k >= below + 1,
                    g > 0,
            ;
            if k > below + 1 {
                assert(k * g > below * g + g) by (nonlinear_arith)
                    requires
                        k >= below + 2,
                        g > 0,
                ;
            }
        }
    } else {
        let rest = (189 - t) as nat;
        assert((10 * x) * pow10(rest) == x * pow10((190 - t) as nat)) by (nonlinear_arith)
            requires
                pow10((190 - t) as nat) == 10 * pow10(rest),
        ;
        let deeper = (found.1 - t - 1) as nat;
        assert((10 * low) * pow10(deeper) == low * pow10((found.1 - t) as nat))
            by (nonlinear_arith)
            requires
                pow10((found.1 - t) as nat) == 10 * pow10(deeper),
        ;
        assert((10 * high) * pow10(deeper) == high * pow10((found.1 - t) as nat))
            by (nonlinear_arith)
            requires
                pow10((found.1 - t) as nat) == 10 * pow10(deeper),
        ;
        assert((10 * x) * pow10(deeper) == x * pow10((found.1 - t) as nat)) by (nonlinear_arith)
            requires
                pow10((found.1 - t) as nat) == 10 * pow10(deeper),
        ;
        lemma_search_nearest(10 * x, 10 * low, 10 * high, closed, t + 1, k);
    }
}

/// A finite binary32 number has less than 2^277 units.
pub proof fn lemma_single_units_bound(bits: u32)
    requires
        single_abs(bits) < 0x7f80_0000,
    ensures
        single_units(bits) < pow2(277),
        single_step(bits) <= pow2(253),
{
    let e = single_abs(bits) / 0x80_0000;
    let f = single_abs(bits) % 0x80_0000;
    lemma2_to64();
    lemma_pow2_pos(253);
    lemma_pow2_adds(24, 253);
    if e > 0 {
        if e - 1 < 253 {
            vstd::arithmetic::power2::lemma_pow2_strictly_increases((e - 1) as nat, 253);
        }
        lemma_pow2_pos((e - 1) as nat);
        assert((0x80_0000 + f) * pow2((e - 1) as nat) < 0x100_0000 * pow2(253))
            by (nonlinear_arith)
            requires
                0 <= f < 0x80_0000,
                0 < pow2((e - 1) as nat) <= pow2(253),
        ;
    } else {
        assert(f < 0x100_0000 * pow2(253)) by (nonlinear_arith)
            requires
                f < 0x80_0000,
                pow2(253) > 0,
        ;
    }
}

/// The step of the coarsest grid is more than two to the power 280.
pub proof fn lemma_grid_is_coarse()
    ensures
        pow2(280) < grid_step(),
{
    lemma2_to64();
    lemma_pow2_adds(64, 64);
    lemma_pow2_adds(1, 128);
    lemma_pow2_adds(151, 129);
    lemma_pow2_pos(151);
    assert(pow2(129) == 0x2_0000_0000_0000_0000_0000_0000_0000_0000) by (nonlinear_arith)
        requires
            pow2(129) == 2 * (pow2(64) * pow2(64)),
            pow2(64) == 0x1_0000_0000_0000_0000,
    ;
    lemma_pow10_adds(13, 13);
    lemma_pow10_adds(26, 13);
    assert(pow10(13) == 10_000_000_000_000) by {
        reveal_with_fuel(pow10, 14);
    }
    assert(pow10(39) == 1_000_000_000_000_000_000_000_000_000_000_000_000_000int)
        by (nonlinear_arith)
        requires
            pow10(39) == pow10(26) * pow10(13),
            pow10(26) == pow10(13) * pow10(13),
            pow10(13) == 10_000_000_000_000,
    ;
    assert(pow2(151) * pow2(129) < pow2(151) * pow10(39)) by (nonlinear_arith)
        requires
            pow2(129) < pow10(39),
            pow2(151) > 0,
    ;
}

/// A finite binary32 number other than zero lies strictly between the two
/// half-way points around it, and is a multiple of 10^-151: the search for
/// its shortest decimal starts as `lemma_search_ends`,
/// `lemma_search_shortest` and `lemma_search_nearest` ask.
pub proof fn lemma_single_interval(bits: u32)
    requires
        single_abs(bits) < 0x7f80_0000,
        !single_is_zero(bits),
    ensures
        0 < single_low(bits) < 4 * single_units(bits) < single_high(bits),
        ((4 * single_units(bits)) * pow10(190)) % grid_step() == 0,
{
    let x = 4 * single_units(bits);
    let e = single_abs(bits) / 0x80_0000;
    let g = grid_step();
    lemma_units_cover_step(bits);
    lemma_grid_step();
    if e > 0 {
        lemma_pow2_pos((e - 1) as nat);
    }
    assert((x * pow5(151)) * g == x * (pow5(151) * g)) by (nonlinear_arith);
    lemma_mod_multiples_basic((x * pow5(151)) as int, g as int);
}

/// What the text of a finite binary32 number other than zero is made of:
/// digits that do not end in zero, times a power of ten from 10^-151 to
/// 10^38, which make a decimal that lies between the two half-way points
/// around the number, so that it rounds to the number and to no other.
pub proof fn lemma_single_decimal(bits: u32)
    requires
        single_abs(bits) < 0x7f80_0000,
        !single_is_zero(bits),
    ensures
        single_decimal(bits).0 % 10 != 0,
        -151 <= single_decimal(bits).1 <= 38,
        in_interval(
            single_decimal(bits).0 * grid_step(),
            single_low(bits) * pow10((39 - single_decimal(bits).1) as nat),
            single_high(bits) * pow10((39 - single_decimal(bits).1) as nat),
            single_abs(bits) % 2 == 0,
        ),
{
    let x = 4 * single_units(bits);
    let low = single_low(bits);
    let high = single_high(bits);
    let closed = single_abs(bits) % 2 == 0;
    let g = grid_step();
    lemma_single_interval(bits);
    lemma_single_units_bound(bits);
    lemma_grid_is_coarse();
    lemma_search_ends(x, low, high, closed, 0);
    lemma_search_digits(x, low, high, closed, 0);
    // The coarsest grid holds no decimal in the interval: its first step
    // lies above the interval.
    lemma2_to64();
    lemma_pow2_adds(2, 277);
    lemma_pow2_adds(1, 253);
    lemma_pow2_adds(1, 279);
    lemma_pow2_strictly_increases(254, 279);
    assert(high < g);
    lemma_fundamental_div_mod_converse(x as int, g as int, 0, x as int);
    assert(x / g == 0);
    assert((x / g) * g == 0) by (nonlinear_arith)
        requires
            x / g == 0,
    ;
    assert((10 * x) * pow10(189) == x * pow10(190)) by (nonlinear_arith)
        requires
            pow10(190) == 10 * pow10(189),
    ;
    lemma_search_ends(10 * x, 10 * low, 10 * high, closed, 1);
    assert(shortest_from(x, low, high, closed, 0) == shortest_from(
        10 * x,
        10 * low,
        10 * high,
        closed,
        1,
    ));
}

/// Appends the digits of `text` from `from` up to `to` to those of `acc`.
pub fn append_digits(acc: BigNat, text: &Vec<char>, from: usize, to: usize) -> (r: BigNat)
    requires
        from <= to <= text.len(),
        forall|i: int| from <= i < to ==> is_digit_char(#[trigger] text[i]),
    ensures
        r@ == decimal_append(acc@, text@.subrange(from as int, to as int)),
{
    let mut cur = acc;
    let mut i: usize = from;
    while i < to
        invariant
            from <= i <= to <= text.len(),
            forall|j: int| from <= j < to ==> is_digit_char(#[trigger] text[j]),
            cur@ == decimal_append(acc@, text@.subrange(from as int, i as int)),
        decreases to - i,
    {
        let c: char = text[i];
        assert(is_digit_char(text[i as int]));
        let d: u64 = (c as u32 - 48) as u64;
        proof {
            let next = text@.subrange(from as int, i + 1);
            assert(next.drop_last() =~= text@.subrange(from as int, i as int));
            assert(next.last() == c);
        }
        cur = cur.times_ten().plus(&BigNat::from_u64(d));
        i += 1;
    }
    cur
}

/// Ten to the power `k`.
pub fn power_of_ten(k: usize) -> (r: BigNat)
    ensures
        r@ == pow10(k as nat),
        r@ > 0,
{
    let mut r = BigNat::from_u64(1);
    let mut i: usize = 0;
    while i < k
        invariant
            i <= k,
            r@ == pow10(i as nat),
            r@ > 0,
        decreases k - i,
    {
        r = r.times_ten();
        i += 1;
    }
    r
}

/// The binary64 number nearest to a literal: the digits of `text` from
/// `whole_from` up to `whole_to`, and as its fraction those from `frac_from`
/// up to `frac_to`.
pub fn double_of_literal(
    text: &Vec<char>,
    whole_from: usize,
    whole_to: usize,
    frac_from: usize,
    frac_to: usize,
) -> (r: u64)
    requires
        whole_from <= whole_to <= text.len(),
        frac_from <= frac_to <= text.len(),
        forall|i: int| whole_from <= i < whole_to ==> is_digit_char(#[trigger] text[i]),
        forall|i: int| frac_from <= i < frac_to ==> is_digit_char(#[trigger] text[i]),
    ensures
        r == literal_double(
            text@.subrange(whole_from as int, whole_to as int),
            text@.subrange(frac_from as int, frac_to as int),
        ),
{
    let whole = append_digits(BigNat::zero(), text, whole_from, whole_to);
    let all = append_digits(whole, text, frac_from, frac_to);
    let scale = power_of_ten(frac_to - frac_from);
    double_of_ratio(&all, &scale)
}

/// Appends the decimal digits of `n` to `out`.
pub fn push_u64_digits(out: &mut Vec<char>, n: u64)
    ensures
        final(out)@ == old(out)@ + nat_digits(n as nat),
    decreases n,
{
    if n >= 10 {
        push_u64_digits(out, n / 10);
    }
    let d: u8 = (n % 10) as u8;
    let c: char = (48 + d) as char;
    assert(c == digit_char((n % 10) as nat));
    out.push(c);
    proof {
        if n >= 10 {
            assert(final(out)@ =~= old(out)@ + nat_digits(n as nat));
        } else {
            assert(final(out)@ =~= old(out)@ + nat_digits(n as nat));
        }
    }
}

/// Appends the decimal digits of `n` to `out`.
fn push_big_digits(out: &mut Vec<char>, n: &BigNat)
    ensures
        final(out)@ == old(out)@ + nat_digits(n@),
    decreases n@,
{
    let ten = BigNat::from_u64(10);
    let (q, r) = n.div_rem(&ten);
    if ten.le(n) {
        push_big_digits(out, &q);
    }
    let d: u8 = r.to_u64() as u8;
    let c: char = (48 + d) as char;
    assert(c == digit_char(n@ % 10));
    out.push(c);
    proof {
        assert(final(out)@ =~= old(out)@ + nat_digits(n@));
    }
}

/// Appends `count` zeros to `out`.
fn push_zeros(out: &mut Vec<char>, count: usize)
    ensures
        final(out)@ == old(out)@ + zeros(count as nat),
{
    let mut i: usize = 0;
    assert(out@ =~= old(out)@ + zeros(0));
    while i < count
        invariant
            i <= count,
            out@ == old(out)@ + zeros(i as nat),
        decreases count - i,
    {
        out.push('0');
        i += 1;
        assert(out@ =~= old(out)@ + zeros(i as nat));
    }
}

/// Appends `src` from `from` up to `to` to `out`.
fn push_range(out: &mut Vec<char>, src: &Vec<char>, from: usize, to: usize)
    requires
        from <= to <= src.len(),
    ensures
        final(out)@ == old(out)@ + src@.subrange(from as int, to as int),
{
    let mut i: usize = from;
    assert(out@ =~= old(out)@ + src@.subrange(from as int, from as int));
    while i < to
        invariant
            from <= i <= to <= src.len(),
            out@ == old(out)@ + src@.subrange(from as int, i as int),
        decreases to - i,
    {
        out.push(src[i]);
        i += 1;
        assert(out@ =~= old(out)@ + src@.subrange(from as int, i as int));
    }
}

/// Appends plain decimal notation for `digits` times ten to the power
/// `exponent` to `out`.
fn push_decimal(out: &mut Vec<char>, digits: &BigNat, exponent: i64)
    requires
        -1000 <= exponent <= 1000,
    ensures
        final(out)@ == old(out)@ + decimal_text(digits@, exponent as int),
{
    let mut d: Vec<char> = Vec::new();
    push_big_digits(&mut d, digits);
    assert(d@ =~= nat_digits(digits@));
    if exponent >= 0 {
        push_range(out, &d, 0, d.len());
        push_zeros(out, exponent as usize);
        assert(d@.subrange(0, d.len() as int) =~= d@);
        assert(out@ =~= old(out)@ + (d@ + zeros(exponent as nat)));
    } else {
        let shift: usize = (-exponent) as usize;
        if d.len() > shift {
            let cut: usize = d.len() - shift;
            push_range(out, &d, 0, cut);
            out.push('.');
            push_range(out, &d, cut, d.len());
            assert(d@.subrange(0, cut as int) =~= d@.take(cut as int));
            assert(d@.subrange(cut as int, d.len() as int) =~= d@.skip(cut as int));
            assert(out@ =~= old(out)@ + (d@.take(cut as int) + seq!['.'] + d@.skip(cut as int)));
        } else {
            out.push('0');
            out.push('.');
            push_zeros(out, shift - d.len());
            push_range(out, &d, 0, d.len());
            assert(d@.subrange(0, d.len() as int) =~= d@);
            assert(out@ =~= old(out)@ + (seq!['0', '.'] + zeros((shift - d.len()) as nat) + d@));
        }
    }
}

/// The step of the coarsest decimal grid.
fn grid() -> (r: BigNat)
    ensures
        r@ == grid_step(),
        r@ > 0,
{
    let r = power_of_two(151).times(&power_of_ten(39));
    assert(r@ > 0) by (nonlinear_arith)
        requires
            r@ == pow2(151) * pow10(39),
            pow2(151) > 0,
            pow10(39) > 0,
    ;
    r
}

fn fits(y: &BigNat, low: &BigNat, high: &BigNat, closed: bool) -> (r: bool)
    ensures
        r == in_interval(y@, low@, high@, closed),
{
    if closed {
        low.le(y) && y.le(high)
    } else {
        low.lt(y) && y.lt(high)
    }
}

/// The shortest decimal in the interval, and of several the one nearest to
/// `x`: its digits and the level of its grid.
///
/// The quotient and the remainder of `x` times a power of ten by the step
/// of the grid are carried along from level to level, as in a long division.
fn shortest(x: &BigNat, low: &BigNat, high: &BigNat, closed: bool) -> (r: (BigNat, u32))
    ensures
        (r.0@, r.1 as nat) == shortest_from(x@, low@, high@, closed, 0),
        r.1 <= FINEST,
{
    let step = grid();
    let one = BigNat::from_u64(1);
    let mut mid = x.duplicate();
    let mut lower = low.duplicate();
    let mut upper = high.duplicate();
    let (mut below, mut rest) = mid.div_rem(&step);
    let mut t: u32 = 0;
    proof {
        lemma_fundamental_div_mod(mid@ as int, step@ as int);
        assert(step@ * below@ == below@ * step@) by (nonlinear_arith);
    }
    loop
        invariant
            t <= FINEST,
            step@ == grid_step(),
            step@ > 0,
            one@ == 1,
            below@ == mid@ / step@,
            rest@ == mid@ % step@,
            mid@ == below@ * step@ + rest@,
            shortest_from(mid@, lower@, upper@, closed, t as nat) == shortest_from(
                x@,
                low@,
                high@,
                closed,
                0,
            ),
        decreases FINEST - t,
    {
        let a = mid.minus(&rest);
        let b = a.plus(&step);
        let a_fits: bool = fits(&a, &lower, &upper, closed);
        let b_fits: bool = fits(&b, &lower, &upper, closed);
        let nearer_a: bool = rest.plus(&rest).lt(&step);
        if a_fits && (!b_fits || nearer_a) {
            return (below, t);
        }
        if b_fits {
            return (below.plus(&one), t);
        }
        if t >= FINEST {
            return (below, t);
        }
        let ghost before = below@;
        let ghost left = rest@;
        mid = mid.times_ten();
        lower = lower.times_ten();
        upper = upper.times_ten();
        below = below.times_ten();
        rest = rest.times_ten();
        t += 1;
        assert(mid@ == below@ * step@ + rest@) by (nonlinear_arith)
            requires
                mid@ == 10 * (before * step@ + left),
                below@ == 10 * before,
                rest@ == 10 * left,
        ;
        while step.le(&rest)
            invariant
                step@ > 0,
                one@ == 1,
                mid@ == below@ * step@ + rest@,
            decreases rest@,
        {
            let ghost q = below@;
            rest = rest.minus(&step);
            below = below.plus(&one);
            assert((q + 1) * step@ == q * step@ + step@) by (nonlinear_arith);
        }
        proof {
            lemma_fundamental_div_mod_converse(
                mid@ as int,
                step@ as int,
                below@ as int,
                rest@ as int,
            );
        }
    }
}

/// A finite binary32 number that is not a zero is at least one step large.
proof fn lemma_units_cover_step(bits: u32)
    requires
        !single_is_zero(bits),
    ensures
        single_units(bits) >= single_step(bits),
{
    let e = single_abs(bits) / 0x80_0000;
    let f = single_abs(bits) % 0x80_0000;
    if e > 0 {
        assert((0x80_0000 + f) * pow2((e - 1) as nat) >= pow2((e - 1) as nat))
            by (nonlinear_arith)
            requires
                f >= 0,
        ;
    }
}

/// A binary32 number as text.
pub fn single_to_text(bits: u32) -> (r: String)
    ensures
        r@ == single_text(bits),
{
    let a: u32 = bits % SINGLE_SIGN;
    let mut out: Vec<char> = Vec::new();
    proof {
        reveal_strlit("NaN");
        reveal_strlit("inf");
    }
    if a > SINGLE_INF {
        out.push('N');
        out.push('a');
        out.push('N');
        assert(out@ =~= "NaN"@);
        return string_of(&out);
    }
    if bits >= SINGLE_SIGN {
        out.push('-');
    }
    let ghost sign = out@;
    if a == SINGLE_INF {
        out.push('i');
        out.push('n');
        out.push('f');
        assert(out@ =~= sign + "inf"@);
    } else if a == 0 {
        out.push('0');
        assert(out@ =~= sign + seq!['0']);
    } else {
        let e: u32 = a / SINGLE_UNIT;
        let units = single_units_of(bits);
        let step = if e == 0 {
            BigNat::from_u64(1)
        } else {
            power_of_two((e - 1) as usize)
        };
        proof {
            lemma_units_cover_step(bits);
            vstd::arithmetic::power2::lemma2_to64();
        }
        let x = units.shl(2);
        let two_steps = step.plus(&step);
        let low = if a % SINGLE_UNIT == 0 && e > 1 {
            x.minus(&step)
        } else {
            x.minus(&two_steps)
        };
        let high = x.plus(&two_steps);
        let (digits, t) = shortest(&x, &low, &high, a % 2 == 0);
        let exponent: i64 = 39 - (t as i64);
        push_decimal(&mut out, &digits, exponent);
    }
    string_of(&out)
}

} // verus!
