//! Rounding a significand times a power of two.
//!
//! Sums, products and quotients of binary64 numbers are first had exactly, or
//! with a remainder that is known not to be zero, as a significand times a
//! power of two. This module rounds such a number to the nearest binary64
//! number.

use crate::double::{
    lemma_units_of_pattern, lemma_units_order, units_per_one, Double, INFINITY_MAGNITUDE, SIGN_BIT,
};
use crate::error::FinanceError;
use crate::powers::{bit_length, power_of_two};
use crate::reals::{lemma_product_sign, lemma_real_product, lemma_same_side};
use crate::rounding::{
    lemma_nearest_beyond, lemma_nearest_units, lemma_nearest_value, lemma_rounded_is, rounded,
    settle,
};
use vstd::arithmetic::div_mod::{lemma_fundamental_div_mod, lemma_mod_bound};
use vstd::arithmetic::power2::{
    lemma2_to64, lemma2_to64_rest, lemma_pow2_adds, lemma_pow2_pos, lemma_pow2_strictly_increases,
    lemma_pow2_unfold, pow2,
};
use vstd::prelude::*;

verus! {

/// The pattern of a magnitude with the sign bit.
fn with_sign(negative: bool, magnitude: u64) -> (number: Double)
    requires
        magnitude < 0x8000_0000_0000_0000,
    ensures
        number.sign() == negative,
        number.magnitude_bits() == magnitude,
        number.bits % 2 == magnitude % 2,
{
    if negative {
        assert(SIGN_BIT | magnitude == magnitude + 0x8000_0000_0000_0000) by (bit_vector)
            requires
                magnitude < 0x8000_0000_0000_0000u64,
        ;
        Double { bits: SIGN_BIT | magnitude }
    } else {
        Double { bits: magnitude }
    }
}

/// What `assemble` is given: `units` multiples of 2^-1074 lie from
/// `mantissa * 2^step` up to the next multiple of `2^step`, and `round_up`
/// tells on which side of the midpoint, or at the midpoint which of the two is
/// even.
pub(crate) open spec fn is_bracketed(
    mantissa: nat,
    step: nat,
    round_up: bool,
    units: real,
) -> bool {
    &&& mantissa < 0x20_0000_0000_0000
    &&& (step == 0 || mantissa >= 0x10_0000_0000_0000)
    &&& (mantissa * pow2(step)) as real <= units
    &&& units < ((mantissa + 1) * pow2(step)) as real
    &&& (units + units > ((2 * mantissa + 1) * pow2(step)) as real ==> round_up)
    &&& (units + units < ((2 * mantissa + 1) * pow2(step)) as real ==> !round_up)
    &&& (units + units == ((2 * mantissa + 1) * pow2(step)) as real ==> (round_up <==> mantissa % 2
        == 1))
}

/// Whether `target` is `units` multiples of 2^-1074 with the sign `negative`.
pub(crate) open spec fn is_in_units(target: real, negative: bool, units: real) -> bool {
    target * (units_per_one() as real) == (if negative {
        -units
    } else {
        units
    })
}

/// From the step 2046 on, a bracketed number rounds to an infinity.
proof fn lemma_rounds_beyond(
    negative: bool,
    mantissa: nat,
    step: nat,
    round_up: bool,
    units: real,
    target: real,
    top: Double,
)
    requires
        is_bracketed(mantissa, step, round_up, units),
        is_in_units(target, negative, units),
        step >= 2046,
        top.sign() == negative,
        top.magnitude_bits() == INFINITY_MAGNITUDE,
    ensures
        rounded(target, negative) == top,
{
    let scale = pow2(step);
    let plain = Double { bits: INFINITY_MAGNITUDE };
    lemma_units_of_pattern(0x10_0000_0000_0000, 2046);
    assert(plain.units() == 0x10_0000_0000_0000 * pow2(2046));
    if step > 2046 {
        lemma_pow2_strictly_increases(2046, step);
    }
    let least = pow2(2046);
    assert(0x10_0000_0000_0000 * least <= mantissa * scale) by (nonlinear_arith)
        requires
            least <= scale,
            0x10_0000_0000_0000 <= mantissa,
    ;
    lemma_units_order(top, plain);
    assert(units >= top.units() as real);
    lemma_nearest_beyond(plain, units);
    lemma_nearest_value(top, negative, units, target);
    lemma_rounded_is(target, negative, top);
}

/// Below the step 2046, a bracketed number rounds to the pattern of its
/// mantissa and step, or to the next pattern.
proof fn lemma_rounds_within(
    negative: bool,
    mantissa: nat,
    step: nat,
    round_up: bool,
    units: real,
    target: real,
    pick: Double,
)
    requires
        is_bracketed(mantissa, step, round_up, units),
        is_in_units(target, negative, units),
        step < 2046,
        pick.sign() == negative,
        pick.magnitude_bits() == step * 0x10_0000_0000_0000 + mantissa + (if round_up {
            1nat
        } else {
            0nat
        }),
    ensures
        rounded(target, negative) == pick,
{
    let scale = pow2(step);
    let low_bits = step * 0x10_0000_0000_0000 + mantissa;
    let low = Double { bits: low_bits as u64 };
    let high = Double { bits: (low_bits + 1) as u64 };
    let plain = if round_up {
        high
    } else {
        low
    };
    lemma_units_of_pattern(mantissa, step);
    lemma_units_of_pattern(mantissa + 1, step);
    assert(low.units() + high.units() == (2 * mantissa + 1) * scale) by (nonlinear_arith)
        requires
            low.units() == mantissa * scale,
            high.units() == (mantissa + 1) * scale,
    ;
    assert(plain.bits % 2 == 0 <==> (round_up <==> mantissa % 2 == 1));
    lemma_nearest_units(low, high, plain, units);
    lemma_units_order(pick, plain);
    assert(pick.bits % 2 == plain.bits % 2);
    lemma_nearest_value(pick, negative, units, target);
    lemma_rounded_is(target, negative, pick);
}

/// Rounds a bracketed number of multiples of 2^-1074.
fn assemble(
    negative: bool,
    mantissa: u64,
    step: u64,
    round_up: bool,
    Ghost(units): Ghost<real>,
    Ghost(target): Ghost<real>,
) -> (outcome: Result<Double, FinanceError>)
    requires
        is_bracketed(mantissa as nat, step as nat, round_up, units),
        is_in_units(target, negative, units),
    ensures
        outcome == settle(rounded(target, negative)),
{
    if step >= 2046 {
        let top = with_sign(negative, INFINITY_MAGNITUDE);
        proof {
            lemma_rounds_beyond(
                negative,
                mantissa as nat,
                step as nat,
                round_up,
                units,
                target,
                top,
            );
        }
        return Err(FinanceError::InvalidDomain);
    }
    let low_bits: u64 = step * 0x10_0000_0000_0000 + mantissa;
    let pick_bits: u64 = if round_up {
        low_bits + 1
    } else {
        low_bits
    };
    let pick = with_sign(negative, pick_bits);
    proof {
        lemma_rounds_within(negative, mantissa as nat, step as nat, round_up, units, target, pick);
    }
    if pick_bits >= INFINITY_MAGNITUDE {
        Err(FinanceError::InvalidDomain)
    } else {
        Ok(pick)
    }
}

/// The part of an exponent that multiplies.
pub(crate) open spec fn lift(exponent: int) -> nat {
    if exponent >= 0 {
        exponent as nat
    } else {
        0
    }
}

/// The part of an exponent that divides.
pub(crate) open spec fn sink(exponent: int) -> nat {
    if exponent < 0 {
        (-exponent) as nat
    } else {
        0
    }
}

/// Whether `units` is `x` times two to the power of `exponent`.
pub(crate) open spec fn is_scaled(units: real, x: real, exponent: int) -> bool {
    units * (pow2(sink(exponent)) as real) == x * (pow2(lift(exponent)) as real)
}

/// Whether `whole` is the whole part of `x`, and `inexact` tells whether
/// anything is left of `x` beyond it.
pub(crate) open spec fn is_whole_part(whole: int, inexact: bool, x: real) -> bool {
    &&& whole as real <= x < (whole + 1) as real
    &&& inexact <==> x != whole as real
}

/// A significand that needs no rounding, moved up by `shift` bits, is
/// bracketed without a remainder.
proof fn lemma_bracket_exact(whole: int, exponent: nat, shift: nat, units: real)
    requires
        whole >= 0,
        is_scaled(units, whole as real, exponent as int),
        shift <= exponent,
        (whole as nat) * pow2(shift) < 0x20_0000_0000_0000,
        shift == exponent || (whole as nat) * pow2(shift) >= 0x10_0000_0000_0000,
    ensures
        is_bracketed((whole as nat) * pow2(shift), (exponent - shift) as nat, false, units),
{
    let significand = whole as nat;
    lemma_bracket_exact_nat(significand, exponent, shift, units);
}

/// The same, of a significand that is known not to be negative.
proof fn lemma_bracket_exact_nat(significand: nat, exponent: nat, shift: nat, units: real)
    requires
        is_scaled(units, (significand as int) as real, exponent as int),
        shift <= exponent,
        significand * pow2(shift) < 0x20_0000_0000_0000,
        shift == exponent || significand * pow2(shift) >= 0x10_0000_0000_0000,
    ensures
        is_bracketed(significand * pow2(shift), (exponent - shift) as nat, false, units),
{
    let mantissa = significand * pow2(shift);
    let step = (exponent - shift) as nat;
    let scale = pow2(step);
    let whole = pow2(exponent);
    lemma2_to64();
    lemma_pow2_pos(step);
    lemma_pow2_adds(shift, step);
    lemma_real_product(significand as int, whole as int);
    assert((significand as int) as real == significand as real);
    let unit = pow2(sink(exponent as int)) as real;
    assert(units * unit == units) by (nonlinear_arith)
        requires
            unit == 1real,
    ;
    assert(units == (significand * whole) as real);
    assert(mantissa * scale == significand * whole) by (nonlinear_arith)
        requires
            mantissa == significand * pow2(shift),
            whole == pow2(shift) * scale,
    ;
    assert((mantissa + 1) * scale == mantissa * scale + scale) by (nonlinear_arith);
    assert((2 * mantissa + 1) * scale == 2 * (mantissa * scale) + scale) by (nonlinear_arith);
}

/// What lies 128 bits or more below the grid of the binary64 numbers is
/// bracketed by zero and rounds down.
proof fn lemma_bracket_tiny(exponent: int, x: real, units: real)
    requires
        is_scaled(units, x, exponent),
        exponent <= -128,
        0real <= x < 0x8000_0000_0000_0000_0000_0000_0000_0000 as real,
    ensures
        is_bracketed(0, 0, false, units),
{
    let down = pow2(sink(exponent)) as real;
    lemma2_to64();
    lemma_pow2_adds(64, 64);
    if sink(exponent) > 128 {
        lemma_pow2_strictly_increases(128, sink(exponent));
    }
    assert(down >= 0x1_0000_0000_0000_0000_0000_0000_0000_0000 as real);
    let unit = pow2(lift(exponent)) as real;
    assert(x * unit == x) by (nonlinear_arith)
        requires
            unit == 1real,
    ;
    assert(units * down == x);
    lemma_product_sign(units, down);
    lemma_product_sign(units + units - 1real, down);
    assert((units + units - 1real) * down == x + x - down) by (nonlinear_arith)
        requires
            units * down == x,
    ;
    assert(0 * pow2(0) == 0 && 1 * pow2(0) == 1);
}

/// A significand of which `drop` low bits are dropped is bracketed by what
/// is left, and rounds up by what was dropped.
proof fn lemma_bracket_rounded(
    significand: nat,
    exponent: int,
    drop: nat,
    inexact: bool,
    round_up: bool,
    x: real,
    units: real,
)
    requires
        is_scaled(units, x, exponent),
        is_whole_part(significand as int, inexact, x),
        drop >= 1,
        exponent + drop >= 0,
        significand / pow2(drop) < 0x20_0000_0000_0000,
        exponent + drop == 0 || significand / pow2(drop) >= 0x10_0000_0000_0000,
        round_up <==> {
            let rest = significand % pow2(drop);
            let half = pow2((drop - 1) as nat);
            rest > half || (rest == half && (inexact || (significand / pow2(drop)) % 2 == 1))
        },
    ensures
        is_bracketed(significand / pow2(drop), (exponent + drop) as nat, round_up, units),
{
    let divisor = pow2(drop);
    let half = pow2((drop - 1) as nat);
    let mantissa = significand / divisor;
    let rest = significand % divisor;
    let step = (exponent + drop) as nat;
    let scale = pow2(step);
    let up = pow2(lift(exponent));
    let down = pow2(sink(exponent));
    lemma_pow2_pos(drop);
    lemma_pow2_pos(step);
    lemma_pow2_pos(lift(exponent));
    lemma_pow2_pos(sink(exponent));
    lemma_pow2_unfold(drop);
    lemma_fundamental_div_mod(significand as int, divisor as int);
    lemma_mod_bound(significand as int, divisor as int);
    lemma_pow2_adds(drop, lift(exponent));
    lemma_pow2_adds(step, sink(exponent));
    assert(divisor * up == scale * down);
    lemma_real_product(divisor as int, up as int);
    lemma_real_product(scale as int, down as int);
    // The marks `mantissa`, `mantissa + 1` and, doubled, the midpoint.
    lemma_real_product(mantissa as int, divisor as int);
    lemma_real_product(mantissa as int, scale as int);
    lemma_real_product((mantissa + 1) as int, divisor as int);
    lemma_real_product((mantissa + 1) as int, scale as int);
    lemma_real_product((2 * mantissa + 1) as int, divisor as int);
    lemma_real_product((2 * mantissa + 1) as int, scale as int);
    lemma_same_side(
        x,
        units,
        mantissa as real,
        divisor as real,
        scale as real,
        up as real,
        down as real,
    );
    lemma_same_side(
        x,
        units,
        (mantissa + 1) as real,
        divisor as real,
        scale as real,
        up as real,
        down as real,
    );
    assert((units + units) * (down as real) == (x + x) * (up as real)) by (nonlinear_arith)
        requires
            units * (down as real) == x * (up as real),
    ;
    lemma_same_side(
        x + x,
        units + units,
        (2 * mantissa + 1) as real,
        divisor as real,
        scale as real,
        up as real,
        down as real,
    );
    assert((mantissa + 1) * divisor == mantissa * divisor + divisor) by (nonlinear_arith);
    assert((2 * mantissa + 1) * divisor == 2 * (mantissa * divisor) + 2 * half) by (nonlinear_arith)
        requires
            divisor == 2 * half,
    ;
    assert(significand == mantissa * divisor + rest) by (nonlinear_arith)
        requires
            significand == divisor * mantissa + rest,
    ;
}

/// What is left of a number of `length` bits after `drop` bits are dropped
/// has at most `length - drop` bits, and no fewer where the number has no
/// fewer.
proof fn lemma_dropped_bounds(significand: nat, length: nat, drop: nat)
    requires
        length >= 1,
        pow2((length - 1) as nat) <= significand < pow2(length),
        drop + 53 >= length,
    ensures
        significand / pow2(drop) < 0x20_0000_0000_0000,
        drop + 53 == length ==> significand / pow2(drop) >= 0x10_0000_0000_0000,
{
    let divisor = pow2(drop);
    let mantissa = significand / divisor;
    let rest = significand % divisor;
    lemma2_to64_rest();
    lemma_pow2_pos(drop);
    lemma_fundamental_div_mod(significand as int, divisor as int);
    lemma_mod_bound(significand as int, divisor as int);
    lemma_pow2_adds(drop, 53);
    if length < drop + 53 {
        lemma_pow2_strictly_increases(length, drop + 53);
    }
    assert(mantissa < 0x20_0000_0000_0000) by (nonlinear_arith)
        requires
            divisor * mantissa + rest < divisor * 0x20_0000_0000_0000,
            rest >= 0,
            divisor > 0,
    ;
    if drop + 53 == length {
        lemma_pow2_adds(drop, 52);
        assert(mantissa >= 0x10_0000_0000_0000) by (nonlinear_arith)
            requires
                divisor * mantissa + rest >= divisor * 0x10_0000_0000_0000,
                rest < divisor,
                divisor > 0,
        ;
    }
}

/// A number of `length` bits that is moved up by `shift` bits has
/// `length + shift` bits.
proof fn lemma_raised_bounds(significand: nat, length: nat, shift: nat)
    requires
        length >= 1,
        pow2((length - 1) as nat) <= significand < pow2(length),
        length + shift <= 53,
    ensures
        significand * pow2(shift) < 0x20_0000_0000_0000,
        length + shift == 53 ==> significand * pow2(shift) >= 0x10_0000_0000_0000,
{
    let factor = pow2(shift);
    lemma2_to64_rest();
    lemma_pow2_pos(shift);
    lemma_pow2_adds(length, shift);
    lemma_pow2_adds((length - 1) as nat, shift);
    if length + shift < 53 {
        lemma_pow2_strictly_increases(length + shift, 53);
    }
    let above = pow2(length);
    let below = pow2((length - 1) as nat);
    assert(significand * factor < above * factor) by (nonlinear_arith)
        requires
            significand < above,
            factor > 0,
    ;
    assert(below * factor <= significand * factor) by (nonlinear_arith)
        requires
            below <= significand,
            factor > 0,
    ;
}

/// Rounds a significand of at most 53 bits times a power of two that is not
/// below a unit: nothing is lost.
fn round_exact(
    negative: bool,
    significand: u128,
    exponent: i64,
    length: i64,
    Ghost(units): Ghost<real>,
    Ghost(target): Ghost<real>,
) -> (outcome: Result<Double, FinanceError>)
    requires
        1 <= length <= 53,
        pow2((length - 1) as nat) <= significand < pow2(length as nat),
        0 <= exponent <= 20000,
        is_scaled(units, (significand as int) as real, exponent as int),
        is_in_units(target, negative, units),
    ensures
        outcome == settle(rounded(target, negative)),
{
    let room: i64 = 53 - length;
    let shift: i64 = if room < exponent {
        room
    } else {
        exponent
    };
    let factor = power_of_two(shift as u32);
    proof {
        lemma_raised_bounds(significand as nat, length as nat, shift as nat);
        lemma_bracket_exact(significand as int, exponent as nat, shift as nat, units);
    }
    let mantissa: u64 = (significand * factor) as u64;
    let step: u64 = (exponent - shift) as u64;
    assemble(negative, mantissa, step, false, Ghost(units), Ghost(target))
}

/// Rounds a significand times a power of two of which `drop` low bits do
/// not fit the binary64 numbers.
fn round_dropping(
    negative: bool,
    significand: u128,
    exponent: i64,
    inexact: bool,
    length: i64,
    drop: i64,
    Ghost(x): Ghost<real>,
    Ghost(units): Ghost<real>,
    Ghost(target): Ghost<real>,
) -> (outcome: Result<Double, FinanceError>)
    requires
        1 <= length <= 127,
        pow2((length - 1) as nat) <= significand < pow2(length as nat),
        -20000 <= exponent <= 20000,
        1 <= drop <= 127,
        drop + 53 >= length,
        exponent + drop >= 0,
        drop + 53 == length || exponent + drop == 0,
        is_whole_part(significand as int, inexact, x),
        is_scaled(units, x, exponent as int),
        is_in_units(target, negative, units),
    ensures
        outcome == settle(rounded(target, negative)),
{
    let divisor = power_of_two(drop as u32);
    proof {
        lemma_pow2_pos(drop as nat);
        lemma_pow2_unfold(drop as nat);
    }
    let half = divisor / 2;
    let mantissa = significand / divisor;
    let rest = significand % divisor;
    let round_up = rest > half || (rest == half && (inexact || mantissa % 2 == 1));
    proof {
        lemma_dropped_bounds(significand as nat, length as nat, drop as nat);
        let whole = significand as nat;
        assert(whole / pow2(drop as nat) < 0x20_0000_0000_0000);
        assert(exponent + drop == 0 || whole / pow2(drop as nat) >= 0x10_0000_0000_0000);
        assert(round_up <==> {
            let rest = whole % pow2(drop as nat);
            let half = pow2((drop as nat - 1) as nat);
            rest > half || (rest == half && (inexact || (whole / pow2(drop as nat)) % 2 == 1))
        });
        lemma_bracket_rounded(whole, exponent as int, drop as nat, inexact, round_up, x, units);
    }
    let step: u64 = (exponent + drop) as u64;
    assemble(negative, mantissa as u64, step, round_up, Ghost(units), Ghost(target))
}

/// Rounds `x` times two to the power of `exponent`, in multiples of 2^-1074,
/// to the nearest binary64 number. Of `x` the whole part is given, and
/// whether anything is left beyond it.
pub(crate) fn round_scaled(
    negative: bool,
    significand: u128,
    exponent: i64,
    inexact: bool,
    Ghost(x): Ghost<real>,
    Ghost(units): Ghost<real>,
    Ghost(target): Ghost<real>,
) -> (outcome: Result<Double, FinanceError>)
    requires
        significand < 0x8000_0000_0000_0000_0000_0000_0000_0000,
        inexact ==> significand >= 0x8000_0000_0000_0000,
        -20000 <= exponent <= 20000,
        is_whole_part(significand as int, inexact, x),
        is_scaled(units, x, exponent as int),
        is_in_units(target, negative, units),
    ensures
        outcome == settle(rounded(target, negative)),
{
    if significand == 0 {
        proof {
            let up = pow2(lift(exponent as int)) as real;
            let down = pow2(sink(exponent as int)) as real;
            lemma_pow2_pos(sink(exponent as int));
            assert(x * up == 0real) by (nonlinear_arith)
                requires
                    x == 0real,
            ;
            lemma_product_sign(units, down);
            lemma2_to64();
            assert(0 * pow2(0) == 0 && 1 * pow2(0) == 1);
        }
        return assemble(negative, 0, 0, false, Ghost(units), Ghost(target));
    }
    let bits = bit_length(significand);
    let length: i64 = bits as i64;
    let width_drop: i64 = length - 53;
    let grid_drop: i64 = -exponent;
    let drop: i64 = if width_drop > grid_drop {
        width_drop
    } else {
        grid_drop
    };
    if drop <= 0 {
        proof {
            lemma2_to64_rest();
            if length < 63 {
                lemma_pow2_strictly_increases(length as nat, 63);
            }
            assert(!inexact);
        }
        round_exact(negative, significand, exponent, length, Ghost(units), Ghost(target))
    } else if drop >= 128 {
        proof {
            lemma_bracket_tiny(exponent as int, x, units);
        }
        assemble(negative, 0, 0, false, Ghost(units), Ghost(target))
    } else {
        round_dropping(
            negative,
            significand,
            exponent,
            inexact,
            length,
            drop,
            Ghost(x),
            Ghost(units),
            Ghost(target),
        )
    }
}

} // verus!
