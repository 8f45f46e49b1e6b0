//! Sums, differences, products and quotients of binary64 numbers, each
//! rounded to the nearest binary64 number, ties to the even pattern.
//!
//! These are the operations of IEEE 754 on real numbers. Where an operand is
//! not a real number, or the rounding is none, there is no result.

use crate::double::{
    lemma_units_split, lemma_units_zero, lemma_value_by_units, lemma_value_in_units,
    units_per_one, Double,
};
use crate::error::FinanceError;
use crate::powers::{bit_length, power_of_two};
use crate::reals::{
    lemma_cancel, lemma_product_sign, lemma_real_product, lemma_rescaled, lemma_sign_of_product,
    lemma_sign_of_quotient,
};
use crate::rounding::{
    lemma_exact_rounding, lemma_rounding_exists, rounded, rounds_to, settle,
};
use crate::scaled::{is_in_units, is_scaled, is_whole_part, lift, round_scaled, sink};
use vstd::arithmetic::div_mod::{
    lemma_basic_div, lemma_fundamental_div_mod, lemma_mod_bound, lemma_small_mod,
};
use vstd::arithmetic::power2::{
    lemma2_to64, lemma2_to64_rest, lemma_pow2_adds, lemma_pow2_pos, lemma_pow2_strictly_increases,
    lemma_pow2_unfold, pow2,
};
use vstd::prelude::*;

verus! {

/// The sign bit of a sum: that of its exact value, and where that is zero,
/// set only when both numbers bear it.
pub open spec fn sum_sign(a: Double, b: Double) -> bool {
    let exact = a.value() + b.value();
    if exact == 0real {
        a.sign() && b.sign()
    } else {
        exact < 0real
    }
}

/// The sum of two real numbers, rounded.
#[verifier::opaque]
pub open spec fn sum(a: Double, b: Double) -> Result<Double, FinanceError> {
    if a.is_real() && b.is_real() {
        settle(rounded(a.value() + b.value(), sum_sign(a, b)))
    } else {
        Err(FinanceError::InvalidDomain)
    }
}

/// The difference of two real numbers, rounded: the sum with the second
/// number negated.
pub open spec fn difference(a: Double, b: Double) -> Result<Double, FinanceError> {
    sum(a, b.negated())
}

/// The product of two real numbers, rounded. Its sign bit is set when the
/// sign bits of the factors differ.
#[verifier::opaque]
pub open spec fn product(a: Double, b: Double) -> Result<Double, FinanceError> {
    if a.is_real() && b.is_real() {
        settle(rounded(a.value() * b.value(), a.sign() != b.sign()))
    } else {
        Err(FinanceError::InvalidDomain)
    }
}

/// The quotient of two real numbers, rounded. The divisor must not be zero.
/// The sign bit of the quotient is set when the sign bits of the two differ.
#[verifier::opaque]
pub open spec fn quotient(a: Double, b: Double) -> Result<Double, FinanceError> {
    if a.is_real() && b.is_real() && b.value() != 0real {
        settle(rounded(a.value() / b.value(), a.sign() != b.sign()))
    } else {
        Err(FinanceError::InvalidDomain)
    }
}

/// The quotient of a real number by a power, which may be an infinity. By an
/// infinity the quotient is zero, with the sign bit set when the sign bits of
/// the two differ; by any other number it is the quotient as above.
pub open spec fn quotient_by_power(a: Double, power: Double) -> Result<Double, FinanceError> {
    if a.is_real() && power.is_infinite() {
        Ok(Double::signed_zero(a.sign() != power.sign()))
    } else {
        quotient(a, power)
    }
}

/// The sum of two results, where both are there.
pub open spec fn sum_of(
    a: Result<Double, FinanceError>,
    b: Result<Double, FinanceError>,
) -> Result<Double, FinanceError> {
    match (a, b) {
        (Ok(x), Ok(y)) => sum(x, y),
        _ => Err(FinanceError::InvalidDomain),
    }
}

/// The difference of two results, where both are there.
pub open spec fn difference_of(
    a: Result<Double, FinanceError>,
    b: Result<Double, FinanceError>,
) -> Result<Double, FinanceError> {
    match (a, b) {
        (Ok(x), Ok(y)) => difference(x, y),
        _ => Err(FinanceError::InvalidDomain),
    }
}

/// The product of two results, where both are there.
pub open spec fn product_of(
    a: Result<Double, FinanceError>,
    b: Result<Double, FinanceError>,
) -> Result<Double, FinanceError> {
    match (a, b) {
        (Ok(x), Ok(y)) => product(x, y),
        _ => Err(FinanceError::InvalidDomain),
    }
}

/// The quotient of two results, where both are there.
pub open spec fn quotient_of(
    a: Result<Double, FinanceError>,
    b: Result<Double, FinanceError>,
) -> Result<Double, FinanceError> {
    match (a, b) {
        (Ok(x), Ok(y)) => quotient(x, y),
        _ => Err(FinanceError::InvalidDomain),
    }
}

/// Where a sum, a difference, a product or a quotient has no result, the
/// reason given is that the inputs lie outside the domain.
pub proof fn lemma_one_reason(a: Double, b: Double)
    ensures
        sum(a, b) is Err ==> sum(a, b) == Err::<Double, FinanceError>(FinanceError::InvalidDomain),
        difference(a, b) is Err ==> difference(a, b) == Err::<Double, FinanceError>(
            FinanceError::InvalidDomain,
        ),
        product(a, b) is Err ==> product(a, b) == Err::<Double, FinanceError>(
            FinanceError::InvalidDomain,
        ),
        quotient(a, b) is Err ==> quotient(a, b) == Err::<Double, FinanceError>(
            FinanceError::InvalidDomain,
        ),
        quotient_by_power(a, b) is Err ==> quotient_by_power(a, b) == Err::<
            Double,
            FinanceError,
        >(FinanceError::InvalidDomain),
{
    reveal(sum);
    reveal(product);
    reveal(quotient);
}

/// What a sum, a product or a quotient yields is a real number, and it is
/// the rounding of the exact sum, product or quotient: no candidate lies
/// nearer to it.
pub proof fn lemma_results_are_roundings(a: Double, b: Double)
    ensures
        sum(a, b) matches Ok(result) ==> result.is_real() && rounds_to(
            a.value() + b.value(),
            sum_sign(a, b),
            result,
        ),
        product(a, b) matches Ok(result) ==> result.is_real() && rounds_to(
            a.value() * b.value(),
            a.sign() != b.sign(),
            result,
        ),
        quotient(a, b) matches Ok(result) ==> result.is_real() && rounds_to(
            a.value() / b.value(),
            a.sign() != b.sign(),
            result,
        ),
{
    reveal(sum);
    reveal(product);
    reveal(quotient);
    lemma_value_by_units(a);
    lemma_value_by_units(b);
    if a.is_real() && b.is_real() {
        lemma_rounding_exists(a.value() + b.value(), sum_sign(a, b));
        lemma_sign_of_product(a.value(), b.value());
        lemma_rounding_exists(a.value() * b.value(), a.sign() != b.sign());
        if b.value() != 0real {
            lemma_sign_of_quotient(a.value(), b.value());
            lemma_rounding_exists(a.value() / b.value(), a.sign() != b.sign());
        }
    }
}

/// With zero, a product and a quotient are zero.
pub proof fn lemma_zero_stays_zero(a: Double, b: Double)
    requires
        a.is_real(),
        b.is_real(),
        a.value() == 0real,
    ensures
        product(a, b) matches Ok(result) && result.value() == 0real,
        b.value() != 0real ==> (quotient(a, b) matches Ok(result) && result.value() == 0real),
{
    reveal(product);
    reveal(quotient);
    let negative = a.sign() != b.sign();
    let zero = Double {
        bits: if negative {
            0x8000_0000_0000_0000u64
        } else {
            0u64
        },
    };
    lemma_value_by_units(zero);
    lemma_exact_rounding(zero);
    lemma_sign_of_product(a.value(), b.value());
    if b.value() != 0real {
        lemma_sign_of_quotient(a.value(), b.value());
    }
}

impl Double {
    /// The product with `other`, rounded.
    pub fn times(self, other: Double) -> (outcome: Result<Double, FinanceError>)
        ensures
            outcome == product(self, other),
            outcome is Err ==> outcome == Err::<Double, FinanceError>(FinanceError::InvalidDomain),
    {
        reveal(product);
        if !self.is_real() || !other.is_real() {
            return Err(FinanceError::InvalidDomain);
        }
        let (own, own_step) = self.split();
        let (others, others_step) = other.split();
        let negative = self.sign_is_set() != other.sign_is_set();
        proof {
            assert(own * others < 0x20_0000_0000_0000 * 0x20_0000_0000_0000) by (nonlinear_arith)
                requires
                    own < 0x20_0000_0000_0000,
                    others < 0x20_0000_0000_0000,
            ;
        }
        let significand: u128 = (own as u128) * (others as u128);
        let exponent: i64 = own_step as i64 + others_step as i64 - 1074;
        let ghost exact = (self.units() * other.units()) as real;
        let ghost units = exact / (units_per_one() as real);
        proof {
            let one = units_per_one() as real;
            lemma_pow2_pos(1074);
            assert((exact / one) * one == exact) by (nonlinear_arith)
                requires
                    one > 0real,
            ;
            lemma_product_scaled(self, other, units);
            lemma_product_in_units(self, other, units);
            assert(significand == self.significand() * other.significand());
        }
        round_scaled(
            negative,
            significand,
            exponent,
            false,
            Ghost((significand as int) as real),
            Ghost(units),
            Ghost(self.value() * other.value()),
        )
    }

    /// The quotient by `other`, rounded.
    pub fn divided_by(self, other: Double) -> (outcome: Result<Double, FinanceError>)
        ensures
            outcome == quotient(self, other),
            outcome is Err ==> outcome == Err::<Double, FinanceError>(FinanceError::InvalidDomain),
    {
        reveal(quotient);
        if !self.is_real() || !other.is_real() || other.is_zero() {
            return Err(FinanceError::InvalidDomain);
        }
        let (own, own_step) = self.split();
        let (others, others_step) = other.split();
        let negative = self.sign_is_set() != other.sign_is_set();
        let ghost units = ((self.units() as real) * (units_per_one() as real)) / (
        other.units() as real);
        let ghost target = self.value() / other.value();
        proof {
            lemma_divisor_counts(other);
            lemma_quotient_units(self, other, units);
            lemma_quotient_in_units(self, other, units);
        }
        if own == 0 {
            let ghost x = ((0 * pow2(0)) as real) / ((others as int) as real);
            proof {
                lemma_quotient_scaled(self, other, 0, units);
                lemma_quotient_whole_part(0, others as int);
                assert(0 * pow2(0) == 0) by (nonlinear_arith);
                assert(is_whole_part(0, false, x));
                assert(is_scaled(units, x, own_step + 1074 - others_step));
            }
            return round_scaled(
                negative,
                0,
                own_step as i64 + 1074 - others_step as i64,
                false,
                Ghost(x),
                Ghost(units),
                Ghost(target),
            );
        }
        let length = bit_length(own as u128);
        proof {
            lemma_short_length(own as nat, length as nat);
        }
        let shift: u32 = 127 - length;
        let factor = power_of_two(shift);
        proof {
            lemma_raised_to_top(own as nat, length as nat, shift as nat);
        }
        let numerator: u128 = (own as u128) * factor;
        let whole = numerator / (others as u128);
        let rest = numerator % (others as u128);
        let exponent: i64 = own_step as i64 + 1074 - others_step as i64 - shift as i64;
        let ghost x = ((numerator as int) as real) / ((others as int) as real);
        proof {
            assert(0x8000_0000_0000_0000 <= whole < 0x8000_0000_0000_0000_0000_0000_0000_0000)
                by {
                lemma_quotient_is_long(numerator as int, others as int);
            }
            assert(is_whole_part(whole as int, rest != 0, x)) by {
                lemma_quotient_whole_part(numerator as int, others as int);
            }
            assert(is_scaled(units, x, exponent as int)) by {
                lemma_quotient_scaled(self, other, shift as nat, units);
            }
        }
        round_scaled(negative, whole, exponent, rest != 0, Ghost(x), Ghost(units), Ghost(target))
    }

    /// The quotient by `power`, which may be an infinity: then the quotient
    /// is zero.
    pub fn divided_by_power(self, power: Double) -> (outcome: Result<Double, FinanceError>)
        ensures
            outcome == quotient_by_power(self, power),
            outcome is Err ==> outcome == Err::<Double, FinanceError>(FinanceError::InvalidDomain),
    {
        if self.is_real() && power.is_infinite() {
            Ok(Double::signed_zero(self.sign_is_set() != power.sign_is_set()))
        } else {
            self.divided_by(power)
        }
    }

    /// The sum with `other`, rounded.
    pub fn plus(self, other: Double) -> (outcome: Result<Double, FinanceError>)
        ensures
            outcome == sum(self, other),
            outcome is Err ==> outcome == Err::<Double, FinanceError>(FinanceError::InvalidDomain),
    {
        reveal(sum);
        if !self.is_real() || !other.is_real() {
            return Err(FinanceError::InvalidDomain);
        }
        let (_, own_step) = self.split();
        let (_, others_step) = other.split();
        if own_step >= others_step {
            sum_in_order(self, other)
        } else {
            sum_in_order(other, self)
        }
    }

    /// The difference to `other`, rounded.
    pub fn minus(self, other: Double) -> (outcome: Result<Double, FinanceError>)
        ensures
            outcome == difference(self, other),
            outcome is Err ==> outcome == Err::<Double, FinanceError>(FinanceError::InvalidDomain),
    {
        self.plus(other.negate())
    }
}

/// The sum of two real numbers of which the first has no smaller step.
fn sum_in_order(first: Double, second: Double) -> (outcome: Result<Double, FinanceError>)
    requires
        first.is_real(),
        second.is_real(),
        first.step() >= second.step(),
    ensures
        outcome == sum(first, second),
        outcome == sum(second, first),
        outcome is Err ==> outcome == Err::<Double, FinanceError>(FinanceError::InvalidDomain),
{
    reveal(sum);
    let (high, high_step) = first.split();
    let (low, low_step) = second.split();
    let first_negative = first.sign_is_set();
    let second_negative = second.sign_is_set();
    let gap = high_step - low_step;
    let raise: u64 = if gap < 74 {
        gap
    } else {
        74
    };
    let lower: u64 = gap - raise;
    let factor = power_of_two(raise as u32);
    proof {
        lemma2_to64();
        lemma2_to64_rest();
        lemma_pow2_adds(64, 10);
        if raise < 74 {
            lemma_pow2_strictly_increases(raise as nat, 74);
        }
        lemma_pow2_pos(raise as nat);
        assert(high * factor <= 0x1F_FFFF_FFFF_FFFF * 0x400_0000_0000_0000_0000)
            by (nonlinear_arith)
            requires
                high <= 0x1F_FFFF_FFFF_FFFF,
                0 < factor <= 0x400_0000_0000_0000_0000,
        ;
    }
    let big: u128 = (high as u128) * factor;
    let (small, lost) = lowered(low, lower);
    let exponent: i64 = (low_step + lower) as i64;
    let ghost y = ((low as int) as real) / ((pow2(lower as nat) as int) as real);
    let ghost target = first.value() + second.value();
    let ghost u1 = first.units() as real;
    let ghost u2 = second.units() as real;
    proof {
        lemma_aligned(first, second, raise as nat, lower as nat);
        lemma_scaled_sum(u1, (big as int) as real, u2, y, exponent as int);
        lemma_sum_in_units(first, second);
        lemma_sum_sign(first, second);
        if lower > 0 {
            // The first number is normal and far above the second.
            assert(first.exponent_field() != 0);
            lemma_pow2_adds(52, 74);
            assert(high * factor >= 0x10_0000_0000_0000 * 0x400_0000_0000_0000_0000)
                by (nonlinear_arith)
                requires
                    high >= 0x10_0000_0000_0000,
                    factor == 0x400_0000_0000_0000_0000,
            ;
        }
    }
    if first_negative == second_negative {
        round_scaled(
            first_negative,
            big + small,
            exponent,
            lost,
            Ghost((big as int) as real + y),
            Ghost(u1 + u2),
            Ghost(target),
        )
    } else if big > small || (big == small && !lost) {
        let significand: u128 = if lost {
            big - small - 1
        } else {
            big - small
        };
        let negative = first_negative && (significand != 0 || lost);
        proof {
            let x = (big as int) as real - y;
            let down = pow2(sink(exponent as int)) as real;
            let up = pow2(lift(exponent as int)) as real;
            lemma_pow2_pos(lift(exponent as int));
            lemma_pow2_pos(sink(exponent as int));
            lemma_product_sign(x, up);
            lemma_product_sign(u1 - u2, down);
        }
        round_scaled(
            negative,
            significand,
            exponent,
            lost,
            Ghost((big as int) as real - y),
            Ghost(u1 - u2),
            Ghost(target),
        )
    } else {
        proof {
            let x = y - (big as int) as real;
            let down = pow2(sink(exponent as int)) as real;
            let up = pow2(lift(exponent as int)) as real;
            lemma_pow2_pos(lift(exponent as int));
            lemma_pow2_pos(sink(exponent as int));
            lemma_product_sign(x, up);
            lemma_product_sign(u2 - u1, down);
        }
        round_scaled(
            second_negative,
            small - big,
            exponent,
            lost,
            Ghost(y - (big as int) as real),
            Ghost(u2 - u1),
            Ghost(target),
        )
    }
}

/// The significand of the second number, lowered by `lower` bits, and
/// whether anything was lost.
fn lowered(significand: u64, lower: u64) -> (parts: (u128, bool))
    requires
        significand < 0x20_0000_0000_0000,
        lower <= 2046,
    ensures
        parts.0 == significand as nat / pow2(lower as nat),
        parts.1 == (significand as nat % pow2(lower as nat) != 0),
        parts.0 <= significand,
        lower > 0 ==> parts.0 < 0x10_0000_0000_0000,
{
    proof {
        lemma_pow2_pos(lower as nat);
        lemma2_to64_rest();
        lemma2_to64();
    }
    if lower >= 53 {
        proof {
            if lower > 53 {
                lemma_pow2_strictly_increases(53, lower as nat);
            }
            lemma_basic_div(significand as int, pow2(lower as nat) as int);
            lemma_small_mod(significand as nat, pow2(lower as nat));
        }
        (0, significand != 0)
    } else {
        let divisor = power_of_two(lower as u32);
        proof {
            lemma_fundamental_div_mod(significand as int, divisor as int);
            lemma_mod_bound(significand as int, divisor as int);
            let whole = significand as int / divisor as int;
            let rest = significand as int % divisor as int;
            assert(whole <= significand) by (nonlinear_arith)
                requires
                    significand == divisor * whole + rest,
                    rest >= 0,
                    divisor >= 1,
                    whole >= 0,
            ;
            if lower > 0 {
                lemma_pow2_unfold(lower as nat);
                assert(whole < 0x10_0000_0000_0000) by (nonlinear_arith)
                    requires
                        significand == divisor * whole + rest,
                        rest >= 0,
                        divisor >= 2,
                        significand < 0x20_0000_0000_0000,
                ;
            }
        }
        ((significand as u128) / divisor, (significand as u128) % divisor != 0)
    }
}

/// The product of two numbers of units bears a sign when one of the two
/// numbers does.
proof fn lemma_signed_product(a: Double, b: Double)
    ensures
        a.signed_units() * b.signed_units() == (if a.sign() != b.sign() {
            -((a.units() * b.units()) as int)
        } else {
            (a.units() * b.units()) as int
        }),
{
    let x = a.units() as int;
    let y = b.units() as int;
    assert((-x) * (-y) == x * y && (-x) * y == -(x * y) && x * (-y) == -(x * y))
        by (nonlinear_arith);
}

/// The exact product of two values, scaled to units: its size is the
/// product of the units over 2^1074, its sign that of the factors.
proof fn lemma_product_in_units(a: Double, b: Double, units: real)
    requires
        units * (units_per_one() as real) == (a.units() * b.units()) as real,
    ensures
        is_in_units(a.value() * b.value(), a.sign() != b.sign(), units),
{
    let one = units_per_one() as real;
    let target = a.value() * b.value();
    let left = a.value() * one;
    let right = b.value() * one;
    lemma_pow2_pos(1074);
    lemma_value_in_units(a);
    lemma_value_in_units(b);
    lemma_signed_product(a, b);
    lemma_real_product(a.signed_units(), b.signed_units());
    assert((target * one) * one == left * right) by (nonlinear_arith)
        requires
            target == a.value() * b.value(),
            left == a.value() * one,
            right == b.value() * one,
    ;
    let size = if a.sign() != b.sign() {
        -units
    } else {
        units
    };
    assert(size * one == (if a.sign() != b.sign() {
        -(units * one)
    } else {
        units * one
    })) by (nonlinear_arith)
        requires
            size == (if a.sign() != b.sign() {
                -units
            } else {
                units
            }),
    ;
    assert(left * right == (a.signed_units() * b.signed_units()) as real);
    assert(size * one == (target * one) * one);
    assert((size - target * one) * one == size * one - (target * one) * one)
        by (nonlinear_arith);
    lemma_product_sign(size - target * one, one);
}

/// The product of two values, in multiples of 2^-1074, is the product of the
/// significands times a power of two.
proof fn lemma_product_scaled(a: Double, b: Double, units: real)
    requires
        units * (units_per_one() as real) == (a.units() * b.units()) as real,
    ensures
        is_scaled(
            units,
            ((a.significand() * b.significand()) as int) as real,
            a.step() + b.step() - 1074,
        ),
{
    let one = units_per_one() as real;
    let exponent = a.step() + b.step() - 1074;
    let whole = a.significand() * b.significand();
    let grown = pow2(a.step() + b.step());
    let down = pow2(sink(exponent));
    let up = pow2(lift(exponent));
    lemma_pow2_pos(1074);
    lemma_units_split(a);
    lemma_units_split(b);
    lemma_pow2_adds(a.step(), b.step());
    lemma_pow2_adds(a.step() + b.step(), sink(exponent));
    lemma_pow2_adds(lift(exponent), 1074);
    assert(a.units() * b.units() == whole * grown) by (nonlinear_arith)
        requires
            a.units() == a.significand() * pow2(a.step()),
            b.units() == b.significand() * pow2(b.step()),
            grown == pow2(a.step()) * pow2(b.step()),
            whole == a.significand() * b.significand(),
    ;
    lemma_real_product(whole as int, grown as int);
    lemma_real_product(grown as int, down as int);
    lemma_real_product(up as int, units_per_one() as int);
    lemma_rescaled(units, (whole as int) as real, one, grown as real, down as real, up as real);
}

/// The real quotient of two integers lies between the integer quotient and
/// its successor, and equals it when there is no remainder.
proof fn lemma_quotient_whole_part(numerator: int, divisor: int)
    requires
        numerator >= 0,
        divisor > 0,
    ensures
        is_whole_part(
            numerator / divisor,
            numerator % divisor != 0,
            (numerator as real) / (divisor as real),
        ),
{
    let whole = numerator / divisor;
    let rest = numerator % divisor;
    let x = (numerator as real) / (divisor as real);
    let d = divisor as real;
    lemma_fundamental_div_mod(numerator, divisor);
    lemma_mod_bound(numerator, divisor);
    lemma_real_product(divisor, whole);
    assert(x * d == numerator as real) by (nonlinear_arith)
        requires
            x == (numerator as real) / d,
            d > 0real,
    ;
    assert((x - whole as real) * d == x * d - d * (whole as real)) by (nonlinear_arith);
    assert((x - whole as real) * d == rest as real);
    lemma_product_sign(x - whole as real, d);
    assert((x - whole as real - 1real) * d == (x - whole as real) * d - d) by (nonlinear_arith);
    lemma_product_sign(x - whole as real - 1real, d);
}

/// The exact quotient of two values, scaled to units: its size is the
/// quotient of the units times 2^1074, its sign that of the two.
proof fn lemma_quotient_in_units(a: Double, b: Double, units: real)
    requires
        b.units() > 0,
        units * (b.units() as real) == (a.units() as real) * (units_per_one() as real),
    ensures
        is_in_units(a.value() / b.value(), a.sign() != b.sign(), units),
{
    let one = units_per_one() as real;
    let target = a.value() / b.value();
    let top = a.signed_units() as real;
    let bottom = b.signed_units() as real;
    let size = if a.sign() != b.sign() {
        -units
    } else {
        units
    };
    lemma_pow2_pos(1074);
    lemma_value_in_units(a);
    lemma_value_in_units(b);
    assert(b.value() != 0real) by {
        assert(0real * one == 0real) by (nonlinear_arith);
    }
    assert(target * b.value() == a.value()) by (nonlinear_arith)
        requires
            target == a.value() / b.value(),
            b.value() != 0real,
    ;
    assert(target * bottom == top) by {
        assert(target * (b.value() * one) == (target * b.value()) * one) by (nonlinear_arith);
    }
    let divisor = b.units() as real;
    let dividend = a.units() as real;
    // The same equation without the signs.
    assert(target * divisor == (if a.sign() != b.sign() {
        -dividend
    } else {
        dividend
    })) by {
        assert(target * (-divisor) == -(target * divisor)) by (nonlinear_arith);
    }
    assert((target * one) * divisor == (target * divisor) * one) by (nonlinear_arith);
    assert((-dividend) * one == -(dividend * one)) by (nonlinear_arith);
    assert((-units) * divisor == -(units * divisor)) by (nonlinear_arith);
    assert((target * one) * divisor == size * divisor);
    lemma_cancel(target * one, size, divisor);
}

/// The quotient of two values, in multiples of 2^-1074, is the quotient of
/// the significands times a power of two.
proof fn lemma_quotient_scaled(a: Double, b: Double, shift: nat, units: real)
    requires
        b.units() > 0,
        units * (b.units() as real) == (a.units() as real) * (units_per_one() as real),
    ensures
        is_scaled(
            units,
            ((a.significand() * pow2(shift)) as real) / (b.significand() as real),
            a.step() + 1074 - b.step() - shift,
        ),
{
    let one = units_per_one();
    let exponent = a.step() + 1074 - b.step() - shift;
    let down = pow2(sink(exponent));
    let up = pow2(lift(exponent));
    let numerator = a.significand() * pow2(shift);
    let divisor = b.significand();
    let x = (numerator as real) / (divisor as real);
    let a_scale = pow2(a.step());
    let b_scale = pow2(b.step());
    let raise = pow2(shift);
    lemma_units_split(a);
    lemma_units_split(b);
    lemma_pow2_pos(1074);
    lemma_pow2_pos(b.step());
    lemma_pow2_pos(sink(exponent));
    assert(divisor > 0) by (nonlinear_arith)
        requires
            divisor * b_scale > 0,
            b_scale > 0,
    ;
    assert(x * (divisor as real) == numerator as real) by (nonlinear_arith)
        requires
            x == (numerator as real) / (divisor as real),
            divisor > 0,
    ;
    // The powers of two on both sides agree.
    lemma_pow2_adds(a.step(), 1074);
    lemma_pow2_adds(a.step() + 1074, sink(exponent));
    lemma_pow2_adds(shift, lift(exponent));
    lemma_pow2_adds(shift + lift(exponent), b.step());
    let all = pow2(a.step() + 1074 + sink(exponent));
    assert(a_scale * one * down == all);
    assert(raise * up * b_scale == all);
    // Both sides, times the units of the divisor.
    let left = units * (down as real);
    let right = x * (up as real);
    let b_units = b.units() as real;
    let count = a.significand() * all;
    assert(left * b_units == count as real) by {
        assert(a.units() * one * down == count) by (nonlinear_arith)
            requires
                a.units() == a.significand() * a_scale,
                a_scale * one * down == all,
                count == a.significand() * all,
        ;
        lemma_real_product(a.units() as int, one as int);
        lemma_real_product((a.units() * one) as int, down as int);
        assert((units * (down as real)) * b_units == (units * b_units) * (down as real))
            by (nonlinear_arith);
    }
    assert(right * b_units == count as real) by {
        assert(numerator * up * b_scale == count) by (nonlinear_arith)
            requires
                numerator == a.significand() * raise,
                raise * up * b_scale == all,
                count == a.significand() * all,
        ;
        lemma_real_product(divisor as int, b_scale as int);
        lemma_real_product(numerator as int, up as int);
        lemma_real_product((numerator * up) as int, b_scale as int);
        assert((x * (up as real)) * ((divisor as real) * (b_scale as real)) == ((x * (
        divisor as real)) * (up as real)) * (b_scale as real)) by (nonlinear_arith);
    }
    lemma_cancel(left, right, b_units);
}

/// A quotient of a number of 127 bits by one of at most 53 bits has more
/// than 64 bits.
proof fn lemma_quotient_is_long(numerator: int, divisor: int)
    requires
        0x4000_0000_0000_0000_0000_0000_0000_0000 <= numerator,
        0 < divisor < 0x20_0000_0000_0000,
    ensures
        numerator / divisor >= 0x8000_0000_0000_0000,
        numerator / divisor <= numerator,
{
    let whole = numerator / divisor;
    let rest = numerator % divisor;
    lemma_fundamental_div_mod(numerator, divisor);
    lemma_mod_bound(numerator, divisor);
    assert(whole >= 0x8000_0000_0000_0000) by (nonlinear_arith)
        requires
            divisor * whole + rest >= 0x4000_0000_0000_0000_0000_0000_0000_0000,
            rest < divisor,
            0 < divisor < 0x20_0000_0000_0000,
    ;
    assert(whole <= numerator) by (nonlinear_arith)
        requires
            numerator == divisor * whole + rest,
            rest >= 0,
            divisor >= 1,
            whole >= 0,
    ;
}

/// Sums and differences of numbers on one scale are on that scale.
proof fn lemma_scaled_sum(u1: real, x1: real, u2: real, x2: real, exponent: int)
    requires
        is_scaled(u1, x1, exponent),
        is_scaled(u2, x2, exponent),
    ensures
        is_scaled(u1 + u2, x1 + x2, exponent),
        is_scaled(u1 - u2, x1 - x2, exponent),
        is_scaled(u2 - u1, x2 - x1, exponent),
{
    let down = pow2(sink(exponent)) as real;
    let up = pow2(lift(exponent)) as real;
    assert((u1 + u2) * down == u1 * down + u2 * down) by (nonlinear_arith);
    assert((x1 + x2) * up == x1 * up + x2 * up) by (nonlinear_arith);
    assert((u1 - u2) * down == u1 * down - u2 * down) by (nonlinear_arith);
    assert((x1 - x2) * up == x1 * up - x2 * up) by (nonlinear_arith);
    assert((u2 - u1) * down == u2 * down - u1 * down) by (nonlinear_arith);
    assert((x2 - x1) * up == x2 * up - x1 * up) by (nonlinear_arith);
}

/// Two numbers whose steps lie `raise + lower` apart are both on the scale
/// that lies `lower` above the smaller step: the first with its significand
/// raised, the second with its significand lowered.
proof fn lemma_aligned(first: Double, second: Double, raise: nat, lower: nat)
    requires
        first.step() == second.step() + raise + lower,
    ensures
        is_scaled(
            first.units() as real,
            ((first.significand() * pow2(raise)) as int) as real,
            (second.step() + lower) as int,
        ),
        is_scaled(
            second.units() as real,
            ((second.significand() as int) as real) / ((pow2(lower) as int) as real),
            (second.step() + lower) as int,
        ),
        is_whole_part(
            (second.significand() / pow2(lower)) as int,
            second.significand() % pow2(lower) != 0,
            ((second.significand() as int) as real) / ((pow2(lower) as int) as real),
        ),
{
    let exponent = (second.step() + lower) as int;
    let scale = pow2(second.step() + lower);
    let big = first.significand() * pow2(raise);
    let divisor = pow2(lower);
    let y = ((second.significand() as int) as real) / ((divisor as int) as real);
    lemma2_to64();
    lemma_pow2_pos(lower);
    lemma_units_split(first);
    lemma_units_split(second);
    lemma_pow2_adds(raise, second.step() + lower);
    lemma_pow2_adds(second.step(), lower);
    assert(sink(exponent) == 0 && lift(exponent) == second.step() + lower);
    // The first number.
    assert(first.units() == big * scale) by (nonlinear_arith)
        requires
            first.units() == first.significand() * pow2(first.step()),
            pow2(first.step()) == pow2(raise) * scale,
            big == first.significand() * pow2(raise),
    ;
    lemma_real_product(big as int, scale as int);
    let u1 = first.units() as real;
    let unit = pow2(0) as real;
    assert(u1 * unit == u1) by (nonlinear_arith)
        requires
            unit == 1real,
    ;
    // The second number.
    let u2 = second.units() as real;
    assert(u2 * unit == u2) by (nonlinear_arith)
        requires
            unit == 1real,
    ;
    let d = (divisor as int) as real;
    assert(y * d == (second.significand() as int) as real) by (nonlinear_arith)
        requires
            y == ((second.significand() as int) as real) / d,
            d > 0real,
    ;
    lemma_real_product(second.significand() as int, pow2(second.step()) as int);
    lemma_real_product(pow2(second.step()) as int, divisor as int);
    assert(y * (scale as real) == u2) by {
        let low = pow2(second.step()) as real;
        assert(y * (low * d) == (y * d) * low) by (nonlinear_arith);
    }
    lemma_quotient_whole_part(second.significand() as int, divisor as int);
}

/// The exact sum of two values times 2^1074 is the sum of their signed
/// units.
proof fn lemma_sum_in_units(a: Double, b: Double)
    ensures
        (a.value() + b.value()) * (units_per_one() as real) == (a.signed_units()
            + b.signed_units()) as real,
{
    let one = units_per_one() as real;
    lemma_value_in_units(a);
    lemma_value_in_units(b);
    assert((a.value() + b.value()) * one == a.value() * one + b.value() * one)
        by (nonlinear_arith);
}

/// The sign of an exact sum is the sign of the sum of the signed units.
proof fn lemma_sum_sign(a: Double, b: Double)
    ensures
        a.value() + b.value() == 0real <==> a.signed_units() + b.signed_units() == 0,
        a.value() + b.value() < 0real <==> a.signed_units() + b.signed_units() < 0,
{
    let one = units_per_one() as real;
    lemma_pow2_pos(1074);
    lemma_sum_in_units(a, b);
    lemma_product_sign(a.value() + b.value(), one);
}

/// A divisor that is a real number and not zero counts units, and has a
/// significand.
proof fn lemma_divisor_counts(b: Double)
    requires
        b.is_real(),
        b.value() != 0real,
    ensures
        b.units() > 0,
        b.significand() > 0,
{
    lemma_units_zero(b);
    lemma_value_by_units(b);
    lemma_units_split(b);
    let significand = b.significand();
    let scale = pow2(b.step());
    assert(significand > 0) by (nonlinear_arith)
        requires
            significand * scale > 0,
            significand >= 0,
    ;
}

/// A quotient times its divisor is the dividend.
proof fn lemma_quotient_units(a: Double, b: Double, units: real)
    requires
        b.units() > 0,
        units == ((a.units() as real) * (units_per_one() as real)) / (b.units() as real),
    ensures
        units * (b.units() as real) == (a.units() as real) * (units_per_one() as real),
{
    let divisor = b.units() as real;
    let dividend = (a.units() as real) * (units_per_one() as real);
    assert((dividend / divisor) * divisor == dividend) by (nonlinear_arith)
        requires
            divisor > 0real,
    ;
}

/// A significand has at most 53 bits.
proof fn lemma_short_length(significand: nat, length: nat)
    requires
        significand < 0x20_0000_0000_0000,
        length >= 1,
        pow2((length - 1) as nat) <= significand,
    ensures
        length <= 53,
{
    lemma2_to64_rest();
    if length > 53 {
        if length > 54 {
            lemma_pow2_strictly_increases(53, (length - 1) as nat);
        }
    }
}

/// A number of `length` bits, raised by `127 - length` bits, has 127 bits.
proof fn lemma_raised_to_top(significand: nat, length: nat, shift: nat)
    requires
        length >= 1,
        pow2((length - 1) as nat) <= significand < pow2(length),
        length + shift == 127,
    ensures
        0x4000_0000_0000_0000_0000_0000_0000_0000 <= significand * pow2(shift)
            < 0x8000_0000_0000_0000_0000_0000_0000_0000,
{
    let factor = pow2(shift);
    lemma_pow2_pos(shift);
    lemma_pow2_adds(length, shift);
    lemma_pow2_adds((length - 1) as nat, shift);
    lemma2_to64();
    lemma2_to64_rest();
    lemma_pow2_adds(64, 63);
    lemma_pow2_adds(64, 62);
    let above = pow2(length);
    let below = pow2((length - 1) as nat);
    assert(significand * factor < above * factor) by (nonlinear_arith)
        requires
            significand < above,
            factor > 0,
    ;
    assert(below * factor <= significand * factor) by (nonlinear_arith)
        requires
            below <= significand,
            factor > 0,
    ;
}

} // verus!
