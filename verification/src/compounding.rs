//! The formulas that raise a number to a fractional power or take a
//! logarithm.
//!
//! Neither the power nor the logarithm is computed here. Each formula comes
//! in two parts. The first says for which inputs the formula is defined and
//! which power or which logarithms it needs; the caller computes those. The
//! second computes the formula from them, every step rounded to the nearest
//! binary64 number and none to decimal places.
//!
//! Over very many periods the power `(1 + rate)^periods` lies beyond the
//! range, and the caller hands in an infinity. Where a formula divides by the
//! power, as present value and payment do, the quotient is then zero. A
//! formula that multiplies by the power, or takes one from it, has no result
//! there.

use crate::arithmetic::{
    difference, difference_of, lemma_results_are_roundings, lemma_zero_stays_zero, product,
    quotient, quotient_by_power, quotient_of, sum, sum_of,
};
use crate::domain::{
    check_compound_annual_rate, check_effective_annual_rate, check_future_value,
    check_interest_rate, check_number_of_compounding, check_payment, check_present_value,
};
use crate::double::{lemma_units_order, lemma_value_by_units, lemma_value_order, Double};
use crate::error::FinanceError;
use crate::reals::{lemma_bound_over, lemma_bound_times, lemma_sign_of_quotient, lemma_two_steps};
use crate::rounding::{
    distance, lemma_rounding_error, lemma_rounding_exists, lemma_rounding_stays_within, rounded,
};
use vstd::prelude::*;

verus! {

/// Two numbers that a formula needs a power or logarithms of: both, for
/// inputs inside the formula's domain and where both are there.
pub open spec fn operands(
    inside: bool,
    first: Result<Double, FinanceError>,
    second: Result<Double, FinanceError>,
) -> Result<(Double, Double), FinanceError> {
    match (first, second) {
        (Ok(a), Ok(b)) if inside => Ok((a, b)),
        _ => Err(FinanceError::InvalidDomain),
    }
}

/// Present value needs `1 + rate` to the power of `compounding_periods`:
/// the base and the exponent of that power.
pub fn present_value_power(
    rate: Double,
    compounding_periods: Double,
    future_value: Double,
) -> (outcome: Result<(Double, Double), FinanceError>)
    ensures
        outcome == operands(
            rate.is_real() && compounding_periods.is_real() && future_value.is_real()
                && rate.value() > -1real,
            sum(Double::one(), rate),
            Ok(compounding_periods),
        ),
{
    check_present_value(rate, compounding_periods, future_value)?;
    let base = Double::one().plus(rate)?;
    Ok((base, compounding_periods))
}

/// Present value, given the power that it needs: `future_value / power`.
/// Over so many periods that the power is an infinity, the present value is
/// zero.
pub fn present_value_from_power(future_value: Double, power: Double) -> (outcome: Result<
    Double,
    FinanceError,
>)
    ensures
        outcome == quotient_by_power(future_value, power),
{
    future_value.divided_by_power(power)
}

/// Future value needs `1 + rate` to the power of `compounding_periods`: the
/// base and the exponent of that power.
pub fn future_value_power(
    rate: Double,
    compounding_periods: Double,
    present_value: Double,
) -> (outcome: Result<(Double, Double), FinanceError>)
    ensures
        outcome == operands(
            rate.is_real() && compounding_periods.is_real() && present_value.is_real()
                && rate.value() > -1real,
            sum(Double::one(), rate),
            Ok(compounding_periods),
        ),
{
    check_future_value(rate, compounding_periods, present_value)?;
    let base = Double::one().plus(rate)?;
    Ok((base, compounding_periods))
}

/// Future value, given the power that it needs: `present_value * power`.
pub fn future_value_from_power(present_value: Double, power: Double) -> (outcome: Result<
    Double,
    FinanceError,
>)
    ensures
        outcome == product(present_value, power),
{
    present_value.times(power)
}

/// Payment needs `1 + rate` to the power of `number_of_compounding`: the base
/// and the exponent of that power.
pub fn payment_power(
    present_value: Double,
    number_of_compounding: Double,
    rate: Double,
) -> (outcome: Result<(Double, Double), FinanceError>)
    ensures
        outcome == operands(
            present_value.is_real() && number_of_compounding.is_real() && rate.is_real()
                && rate.value() != 0real,
            sum(Double::one(), rate),
            Ok(number_of_compounding),
        ),
{
    check_payment(present_value, number_of_compounding, rate)?;
    let base = Double::one().plus(rate)?;
    Ok((base, number_of_compounding))
}

/// Payment, given the power that it needs:
/// `present_value / ((1 - 1 / power) / rate)`. Over so many periods that the
/// power is an infinity, `1 / power` is zero and the payment is
/// `present_value / (1 / rate)`.
pub fn payment_from_power(present_value: Double, rate: Double, power: Double) -> (outcome: Result<
    Double,
    FinanceError,
>)
    ensures
        outcome == quotient_of(
            Ok(present_value),
            quotient_of(
                difference_of(Ok(Double::one()), quotient_by_power(Double::one(), power)),
                Ok(rate),
            ),
        ),
{
    let discount = Double::one().divided_by_power(power)?;
    let annuity = Double::one().minus(discount)?.divided_by(rate)?;
    present_value.divided_by(annuity)
}

/// Number of compounding periods needs the logarithms of two numbers:
/// `future_value / present_value` and `1 + rate`.
pub fn number_of_compounding_logarithms(
    future_value: Double,
    present_value: Double,
    rate: Double,
) -> (outcome: Result<(Double, Double), FinanceError>)
    ensures
        outcome == operands(
            future_value.is_real() && present_value.is_real() && rate.is_real()
                && present_value.value() != 0real && future_value.value() / present_value.value()
                > 0real && rate.value() > -1real && rate.value() != 0real,
            quotient(future_value, present_value),
            sum(Double::one(), rate),
        ),
{
    check_number_of_compounding(future_value, present_value, rate)?;
    let ratio = future_value.divided_by(present_value)?;
    let base = Double::one().plus(rate)?;
    Ok((ratio, base))
}

/// Number of compounding periods, given the two logarithms that it needs:
/// the logarithm of the ratio divided by that of the base.
pub fn number_of_compounding_from_logarithms(of_ratio: Double, of_base: Double) -> (outcome: Result<
    Double,
    FinanceError,
>)
    ensures
        outcome == quotient(of_ratio, of_base),
{
    of_ratio.divided_by(of_base)
}

/// Interest rate needs `future_value / present_value` to the power of
/// `1 / number_of_compounding`: the base and the exponent of that power.
pub fn interest_rate_power(
    future_value: Double,
    present_value: Double,
    number_of_compounding: Double,
) -> (outcome: Result<(Double, Double), FinanceError>)
    ensures
        outcome == operands(
            future_value.is_real() && present_value.is_real() && number_of_compounding.is_real()
                && present_value.value() != 0real && future_value.value() / present_value.value()
                >= 0real && number_of_compounding.value() != 0real,
            quotient(future_value, present_value),
            quotient(Double::one(), number_of_compounding),
        ),
{
    check_interest_rate(future_value, present_value, number_of_compounding)?;
    let ratio = future_value.divided_by(present_value)?;
    let share = Double::one().divided_by(number_of_compounding)?;
    Ok((ratio, share))
}

/// Compound annual growth rate needs `ending_value / beginning_value` to the
/// power of `1 / number_of_periods`: the base and the exponent of that power.
pub fn compound_annual_rate_power(
    beginning_value: Double,
    ending_value: Double,
    number_of_periods: Double,
) -> (outcome: Result<(Double, Double), FinanceError>)
    ensures
        outcome == operands(
            beginning_value.is_real() && ending_value.is_real() && number_of_periods.is_real()
                && beginning_value.value() != 0real && ending_value.value()
                / beginning_value.value() >= 0real && number_of_periods.value() != 0real,
            quotient(ending_value, beginning_value),
            quotient(Double::one(), number_of_periods),
        ),
{
    check_compound_annual_rate(beginning_value, ending_value, number_of_periods)?;
    let ratio = ending_value.divided_by(beginning_value)?;
    let share = Double::one().divided_by(number_of_periods)?;
    Ok((ratio, share))
}

/// Effective annual rate needs `1 + annual_rate / number_of_compounding` to
/// the power of `number_of_compounding`: the base and the exponent of that
/// power.
pub fn effective_annual_rate_power(annual_rate: Double, number_of_compounding: Double) -> (outcome:
    Result<(Double, Double), FinanceError>)
    ensures
        outcome == operands(
            annual_rate.is_real() && number_of_compounding.is_real()
                && number_of_compounding.value() != 0real,
            sum_of(Ok(Double::one()), quotient(annual_rate, number_of_compounding)),
            Ok(number_of_compounding),
        ),
{
    check_effective_annual_rate(annual_rate, number_of_compounding)?;
    let periodic = annual_rate.divided_by(number_of_compounding)?;
    let base = Double::one().plus(periodic)?;
    Ok((base, number_of_compounding))
}

/// A rate, given the growth over its period: `power - 1`. Interest rate,
/// compound annual growth rate and effective annual rate end with this step.
pub fn rate_from_power(power: Double) -> (outcome: Result<Double, FinanceError>)
    ensures
        outcome == difference(power, Double::one()),
{
    power.minus(Double::one())
}

/// With an amount that is not negative and a power of at least one, which
/// may be an infinity, there is a present value, and it lies from zero to the
/// amount: at a rate that is not negative, money later is never worth more
/// today.
pub proof fn lemma_present_value_is_bounded(future_value: Double, power: Double)
    requires
        future_value.is_real(),
        future_value.value() >= 0real,
        power.is_infinite() || (power.is_real() && power.value() >= 1real),
    ensures
        quotient_by_power(future_value, power) matches Ok(present) && 0real <= present.value()
            <= future_value.value(),
{
    let amount = future_value.value();
    if power.is_infinite() {
        lemma_value_by_units(Double::signed_zero(future_value.sign() != power.sign()));
    } else {
        reveal(quotient);
        let factor = power.value();
        let exact = amount / factor;
        let negative = future_value.sign() != power.sign();
        let present = rounded(exact, negative);
        let zero = Double::zero();
        let top = Double::infinity(false);
        assert(0real <= exact <= amount) by (nonlinear_arith)
            requires
                exact == amount / factor,
                amount >= 0real,
                factor >= 1real,
        ;
        lemma_value_by_units(future_value);
        lemma_value_by_units(power);
        lemma_value_by_units(zero);
        lemma_sign_of_quotient(amount, factor);
        lemma_rounding_exists(exact, negative);
        lemma_rounding_stays_within(exact, negative, present, zero);
        lemma_rounding_stays_within(exact, negative, present, future_value);
        // An infinity lies beyond every real number, so the rounding is none.
        lemma_units_order(future_value, top);
        lemma_units_order(present, top);
        lemma_value_order(present, future_value);
        lemma_value_by_units(present);
    }
}

/// Discounting undoes compounding. Where an amount is compounded with a power
/// and the outcome discounted with the same power, what comes back differs
/// from the amount by less than one part in 10^9, as long as both steps yield
/// normal numbers or the amount is zero.
pub proof fn lemma_discounting_undoes_compounding(
    amount: Double,
    power: Double,
    compounded: Double,
    back: Double,
)
    requires
        product(amount, power) == Ok::<Double, FinanceError>(compounded),
        quotient_by_power(compounded, power) == Ok::<Double, FinanceError>(back),
        (compounded.is_normal() && back.is_normal()) || amount.value() == 0real,
    ensures
        distance(back.value(), amount.value()) * 1000000000real <= distance(
            amount.value(),
            0real,
        ),
{
    assert(power.is_real()) by {
        reveal(product);
    }
    if compounded.is_normal() && back.is_normal() {
        let factor = power.value();
        let exact = compounded.value() / factor;
        lemma_results_are_roundings(amount, power);
        lemma_results_are_roundings(compounded, power);
        lemma_rounding_error(amount.value() * factor, amount.sign() != power.sign(), compounded);
        lemma_rounding_error(exact, compounded.sign() != power.sign(), back);
        assert(factor != 0real) by {
            reveal(quotient);
        }
        assert(exact * factor == compounded.value()) by (nonlinear_arith)
            requires
                exact == compounded.value() / factor,
                factor != 0real,
        ;
        lemma_bound_over(exact, amount.value(), factor);
        lemma_two_steps(amount.value(), exact, back.value());
    } else {
        assert(amount.is_real() && compounded.is_real() && power.is_real() && power.value()
            != 0real) by {
            reveal(product);
            reveal(quotient);
        }
        lemma_zero_stays_zero(amount, power);
        lemma_zero_stays_zero(compounded, power);
    }
}

/// Compounding undoes discounting. Where an amount is discounted with a power
/// and the outcome compounded with the same power, what comes back differs
/// from the amount by less than one part in 10^9, as long as both steps yield
/// normal numbers or the amount is zero. The amount may itself be the outcome
/// of a compounding.
pub proof fn lemma_compounding_undoes_discounting(
    amount: Double,
    power: Double,
    discounted: Double,
    back: Double,
)
    requires
        quotient_by_power(amount, power) == Ok::<Double, FinanceError>(discounted),
        product(discounted, power) == Ok::<Double, FinanceError>(back),
        (discounted.is_normal() && back.is_normal()) || amount.value() == 0real,
    ensures
        distance(back.value(), amount.value()) * 1000000000real <= distance(
            amount.value(),
            0real,
        ),
{
    assert(power.is_real()) by {
        reveal(product);
    }
    if discounted.is_normal() && back.is_normal() {
        let factor = power.value();
        let exact = amount.value() / factor;
        lemma_results_are_roundings(amount, power);
        lemma_results_are_roundings(discounted, power);
        lemma_rounding_error(exact, amount.sign() != power.sign(), discounted);
        lemma_rounding_error(
            discounted.value() * factor,
            discounted.sign() != power.sign(),
            back,
        );
        assert(factor != 0real) by {
            reveal(quotient);
        }
        assert(exact * factor == amount.value()) by (nonlinear_arith)
            requires
                exact == amount.value() / factor,
                factor != 0real,
        ;
        lemma_bound_times(discounted.value(), exact, factor);
        lemma_two_steps(amount.value(), discounted.value() * factor, back.value());
    } else {
        assert(amount.is_real() && discounted.is_real() && power.is_real() && power.value()
            != 0real) by {
            reveal(product);
            reveal(quotient);
        }
        lemma_zero_stays_zero(amount, power);
        lemma_zero_stays_zero(discounted, power);
    }
}

} // verus!
