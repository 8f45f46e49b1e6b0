//! The domain of each formula: for which inputs it is defined.
//!
//! Every input has to be a real number. Beyond that a formula refuses the
//! inputs that would divide by zero, raise a number that is not positive to a
//! fractional power, or take the logarithm of a number that is not positive.
//! The checks compute nothing: each formula asks its check first.

use crate::double::Double;
use crate::error::FinanceError;
use vstd::prelude::*;

verus! {

/// `Ok` for inputs inside a domain, `InvalidDomain` for inputs outside it.
pub open spec fn verdict(inside: bool) -> Result<(), FinanceError> {
    if inside {
        Ok(())
    } else {
        Err(FinanceError::InvalidDomain)
    }
}

/// Whether every number of a sequence is a real number.
pub open spec fn all_real(numbers: Seq<Double>) -> bool {
    forall|i: int| 0 <= i < numbers.len() ==> (#[trigger] numbers[i]).is_real()
}

fn judge(inside: bool) -> (outcome: Result<(), FinanceError>)
    ensures
        outcome == verdict(inside),
{
    if inside {
        Ok(())
    } else {
        Err(FinanceError::InvalidDomain)
    }
}

/// Whether a real number differs from zero.
fn is_nonzero(number: Double) -> (nonzero: bool)
    ensures
        nonzero == (number.is_real() && number.value() != 0real),
{
    number.is_real() && !number.is_zero()
}

/// Whether a real number is above minus one, so that one plus it is positive.
fn exceeds_minus_one(number: Double) -> (above: bool)
    ensures
        above == (number.is_real() && number.value() > -1real),
{
    Double::minus_one().less_than(number)
}

/// Whether the quotient of two real numbers exists and is positive.
fn quotient_is_positive(numerator: Double, denominator: Double) -> (positive: bool)
    ensures
        positive == (numerator.is_real() && denominator.is_real() && denominator.value() != 0real
            && numerator.value() / denominator.value() > 0real),
{
    let zero = Double::zero();
    let both_above = zero.less_than(numerator) && zero.less_than(denominator);
    let both_below = numerator.less_than(zero) && denominator.less_than(zero);
    proof {
        lemma_quotient_sign(numerator.value(), denominator.value());
    }
    both_above || both_below
}

/// Whether the quotient of two real numbers exists and is not negative.
fn quotient_is_not_negative(numerator: Double, denominator: Double) -> (not_negative: bool)
    ensures
        not_negative == (numerator.is_real() && denominator.is_real() && denominator.value()
            != 0real && numerator.value() / denominator.value() >= 0real),
{
    proof {
        lemma_quotient_sign(numerator.value(), denominator.value());
    }
    is_nonzero(denominator) && (numerator.is_zero() || quotient_is_positive(
        numerator,
        denominator,
    ))
}

/// A quotient is positive when numerator and denominator lie on the same side
/// of zero, and zero when the numerator is.
proof fn lemma_quotient_sign(x: real, y: real)
    ensures
        y != 0real ==> (x / y > 0real <==> (x > 0real && y > 0real) || (x < 0real && y < 0real)),
        y != 0real ==> (x / y == 0real <==> x == 0real),
{
    assert(y != 0real ==> (x / y > 0real <==> (x > 0real && y > 0real) || (x < 0real && y
        < 0real))) by (nonlinear_arith);
    assert(y != 0real ==> (x / y == 0real <==> x == 0real)) by (nonlinear_arith);
}

/// Present value, `future_value / (1 + rate)^periods`: the rate has to be
/// above minus one.
pub fn check_present_value(
    rate: Double,
    compounding_periods: Double,
    future_value: Double,
) -> (outcome: Result<(), FinanceError>)
    ensures
        outcome == verdict(
            rate.is_real() && compounding_periods.is_real() && future_value.is_real()
                && rate.value() > -1real,
        ),
{
    judge(compounding_periods.is_real() && future_value.is_real() && exceeds_minus_one(rate))
}

/// Future value, `present_value * (1 + rate)^periods`: the rate has to be
/// above minus one.
pub fn check_future_value(
    rate: Double,
    compounding_periods: Double,
    present_value: Double,
) -> (outcome: Result<(), FinanceError>)
    ensures
        outcome == verdict(
            rate.is_real() && compounding_periods.is_real() && present_value.is_real()
                && rate.value() > -1real,
        ),
{
    judge(compounding_periods.is_real() && present_value.is_real() && exceeds_minus_one(rate))
}

/// Net present value, the sum of `cash_flows[i] / (1 + rate)^i`: there has
/// to be a cash flow, and the rate has to be above minus one. An empty
/// sequence is reported as such whatever the rate.
pub fn check_net_present_value(rate: Double, cash_flows: &[Double]) -> (outcome: Result<
    (),
    FinanceError,
>)
    ensures
        outcome == (if cash_flows@.len() == 0 {
            Err(FinanceError::EmptyInput)
        } else {
            verdict(rate.is_real() && rate.value() > -1real && all_real(cash_flows@))
        }),
{
    if cash_flows.len() == 0 {
        return Err(FinanceError::EmptyInput);
    }
    if !exceeds_minus_one(rate) {
        return Err(FinanceError::InvalidDomain);
    }
    let mut index: usize = 0;
    while index < cash_flows.len()
        invariant
            index <= cash_flows.len(),
            forall|i: int| 0 <= i < index ==> (#[trigger] cash_flows@[i]).is_real(),
        decreases cash_flows.len() - index,
    {
        if !cash_flows[index].is_real() {
            return Err(FinanceError::InvalidDomain);
        }
        index += 1;
    }
    Ok(())
}

/// Payment, `present_value / ((1 - (1 + rate)^-periods) / rate)`: the rate
/// must not be zero.
pub fn check_payment(
    present_value: Double,
    number_of_compounding: Double,
    rate: Double,
) -> (outcome: Result<(), FinanceError>)
    ensures
        outcome == verdict(
            present_value.is_real() && number_of_compounding.is_real() && rate.is_real()
                && rate.value() != 0real,
        ),
{
    judge(present_value.is_real() && number_of_compounding.is_real() && is_nonzero(rate))
}

/// Periodic interest rate, `annual_percentage_rate / number_of_compounding`:
/// the number of compounding periods must not be zero.
pub fn check_periodic_interest_rate(
    annual_percentage_rate: Double,
    number_of_compounding: Double,
) -> (outcome: Result<(), FinanceError>)
    ensures
        outcome == verdict(
            annual_percentage_rate.is_real() && number_of_compounding.is_real()
                && number_of_compounding.value() != 0real,
        ),
{
    judge(annual_percentage_rate.is_real() && is_nonzero(number_of_compounding))
}

/// Holding period return, `profit / cost`: the cost must not be zero.
pub fn check_holding_period_return(profit: Double, cost: Double) -> (outcome: Result<
    (),
    FinanceError,
>)
    ensures
        outcome == verdict(profit.is_real() && cost.is_real() && cost.value() != 0real),
{
    judge(profit.is_real() && is_nonzero(cost))
}

/// Number of compounding periods, `ln(future_value / present_value) / ln(1 + rate)`:
/// the quotient of the two values has to be positive, and the rate above
/// minus one and not zero.
pub fn check_number_of_compounding(
    future_value: Double,
    present_value: Double,
    rate: Double,
) -> (outcome: Result<(), FinanceError>)
    ensures
        outcome == verdict(
            future_value.is_real() && present_value.is_real() && rate.is_real()
                && present_value.value() != 0real && future_value.value() / present_value.value()
                > 0real && rate.value() > -1real && rate.value() != 0real,
        ),
{
    judge(
        quotient_is_positive(future_value, present_value) && exceeds_minus_one(rate) && is_nonzero(
            rate,
        ),
    )
}

/// Return on investment, `(earnings - |cf0|) / |cf0|`: the initial cash flow
/// must not be zero.
pub fn check_return_on_investment(earnings: Double, cf0: Double) -> (outcome: Result<
    (),
    FinanceError,
>)
    ensures
        outcome == verdict(earnings.is_real() && cf0.is_real() && cf0.value() != 0real),
{
    judge(earnings.is_real() && is_nonzero(cf0))
}

/// Interest rate, `(future_value / present_value)^(1 / periods) - 1`: the
/// quotient of the two values must exist and not be negative, and the number
/// of periods must not be zero.
pub fn check_interest_rate(
    future_value: Double,
    present_value: Double,
    number_of_compounding: Double,
) -> (outcome: Result<(), FinanceError>)
    ensures
        outcome == verdict(
            future_value.is_real() && present_value.is_real() && number_of_compounding.is_real()
                && present_value.value() != 0real && future_value.value() / present_value.value()
                >= 0real && number_of_compounding.value() != 0real,
        ),
{
    judge(
        quotient_is_not_negative(future_value, present_value) && is_nonzero(number_of_compounding),
    )
}

/// Rule of 72, `72 / (rate * 100)`: the rate must not be zero.
pub fn check_rule_of_72(rate: Double) -> (outcome: Result<(), FinanceError>)
    ensures
        outcome == verdict(rate.is_real() && rate.value() != 0real),
{
    judge(is_nonzero(rate))
}

/// Rule of 70, `70 / (rate * 100)`: the rate must not be zero.
pub fn check_rule_of_70(rate: Double) -> (outcome: Result<(), FinanceError>)
    ensures
        outcome == verdict(rate.is_real() && rate.value() != 0real),
{
    judge(is_nonzero(rate))
}

/// Leverage ratio, `(total_liabilities + total_debts) / total_income`: the
/// income must not be zero.
pub fn check_leverage_ratio(
    total_liabilities: Double,
    total_debts: Double,
    total_income: Double,
) -> (outcome: Result<(), FinanceError>)
    ensures
        outcome == verdict(
            total_liabilities.is_real() && total_debts.is_real() && total_income.is_real()
                && total_income.value() != 0real,
        ),
{
    judge(total_liabilities.is_real() && total_debts.is_real() && is_nonzero(total_income))
}

/// Weighted average cost of capital,
/// `(e / (e + d)) * cost_of_equity + (d / (e + d)) * cost_of_debt * (1 - tax_rate)`
/// with `e` and `d` the market values of equity and of debt: the two market
/// values must not sum to zero.
pub fn check_weighted_cost_of_capital(
    market_value_of_equity: Double,
    market_value_of_debt: Double,
    cost_of_equity: Double,
    cost_of_debt: Double,
    tax_rate: Double,
) -> (outcome: Result<(), FinanceError>)
    ensures
        outcome == verdict(
            market_value_of_equity.is_real() && market_value_of_debt.is_real()
                && cost_of_equity.is_real() && cost_of_debt.is_real() && tax_rate.is_real()
                && market_value_of_equity.value() + market_value_of_debt.value() != 0real,
        ),
{
    judge(
        market_value_of_equity.is_real() && market_value_of_debt.is_real()
            && cost_of_equity.is_real() && cost_of_debt.is_real() && tax_rate.is_real()
            && !market_value_of_equity.cancels(market_value_of_debt),
    )
}

/// Compound annual growth rate, `(ending_value / beginning_value)^(1 / periods) - 1`:
/// the quotient of the two values must exist and not be negative, and the
/// number of periods must not be zero.
pub fn check_compound_annual_rate(
    beginning_value: Double,
    ending_value: Double,
    number_of_periods: Double,
) -> (outcome: Result<(), FinanceError>)
    ensures
        outcome == verdict(
            beginning_value.is_real() && ending_value.is_real() && number_of_periods.is_real()
                && beginning_value.value() != 0real && ending_value.value()
                / beginning_value.value() >= 0real && number_of_periods.value() != 0real,
        ),
{
    judge(quotient_is_not_negative(ending_value, beginning_value) && is_nonzero(number_of_periods))
}

/// Effective annual rate, `(1 + annual_rate / periods)^periods - 1`: the
/// number of compounding periods must not be zero.
pub fn check_effective_annual_rate(annual_rate: Double, number_of_compounding: Double) -> (outcome:
    Result<(), FinanceError>)
    ensures
        outcome == verdict(
            annual_rate.is_real() && number_of_compounding.is_real()
                && number_of_compounding.value() != 0real,
        ),
{
    judge(annual_rate.is_real() && is_nonzero(number_of_compounding))
}

} // verus!
