//! The formulas that are made of sums, differences, products and quotients.
//!
//! Each formula first asks whether its inputs lie in its domain and then
//! computes step by step, every step rounded to the nearest binary64 number.
//! No formula rounds to decimal places. A sum, a product or a quotient whose
//! rounding lies beyond the range ends the computation: there is no result.
//! A power of `1 + rate` beyond the range does not: it is an infinity, and a
//! cash flow divided by it counts as zero.

use crate::arithmetic::{
    difference, lemma_one_reason, lemma_results_are_roundings, product, product_of, quotient,
    quotient_by_power, quotient_of, sum, sum_of,
};
use crate::domain::{
    all_real, check_holding_period_return, check_leverage_ratio, check_net_present_value,
    check_periodic_interest_rate, check_return_on_investment, check_rule_of_70, check_rule_of_72,
    check_weighted_cost_of_capital,
};
use crate::double::{lemma_whole_value, Double};
use crate::error::FinanceError;
use vstd::arithmetic::power2::{lemma2_to64_rest, pow2};
use vstd::prelude::*;

verus! {

/// The pattern of the number 70.
pub const SEVENTY: u64 = 0x4051_8000_0000_0000;

/// The pattern of the number 72.
pub const SEVENTY_TWO: u64 = 0x4052_0000_0000_0000;

/// The pattern of the number 100.
pub const HUNDRED: u64 = 0x4059_0000_0000_0000;

/// What a formula yields: its computation for inputs inside its domain, and
/// no result for inputs outside it.
pub open spec fn within(inside: bool, computed: Result<Double, FinanceError>) -> Result<
    Double,
    FinanceError,
> {
    if inside {
        computed
    } else {
        Err(FinanceError::InvalidDomain)
    }
}

/// The three patterns named above stand for 70, 72 and 100, and the pattern
/// of one for 1.
pub proof fn lemma_constants()
    ensures
        Double::from_bits(SEVENTY).is_real() && Double::from_bits(SEVENTY).value() == 70real,
        Double::from_bits(SEVENTY_TWO).is_real(),
        Double::from_bits(SEVENTY_TWO).value() == 72real,
        Double::from_bits(HUNDRED).is_real() && Double::from_bits(HUNDRED).value() == 100real,
        Double::one().is_real() && Double::one().value() == 1real,
{
    lemma2_to64_rest();
    let seventy = Double::from_bits(SEVENTY);
    assert(seventy.exponent_field() == 1029 && seventy.fraction_field() == 0x1_8000_0000_0000);
    assert(70 * pow2(46) == 0x11_8000_0000_0000);
    lemma_whole_value(seventy, 70);
    let seventy_two = Double::from_bits(SEVENTY_TWO);
    assert(seventy_two.exponent_field() == 1029 && seventy_two.fraction_field()
        == 0x2_0000_0000_0000);
    assert(72 * pow2(46) == 0x12_0000_0000_0000);
    lemma_whole_value(seventy_two, 72);
    let hundred = Double::from_bits(HUNDRED);
    assert(hundred.exponent_field() == 1029 && hundred.fraction_field() == 0x9_0000_0000_0000);
    assert(100 * pow2(46) == 0x19_0000_0000_0000);
    lemma_whole_value(hundred, 100);
    let one = Double::one();
    assert(one.exponent_field() == 1023 && one.fraction_field() == 0);
    assert(1 * pow2(52) == 0x10_0000_0000_0000);
    lemma_whole_value(one, 1);
}

/// The interest rate of one compounding period:
/// `annual_percentage_rate / number_of_compounding`.
pub fn periodic_interest_rate(
    annual_percentage_rate: Double,
    number_of_compounding: Double,
) -> (outcome: Result<Double, FinanceError>)
    ensures
        outcome == within(
            annual_percentage_rate.is_real() && number_of_compounding.is_real()
                && number_of_compounding.value() != 0real,
            quotient(annual_percentage_rate, number_of_compounding),
        ),
{
    check_periodic_interest_rate(annual_percentage_rate, number_of_compounding)?;
    annual_percentage_rate.divided_by(number_of_compounding)
}

/// The holding period return: `profit / cost`.
pub fn holding_period_return(profit: Double, cost: Double) -> (outcome: Result<
    Double,
    FinanceError,
>)
    ensures
        outcome == within(
            profit.is_real() && cost.is_real() && cost.value() != 0real,
            quotient(profit, cost),
        ),
{
    check_holding_period_return(profit, cost)?;
    profit.divided_by(cost)
}

/// The return on investment: `(earnings - |cf0|) / |cf0|`.
pub fn return_on_investment(earnings: Double, cf0: Double) -> (outcome: Result<
    Double,
    FinanceError,
>)
    ensures
        outcome == within(
            earnings.is_real() && cf0.is_real() && cf0.value() != 0real,
            quotient_of(difference(earnings, cf0.absolute()), Ok(cf0.absolute())),
        ),
{
    check_return_on_investment(earnings, cf0)?;
    let outlay = cf0.abs();
    let gain = earnings.minus(outlay)?;
    gain.divided_by(outlay)
}

/// The rule of 72, an estimate of the time in which an amount doubles:
/// `72 / (rate * 100)`.
pub fn rule_of_72(rate: Double) -> (outcome: Result<Double, FinanceError>)
    ensures
        outcome == within(
            rate.is_real() && rate.value() != 0real,
            quotient_of(
                Ok(Double::from_bits(SEVENTY_TWO)),
                product(rate, Double::from_bits(HUNDRED)),
            ),
        ),
{
    check_rule_of_72(rate)?;
    let percent = rate.times(Double::from_bits(HUNDRED))?;
    Double::from_bits(SEVENTY_TWO).divided_by(percent)
}

/// The rule of 70, an estimate of the time in which an amount doubles:
/// `70 / (rate * 100)`.
pub fn rule_of_70(rate: Double) -> (outcome: Result<Double, FinanceError>)
    ensures
        outcome == within(
            rate.is_real() && rate.value() != 0real,
            quotient_of(Ok(Double::from_bits(SEVENTY)), product(rate, Double::from_bits(HUNDRED))),
        ),
{
    check_rule_of_70(rate)?;
    let percent = rate.times(Double::from_bits(HUNDRED))?;
    Double::from_bits(SEVENTY).divided_by(percent)
}

/// The leverage ratio: `(total_liabilities + total_debts) / total_income`.
pub fn leverage_ratio(
    total_liabilities: Double,
    total_debts: Double,
    total_income: Double,
) -> (outcome: Result<Double, FinanceError>)
    ensures
        outcome == within(
            total_liabilities.is_real() && total_debts.is_real() && total_income.is_real()
                && total_income.value() != 0real,
            quotient_of(sum(total_liabilities, total_debts), Ok(total_income)),
        ),
{
    check_leverage_ratio(total_liabilities, total_debts, total_income)?;
    let owed = total_liabilities.plus(total_debts)?;
    owed.divided_by(total_income)
}

/// The weighted average cost of capital as it is computed: with `v` the sum
/// of the two market values,
/// `(equity / v) * cost_of_equity + ((debt / v) * cost_of_debt) * (1 - tax_rate)`.
pub open spec fn weighted_cost(
    equity: Double,
    debt: Double,
    cost_of_equity: Double,
    cost_of_debt: Double,
    tax_rate: Double,
) -> Result<Double, FinanceError> {
    let value = sum(equity, debt);
    let of_equity = product_of(quotient_of(Ok(equity), value), Ok(cost_of_equity));
    let of_debt = product_of(quotient_of(Ok(debt), value), Ok(cost_of_debt));
    let kept = difference(Double::one(), tax_rate);
    sum_of(of_equity, product_of(of_debt, kept))
}

/// The weighted average cost of capital.
pub fn weighted_cost_of_capital(
    market_value_of_equity: Double,
    market_value_of_debt: Double,
    cost_of_equity: Double,
    cost_of_debt: Double,
    tax_rate: Double,
) -> (outcome: Result<Double, FinanceError>)
    ensures
        outcome == within(
            market_value_of_equity.is_real() && market_value_of_debt.is_real()
                && cost_of_equity.is_real() && cost_of_debt.is_real() && tax_rate.is_real()
                && market_value_of_equity.value() + market_value_of_debt.value() != 0real,
            weighted_cost(
                market_value_of_equity,
                market_value_of_debt,
                cost_of_equity,
                cost_of_debt,
                tax_rate,
            ),
        ),
{
    check_weighted_cost_of_capital(
        market_value_of_equity,
        market_value_of_debt,
        cost_of_equity,
        cost_of_debt,
        tax_rate,
    )?;
    let value = market_value_of_equity.plus(market_value_of_debt)?;
    let of_equity = market_value_of_equity.divided_by(value)?.times(cost_of_equity)?;
    let of_debt = market_value_of_debt.divided_by(value)?.times(cost_of_debt)?;
    let kept = Double::one().minus(tax_rate)?;
    of_equity.plus(of_debt.times(kept)?)
}

/// A power times its base, for a base that is a real number and not zero:
/// the product, rounded. Where the rounding lies beyond the range, and where
/// the power is an infinity already, it is the infinity of the two sign bits.
pub open spec fn raised(power: Double, base: Double) -> Double {
    match product(power, base) {
        Ok(next) => next,
        Err(_) => Double::infinity(power.sign() != base.sign()),
    }
}

/// `base` to the power of a whole `exponent`: that many products, each
/// rounded. A power beyond the range is an infinity.
pub open spec fn power(base: Double, exponent: nat) -> Double
    decreases exponent,
{
    if exponent == 0 {
        Double::one()
    } else {
        raised(power(base, (exponent - 1) as nat), base)
    }
}

/// The sum of the first `count` cash flows, the cash flow at index `i`
/// divided by `base` to the power of `i`. The sum starts from zero and takes
/// the cash flows in their order. A cash flow so late that the power is an
/// infinity counts as zero.
pub open spec fn discounted_sum(cash_flows: Seq<Double>, base: Double, count: nat) -> Result<
    Double,
    FinanceError,
>
    decreases count,
{
    if count == 0 {
        Ok(Double::zero())
    } else {
        sum_of(
            discounted_sum(cash_flows, base, (count - 1) as nat),
            quotient_by_power(cash_flows[count - 1], power(base, (count - 1) as nat)),
        )
    }
}

/// The net present value as it is computed: the discounted sum of all cash
/// flows with the base `1 + rate`.
pub open spec fn discounted_total(rate: Double, cash_flows: Seq<Double>) -> Result<
    Double,
    FinanceError,
> {
    match sum(Double::one(), rate) {
        Ok(base) => discounted_sum(cash_flows, base, cash_flows.len()),
        Err(error) => Err(error),
    }
}

/// Once a discounted sum has no result, no longer one has.
pub proof fn lemma_discounted_sum_stays_undefined(
    cash_flows: Seq<Double>,
    base: Double,
    short: nat,
    long: nat,
)
    requires
        short <= long,
        discounted_sum(cash_flows, base, short) is Err,
    ensures
        discounted_sum(cash_flows, base, long) == Err::<Double, FinanceError>(
            FinanceError::InvalidDomain,
        ),
    decreases long,
{
    if short < long {
        lemma_discounted_sum_stays_undefined(cash_flows, base, short, (long - 1) as nat);
    } else {
        let before = discounted_sum(cash_flows, base, (long - 1) as nat);
        let flow = cash_flows[long - 1];
        let term = quotient_by_power(flow, power(base, (long - 1) as nat));
        lemma_one_reason(flow, power(base, (long - 1) as nat));
        if before is Ok && term is Ok {
            lemma_one_reason(before->Ok_0, term->Ok_0);
        }
    }
}

/// The powers of a positive base are positive, and once one of them is an
/// infinity, every later one is: from there on each cash flow that is a real
/// number counts as zero, with its own sign bit.
pub proof fn lemma_late_cash_flows_vanish(base: Double, early: nat, late: nat, flow: Double)
    requires
        base.is_real(),
        !base.sign(),
        early <= late,
        power(base, early).is_infinite(),
        flow.is_real(),
    ensures
        power(base, late) == Double::infinity(false),
        quotient_by_power(flow, power(base, late)) == Ok::<Double, FinanceError>(
            Double::signed_zero(flow.sign()),
        ),
    decreases late,
{
    lemma_power_is_positive(base, late);
    if early < late {
        lemma_late_cash_flows_vanish(base, early, (late - 1) as nat, flow);
        assert(product(Double::infinity(false), base) is Err) by {
            reveal(product);
        }
    }
}

/// With a rate above minus one, the base `1 + rate` is a real number with a
/// clear sign bit.
pub proof fn lemma_base_is_positive(rate: Double, base: Double)
    requires
        rate.is_real(),
        rate.value() > -1real,
        sum(Double::one(), rate) == Ok::<Double, FinanceError>(base),
    ensures
        base.is_real(),
        !base.sign(),
{
    lemma_constants();
    lemma_results_are_roundings(Double::one(), rate);
}

/// The powers of a base with a clear sign bit have a clear sign bit.
pub proof fn lemma_power_is_positive(base: Double, exponent: nat)
    requires
        !base.sign(),
    ensures
        !power(base, exponent).sign(),
    decreases exponent,
{
    if exponent > 0 {
        let before = power(base, (exponent - 1) as nat);
        lemma_power_is_positive(base, (exponent - 1) as nat);
        lemma_results_are_roundings(before, base);
    }
}

/// A power times its base.
fn raise(power: Double, base: Double) -> (next: Double)
    ensures
        next == raised(power, base),
{
    match power.times(base) {
        Ok(next) => next,
        Err(_) => Double::infinity(power.sign_is_set() != base.sign_is_set()),
    }
}

/// The net present value of cash flows of which the first is due now and
/// each further one a period after the one before: the sum of
/// `cfs[i] / (1 + rate)^i`.
pub fn net_present_value(rate: Double, cfs: &[Double]) -> (outcome: Result<Double, FinanceError>)
    ensures
        outcome == (if cfs@.len() == 0 {
            Err(FinanceError::EmptyInput)
        } else {
            within(
                rate.is_real() && rate.value() > -1real && all_real(cfs@),
                discounted_total(rate, cfs@),
            )
        }),
{
    check_net_present_value(rate, cfs)?;
    let base = Double::one().plus(rate)?;
    let mut total = Double::zero();
    let mut factor = Double::one();
    let mut index: usize = 0;
    while index < cfs.len()
        invariant
            0 < cfs@.len(),
            rate.is_real() && rate.value() > -1real && all_real(cfs@),
            sum(Double::one(), rate) == Ok::<Double, FinanceError>(base),
            index <= cfs@.len(),
            discounted_sum(cfs@, base, index as nat) == Ok::<Double, FinanceError>(total),
            index == 0 ==> factor == Double::one(),
            index > 0 ==> power(base, (index - 1) as nat) == factor,
        decreases cfs@.len() - index,
    {
        let ghost next = (index + 1) as nat;
        assert(power(base, index as nat) == (if index == 0 {
            factor
        } else {
            raised(factor, base)
        }));
        assert(discounted_sum(cfs@, base, next) == sum_of(
            Ok(total),
            quotient_by_power(cfs@[index as int], power(base, index as nat)),
        ));
        if index > 0 {
            factor = raise(factor, base);
        }
        let term = match cfs[index].divided_by_power(factor) {
            Ok(term) => term,
            Err(error) => {
                proof {
                    lemma_discounted_sum_stays_undefined(cfs@, base, next, cfs@.len());
                }
                return Err(error);
            },
        };
        total =
        match total.plus(term) {
            Ok(sum) => sum,
            Err(error) => {
                proof {
                    lemma_discounted_sum_stays_undefined(cfs@, base, next, cfs@.len());
                }
                return Err(error);
            },
        };
        index += 1;
    }
    Ok(total)
}

} // verus!
