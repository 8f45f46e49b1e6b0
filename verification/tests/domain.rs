use finance::domain::{
    check_compound_annual_rate, check_effective_annual_rate, check_future_value,
    check_holding_period_return, check_interest_rate, check_leverage_ratio,
    check_net_present_value, check_number_of_compounding, check_payment,
    check_periodic_interest_rate, check_present_value, check_return_on_investment,
    check_rule_of_70, check_rule_of_72, check_weighted_cost_of_capital,
};
use finance::double::Double;
use finance::error::FinanceError;

fn double(number: f64) -> Double {
    Double::from_bits(number.to_bits())
}

fn doubles(numbers: &[f64]) -> Vec<Double> {
    numbers.iter().map(|number| double(*number)).collect()
}

const OUTSIDE: Result<(), FinanceError> = Err(FinanceError::InvalidDomain);

const NOT_REAL: [f64; 3] = [f64::NAN, f64::INFINITY, f64::NEG_INFINITY];

#[test]
fn present_value_needs_a_rate_above_minus_one() {
    assert_eq!(check_present_value(double(0.1), double(1.0), double(1000.0)), Ok(()));
    assert_eq!(
        check_present_value(double(-0.9999999999999999), double(1.0), double(1000.0)),
        Ok(())
    );
    assert_eq!(check_present_value(double(-0.0), double(0.0), double(-0.0)), Ok(()));
    assert_eq!(check_present_value(double(-1.0), double(1.0), double(1000.0)), OUTSIDE);
    assert_eq!(
        check_present_value(double(-1.0000000000000002), double(1.0), double(1000.0)),
        OUTSIDE
    );
    assert_eq!(check_present_value(double(-2.5), double(0.5), double(1000.0)), OUTSIDE);
    for number in NOT_REAL {
        assert_eq!(check_present_value(double(number), double(1.0), double(1000.0)), OUTSIDE);
        assert_eq!(check_present_value(double(0.1), double(number), double(1000.0)), OUTSIDE);
        assert_eq!(check_present_value(double(0.1), double(1.0), double(number)), OUTSIDE);
    }
}

#[test]
fn future_value_needs_a_rate_above_minus_one() {
    assert_eq!(check_future_value(double(0.1), double(1.0), double(1000.0)), Ok(()));
    assert_eq!(check_future_value(double(-0.5), double(2.5), double(-1000.0)), Ok(()));
    assert_eq!(check_future_value(double(-1.0), double(1.0), double(1000.0)), OUTSIDE);
    assert_eq!(check_future_value(double(-1e300), double(1.0), double(1000.0)), OUTSIDE);
    for number in NOT_REAL {
        assert_eq!(check_future_value(double(number), double(1.0), double(1000.0)), OUTSIDE);
        assert_eq!(check_future_value(double(0.1), double(number), double(1000.0)), OUTSIDE);
        assert_eq!(check_future_value(double(0.1), double(1.0), double(number)), OUTSIDE);
    }
}

#[test]
fn net_present_value_needs_cash_flows() {
    assert_eq!(check_net_present_value(double(0.1), &[]), Err(FinanceError::EmptyInput));
    assert_eq!(check_net_present_value(double(-1.0), &[]), Err(FinanceError::EmptyInput));
    assert_eq!(check_net_present_value(double(f64::NAN), &[]), Err(FinanceError::EmptyInput));
}

#[test]
fn net_present_value_needs_a_rate_above_minus_one() {
    let cash_flows = doubles(&[-1000.0, 500.0, 500.0, 500.0]);
    assert_eq!(check_net_present_value(double(0.1), &cash_flows), Ok(()));
    assert_eq!(check_net_present_value(double(0.0), &doubles(&[0.0])), Ok(()));
    assert_eq!(check_net_present_value(double(-1.0), &cash_flows), OUTSIDE);
    assert_eq!(check_net_present_value(double(-3.0), &cash_flows), OUTSIDE);
    assert_eq!(check_net_present_value(double(f64::INFINITY), &cash_flows), OUTSIDE);
}

#[test]
fn net_present_value_needs_real_cash_flows() {
    for number in NOT_REAL {
        for place in 0..4 {
            let mut cash_flows = [-1000.0, 500.0, 500.0, 500.0];
            cash_flows[place] = number;
            assert_eq!(check_net_present_value(double(0.1), &doubles(&cash_flows)), OUTSIDE);
        }
    }
}

#[test]
fn payment_needs_a_rate_that_is_not_zero() {
    assert_eq!(check_payment(double(190000.0), double(30.0), double(0.08)), Ok(()));
    assert_eq!(check_payment(double(190000.0), double(30.0), double(-0.08)), Ok(()));
    assert_eq!(check_payment(double(190000.0), double(30.0), double(5e-324)), Ok(()));
    assert_eq!(check_payment(double(190000.0), double(30.0), double(0.0)), OUTSIDE);
    assert_eq!(check_payment(double(190000.0), double(30.0), double(-0.0)), OUTSIDE);
    for number in NOT_REAL {
        assert_eq!(check_payment(double(number), double(30.0), double(0.08)), OUTSIDE);
        assert_eq!(check_payment(double(190000.0), double(number), double(0.08)), OUTSIDE);
        assert_eq!(check_payment(double(190000.0), double(30.0), double(number)), OUTSIDE);
    }
}

#[test]
fn periodic_interest_rate_needs_a_count_that_is_not_zero() {
    assert_eq!(check_periodic_interest_rate(double(0.10), double(4.0)), Ok(()));
    assert_eq!(check_periodic_interest_rate(double(0.0), double(-4.0)), Ok(()));
    assert_eq!(check_periodic_interest_rate(double(0.10), double(0.0)), OUTSIDE);
    assert_eq!(check_periodic_interest_rate(double(0.10), double(-0.0)), OUTSIDE);
    for number in NOT_REAL {
        assert_eq!(check_periodic_interest_rate(double(number), double(4.0)), OUTSIDE);
        assert_eq!(check_periodic_interest_rate(double(0.10), double(number)), OUTSIDE);
    }
}

#[test]
fn holding_period_return_needs_a_cost_that_is_not_zero() {
    assert_eq!(check_holding_period_return(double(5000.0), double(4000.0)), Ok(()));
    assert_eq!(check_holding_period_return(double(0.0), double(-4000.0)), Ok(()));
    assert_eq!(check_holding_period_return(double(5000.0), double(0.0)), OUTSIDE);
    assert_eq!(check_holding_period_return(double(5000.0), double(-0.0)), OUTSIDE);
    for number in NOT_REAL {
        assert_eq!(check_holding_period_return(double(number), double(4000.0)), OUTSIDE);
        assert_eq!(check_holding_period_return(double(5000.0), double(number)), OUTSIDE);
    }
}

#[test]
fn number_of_compounding_needs_a_positive_quotient() {
    assert_eq!(check_number_of_compounding(double(5000.0), double(4000.0), double(0.02)), Ok(()));
    assert_eq!(check_number_of_compounding(double(-5000.0), double(-4000.0), double(0.02)), Ok(()));
    assert_eq!(check_number_of_compounding(double(5e-324), double(1e300), double(0.02)), Ok(()));
    assert_eq!(check_number_of_compounding(double(0.0), double(4000.0), double(0.02)), OUTSIDE);
    assert_eq!(check_number_of_compounding(double(5000.0), double(0.0), double(0.02)), OUTSIDE);
    assert_eq!(check_number_of_compounding(double(-5000.0), double(4000.0), double(0.02)), OUTSIDE);
    assert_eq!(check_number_of_compounding(double(5000.0), double(-4000.0), double(0.02)), OUTSIDE);
    assert_eq!(check_number_of_compounding(double(0.0), double(0.0), double(0.02)), OUTSIDE);
}

#[test]
fn number_of_compounding_needs_a_rate_above_minus_one_and_not_zero() {
    assert_eq!(check_number_of_compounding(double(5000.0), double(4000.0), double(-0.5)), Ok(()));
    assert_eq!(check_number_of_compounding(double(5000.0), double(4000.0), double(0.0)), OUTSIDE);
    assert_eq!(check_number_of_compounding(double(5000.0), double(4000.0), double(-0.0)), OUTSIDE);
    assert_eq!(check_number_of_compounding(double(5000.0), double(4000.0), double(-1.0)), OUTSIDE);
    assert_eq!(check_number_of_compounding(double(5000.0), double(4000.0), double(-7.0)), OUTSIDE);
    for number in NOT_REAL {
        assert_eq!(
            check_number_of_compounding(double(number), double(4000.0), double(0.02)),
            OUTSIDE
        );
        assert_eq!(
            check_number_of_compounding(double(5000.0), double(number), double(0.02)),
            OUTSIDE
        );
        assert_eq!(
            check_number_of_compounding(double(5000.0), double(4000.0), double(number)),
            OUTSIDE
        );
    }
}

#[test]
fn return_on_investment_needs_a_cash_flow_that_is_not_zero() {
    assert_eq!(check_return_on_investment(double(5000.0), double(4000.0)), Ok(()));
    assert_eq!(check_return_on_investment(double(5000.0), double(-4000.0)), Ok(()));
    assert_eq!(check_return_on_investment(double(5000.0), double(0.0)), OUTSIDE);
    assert_eq!(check_return_on_investment(double(5000.0), double(-0.0)), OUTSIDE);
    for number in NOT_REAL {
        assert_eq!(check_return_on_investment(double(number), double(4000.0)), OUTSIDE);
        assert_eq!(check_return_on_investment(double(5000.0), double(number)), OUTSIDE);
    }
}

#[test]
fn interest_rate_needs_a_quotient_that_is_not_negative() {
    assert_eq!(check_interest_rate(double(5000.0), double(4000.0), double(4.0)), Ok(()));
    assert_eq!(check_interest_rate(double(0.0), double(4000.0), double(4.0)), Ok(()));
    assert_eq!(check_interest_rate(double(-0.0), double(-4000.0), double(4.0)), Ok(()));
    assert_eq!(check_interest_rate(double(-5000.0), double(-4000.0), double(-4.0)), Ok(()));
    assert_eq!(check_interest_rate(double(-5000.0), double(4000.0), double(4.0)), OUTSIDE);
    assert_eq!(check_interest_rate(double(5000.0), double(-4000.0), double(4.0)), OUTSIDE);
    assert_eq!(check_interest_rate(double(5000.0), double(0.0), double(4.0)), OUTSIDE);
    assert_eq!(check_interest_rate(double(0.0), double(-0.0), double(4.0)), OUTSIDE);
    assert_eq!(check_interest_rate(double(5000.0), double(4000.0), double(0.0)), OUTSIDE);
    assert_eq!(check_interest_rate(double(5000.0), double(4000.0), double(-0.0)), OUTSIDE);
    for number in NOT_REAL {
        assert_eq!(check_interest_rate(double(number), double(4000.0), double(4.0)), OUTSIDE);
        assert_eq!(check_interest_rate(double(5000.0), double(number), double(4.0)), OUTSIDE);
        assert_eq!(check_interest_rate(double(5000.0), double(4000.0), double(number)), OUTSIDE);
    }
}

#[test]
fn rules_of_72_and_70_need_a_rate_that_is_not_zero() {
    assert_eq!(check_rule_of_72(double(0.035)), Ok(()));
    assert_eq!(check_rule_of_70(double(0.035)), Ok(()));
    assert_eq!(check_rule_of_72(double(-0.035)), Ok(()));
    assert_eq!(check_rule_of_70(double(-0.035)), Ok(()));
    assert_eq!(check_rule_of_72(double(0.0)), OUTSIDE);
    assert_eq!(check_rule_of_70(double(0.0)), OUTSIDE);
    assert_eq!(check_rule_of_72(double(-0.0)), OUTSIDE);
    assert_eq!(check_rule_of_70(double(-0.0)), OUTSIDE);
    for number in NOT_REAL {
        assert_eq!(check_rule_of_72(double(number)), OUTSIDE);
        assert_eq!(check_rule_of_70(double(number)), OUTSIDE);
    }
}

#[test]
fn leverage_ratio_needs_an_income_that_is_not_zero() {
    assert_eq!(check_leverage_ratio(double(1000.0), double(2000.0), double(4000.0)), Ok(()));
    assert_eq!(check_leverage_ratio(double(0.0), double(0.0), double(-4000.0)), Ok(()));
    assert_eq!(check_leverage_ratio(double(1000.0), double(2000.0), double(0.0)), OUTSIDE);
    assert_eq!(check_leverage_ratio(double(1000.0), double(2000.0), double(-0.0)), OUTSIDE);
    for number in NOT_REAL {
        assert_eq!(check_leverage_ratio(double(number), double(2000.0), double(4000.0)), OUTSIDE);
        assert_eq!(check_leverage_ratio(double(1000.0), double(number), double(4000.0)), OUTSIDE);
        assert_eq!(check_leverage_ratio(double(1000.0), double(2000.0), double(number)), OUTSIDE);
    }
}

#[test]
fn weighted_cost_of_capital_needs_a_market_value() {
    let accepted = check_weighted_cost_of_capital(
        double(2000000.0),
        double(1000000.0),
        double(0.07),
        double(0.05),
        double(0.4),
    );
    assert_eq!(accepted, Ok(()));
    let one_sided = check_weighted_cost_of_capital(
        double(2000000.0),
        double(0.0),
        double(0.07),
        double(0.05),
        double(0.4),
    );
    assert_eq!(one_sided, Ok(()));
    for (equity, debt) in [(0.0, 0.0), (-0.0, 0.0), (2000000.0, -2000000.0), (-5e-324, 5e-324)] {
        let refused = check_weighted_cost_of_capital(
            double(equity),
            double(debt),
            double(0.07),
            double(0.05),
            double(0.4),
        );
        assert_eq!(refused, OUTSIDE);
    }
    for number in NOT_REAL {
        for place in 0..5 {
            let mut inputs = [2000000.0, 1000000.0, 0.07, 0.05, 0.4];
            inputs[place] = number;
            let refused = check_weighted_cost_of_capital(
                double(inputs[0]),
                double(inputs[1]),
                double(inputs[2]),
                double(inputs[3]),
                double(inputs[4]),
            );
            assert_eq!(refused, OUTSIDE);
        }
    }
}

#[test]
fn compound_annual_rate_needs_a_quotient_that_is_not_negative() {
    assert_eq!(check_compound_annual_rate(double(20000.0), double(15000.0), double(3.0)), Ok(()));
    assert_eq!(check_compound_annual_rate(double(20000.0), double(0.0), double(3.0)), Ok(()));
    assert_eq!(check_compound_annual_rate(double(-20000.0), double(-15000.0), double(3.0)), Ok(()));
    assert_eq!(check_compound_annual_rate(double(0.0), double(15000.0), double(3.0)), OUTSIDE);
    assert_eq!(check_compound_annual_rate(double(-20000.0), double(15000.0), double(3.0)), OUTSIDE);
    assert_eq!(check_compound_annual_rate(double(20000.0), double(-15000.0), double(3.0)), OUTSIDE);
    assert_eq!(check_compound_annual_rate(double(20000.0), double(15000.0), double(0.0)), OUTSIDE);
    for number in NOT_REAL {
        assert_eq!(
            check_compound_annual_rate(double(number), double(15000.0), double(3.0)),
            OUTSIDE
        );
        assert_eq!(
            check_compound_annual_rate(double(20000.0), double(number), double(3.0)),
            OUTSIDE
        );
        assert_eq!(
            check_compound_annual_rate(double(20000.0), double(15000.0), double(number)),
            OUTSIDE
        );
    }
}

#[test]
fn effective_annual_rate_needs_a_count_that_is_not_zero() {
    assert_eq!(check_effective_annual_rate(double(0.05), double(12.0)), Ok(()));
    assert_eq!(check_effective_annual_rate(double(0.05), double(0.0)), OUTSIDE);
    assert_eq!(check_effective_annual_rate(double(0.05), double(-0.0)), OUTSIDE);
    for number in NOT_REAL {
        assert_eq!(check_effective_annual_rate(double(number), double(12.0)), OUTSIDE);
        assert_eq!(check_effective_annual_rate(double(0.05), double(number)), OUTSIDE);
    }
}
