use finance::double::Double;
use finance::error::FinanceError;
use finance::formulas::{
    holding_period_return, leverage_ratio, net_present_value, periodic_interest_rate,
    return_on_investment, rule_of_70, rule_of_72, weighted_cost_of_capital,
};
use round::round;

fn double(number: f64) -> Double {
    Double::from_bits(number.to_bits())
}

fn doubles(numbers: &[f64]) -> Vec<Double> {
    numbers.iter().map(|number| double(*number)).collect()
}

fn number(outcome: Result<Double, FinanceError>) -> f64 {
    f64::from_bits(outcome.unwrap().to_bits())
}

fn bits(outcome: Result<Double, FinanceError>) -> Result<u64, FinanceError> {
    outcome.map(|number| number.to_bits())
}

fn expected(result: f64) -> Result<u64, FinanceError> {
    if result.is_finite() {
        Ok(result.to_bits())
    } else {
        Err(FinanceError::InvalidDomain)
    }
}

const OUTSIDE: Result<u64, FinanceError> = Err(FinanceError::InvalidDomain);

const NOT_REAL: [f64; 3] = [f64::NAN, f64::INFINITY, f64::NEG_INFINITY];

fn amounts() -> Vec<f64> {
    vec![
        0.0, -0.0, 0.01, 0.035, 0.05, 0.07, 0.1, 0.4, 1.0, -1.0, 3.0, 12.0, 72.0, 500.0, -1000.0,
        1000.0, 2000.0, 4000.0, 5000.0, 190000.0, 1000000.0, 2000000.0, 1e-320, 1e-300, 1e300,
        -1e300, 1.7e308,
    ]
}

#[test]
fn test_net_present_value() {
    let test_npv = number(net_present_value(double(0.1), &doubles(&[-1000., 500., 500., 500.])));

    assert_eq!(round(test_npv, 2), 243.43);
}

#[test]
fn test_periodic_interest_rate() {
    let test_value = number(periodic_interest_rate(double(0.10), double(4.)));

    assert_eq!(round(test_value, 3), 0.025);
}

#[test]
fn test_hpr() {
    let test_value = number(holding_period_return(double(5000.), double(4000.)));
    assert_eq!(test_value, 1.25);
}

#[test]
fn test_roi() {
    let test_value = round(number(return_on_investment(double(5000.), double(4000.))), 2);

    assert_eq!(test_value, 0.25);
}

#[test]
fn test_rule_of_72() {
    assert_eq!(round(number(rule_of_72(double(0.035))), 2), 20.57);
}

#[test]
fn test_rule_of_70() {
    assert_eq!(round(number(rule_of_70(double(0.035))), 2), 20.);
}

#[test]
fn test_leverage_ratio() {
    let test_ratio = number(leverage_ratio(double(1000.), double(2000.), double(4000.)));
    assert_eq!(round(test_ratio, 2), 0.75);
}

#[test]
fn test_wacc() {
    let test_value = number(weighted_cost_of_capital(
        double(2000000.00),
        double(1000000.00),
        double(0.07),
        double(0.05),
        double(0.4),
    ));
    assert_eq!(round(test_value, 4), 0.0567);
}

#[test]
fn return_on_investment_is_not_rounded() {
    let exact = number(return_on_investment(double(5000.), double(4000.)));
    assert_eq!(exact, 0.25);
    let thirds = number(return_on_investment(double(4000.), double(3000.)));
    assert!((thirds - 1.0 / 3.0).abs() < 1e-15);
    assert_eq!(thirds, (4000.0f64 - 3000.0) / 3000.0);
    let negative_outlay = number(return_on_investment(double(4000.), double(-3000.)));
    assert_eq!(negative_outlay, thirds);
}

#[test]
fn leverage_ratio_is_exact_where_the_quotient_is() {
    assert_eq!(number(leverage_ratio(double(1000.), double(2000.), double(4000.))), 0.75);
    assert_eq!(number(leverage_ratio(double(1.5), double(-0.5), double(-8.0))), -0.125);
}

#[test]
fn quotient_formulas_agree_with_the_hardware() {
    for a in amounts() {
        for b in amounts() {
            if b == 0.0 {
                assert_eq!(bits(periodic_interest_rate(double(a), double(b))), OUTSIDE);
                assert_eq!(bits(holding_period_return(double(a), double(b))), OUTSIDE);
                assert_eq!(bits(return_on_investment(double(a), double(b))), OUTSIDE);
            } else {
                assert_eq!(bits(periodic_interest_rate(double(a), double(b))), expected(a / b));
                assert_eq!(bits(holding_period_return(double(a), double(b))), expected(a / b));
                let roi = if (a - b.abs()).is_finite() {
                    expected((a - b.abs()) / b.abs())
                } else {
                    OUTSIDE
                };
                assert_eq!(bits(return_on_investment(double(a), double(b))), roi, "{a:e} {b:e}");
            }
        }
    }
}

#[test]
fn rules_agree_with_the_hardware() {
    for rate in amounts() {
        if rate == 0.0 {
            assert_eq!(bits(rule_of_72(double(rate))), OUTSIDE);
            assert_eq!(bits(rule_of_70(double(rate))), OUTSIDE);
        } else if (rate * 100.0).is_finite() {
            assert_eq!(bits(rule_of_72(double(rate))), expected(72.0 / (rate * 100.0)), "{rate:e}");
            assert_eq!(bits(rule_of_70(double(rate))), expected(70.0 / (rate * 100.0)), "{rate:e}");
        } else {
            assert_eq!(bits(rule_of_72(double(rate))), OUTSIDE);
            assert_eq!(bits(rule_of_70(double(rate))), OUTSIDE);
        }
    }
}

#[test]
fn leverage_ratio_agrees_with_the_hardware() {
    for l in amounts() {
        for d in amounts() {
            for i in amounts() {
                let outcome = bits(leverage_ratio(double(l), double(d), double(i)));
                if i == 0.0 || !(l + d).is_finite() {
                    assert_eq!(outcome, OUTSIDE);
                } else {
                    assert_eq!(outcome, expected((l + d) / i), "{l:e} {d:e} {i:e}");
                }
            }
        }
    }
}

fn hardware_wacc(e: f64, d: f64, re: f64, rd: f64, t: f64) -> Result<u64, FinanceError> {
    let v = e + d;
    let steps = [v, e / v, (e / v) * re, d / v, (d / v) * rd, 1.0 - t, ((d / v) * rd) * (1.0 - t)];
    if v == 0.0 || steps.iter().any(|step| !step.is_finite()) {
        return OUTSIDE;
    }
    expected(((e / v) * re) + (((d / v) * rd) * (1. - t)))
}

#[test]
fn weighted_cost_of_capital_agrees_with_the_hardware() {
    let values = [0.0, 1.0, -1.0, 1000000.0, 2000000.0, -2000000.0, 1e-310, 1e300, 1.7e308];
    let rates = [0.0, 0.05, 0.07, 0.4, -0.1, 1e200];
    for e in values {
        for d in values {
            for re in rates {
                for rd in rates {
                    for t in rates {
                        let outcome = bits(weighted_cost_of_capital(
                            double(e),
                            double(d),
                            double(re),
                            double(rd),
                            double(t),
                        ));
                        let expected = hardware_wacc(e, d, re, rd, t);
                        assert_eq!(outcome, expected, "{e:e} {d:e} {re:e} {rd:e} {t:e}");
                    }
                }
            }
        }
    }
}

#[test]
fn net_present_value_takes_the_first_cash_flow_as_it_is() {
    assert_eq!(number(net_present_value(double(0.1), &doubles(&[-1000.0]))), -1000.0);
    assert_eq!(number(net_present_value(double(0.25), &doubles(&[100.0, 125.0]))), 200.0);
    assert_eq!(number(net_present_value(double(0.0), &doubles(&[1.0, 2.0, 3.0, 4.0]))), 10.0);
    assert_eq!(number(net_present_value(double(1.0), &doubles(&[8.0, 8.0, 8.0, 8.0]))), 15.0);
    assert_eq!(number(net_present_value(double(-0.5), &doubles(&[1.0, 1.0, 1.0]))), 7.0);
}

#[test]
fn net_present_value_keeps_the_order_of_the_cash_flows() {
    let forward = number(net_present_value(double(1.0), &doubles(&[1.0, 2.0, 4.0])));
    let backward = number(net_present_value(double(1.0), &doubles(&[4.0, 2.0, 1.0])));
    assert_eq!(forward, 3.0);
    assert_eq!(backward, 5.25);
}

#[test]
fn net_present_value_multiplies_and_divides_as_the_hardware_does() {
    for rate in [0.1, 0.035, 0.0, -0.25, 2.5, 1e-9, 1e5, 1e10, 1e160, 1e300, f64::MAX] {
        let cash_flows: Vec<f64> = (0..60).map(|n| 1000.0 - 37.5 * n as f64).collect();
        let base = 1.0 + rate;
        let mut power = 1.0;
        let mut total = 0.0;
        for (n, flow) in cash_flows.iter().enumerate() {
            if n > 0 {
                power *= base;
            }
            total += flow / power;
        }
        let outcome = net_present_value(double(rate), &doubles(&cash_flows));
        assert_eq!(bits(outcome), expected(total), "{rate:e}");
        let mut with_powers = 0.0;
        for (n, flow) in cash_flows.iter().enumerate() {
            with_powers += flow / base.powf(n as f64);
        }
        assert!((total - with_powers).abs() <= 1e-9 * with_powers.abs(), "{rate:e}");
    }
}

#[test]
fn net_present_value_refuses_what_lies_outside_its_domain() {
    let cash_flows = doubles(&[-1000.0, 500.0, 500.0, 500.0]);
    assert_eq!(bits(net_present_value(double(0.1), &[])), Err(FinanceError::EmptyInput));
    assert_eq!(bits(net_present_value(double(f64::NAN), &[])), Err(FinanceError::EmptyInput));
    assert_eq!(bits(net_present_value(double(-1.0), &cash_flows)), OUTSIDE);
    assert_eq!(bits(net_present_value(double(-1.5), &cash_flows)), OUTSIDE);
    for number in NOT_REAL {
        assert_eq!(bits(net_present_value(double(number), &cash_flows)), OUTSIDE);
        assert_eq!(bits(net_present_value(double(0.1), &doubles(&[1.0, number]))), OUTSIDE);
    }
}

#[test]
fn net_present_value_has_no_result_beyond_the_range() {
    let huge = doubles(&[1.7e308, 1.7e308]);
    assert_eq!(bits(net_present_value(double(0.0), &huge)), OUTSIDE);
    let falling = doubles(&[1.0; 1200]);
    assert_eq!(bits(net_present_value(double(-0.5), &falling)), OUTSIDE);
}

#[test]
fn a_cash_flow_so_late_that_the_power_is_an_infinity_counts_as_zero() {
    let steep = 2f64.powi(1023);
    assert_eq!(bits(net_present_value(double(steep), &doubles(&[1.0, 1.0]))), Ok(1.0f64.to_bits()));
    let three = doubles(&[1.0, 1.0, 1.0]);
    assert_eq!(bits(net_present_value(double(steep), &three)), Ok(1.0f64.to_bits()));
    let flat = doubles(&[1.0, 1.0]);
    assert_eq!(bits(net_present_value(double(1.7e308), &flat)), Ok(1.0f64.to_bits()));
    let many = doubles(&[1.0; 40]);
    let outcome = number(net_present_value(double(1e10), &many));
    assert!((outcome - (1.0 + 1e-10)).abs() < 1e-15);
    // What comes after the power has left the range changes nothing.
    let early = doubles(&[5.0, 1.0, 2.0]);
    let late = doubles(&[5.0, 1.0, 2.0, 1e300, -1e300, f64::MAX, -7.0]);
    assert_eq!(
        bits(net_present_value(double(1e160), &late)),
        bits(net_present_value(double(1e160), &early))
    );
    let negative = doubles(&[-0.0, -1.0, -1.0]);
    assert_eq!(
        bits(net_present_value(double(steep), &negative)),
        Ok((-0.0 + -1.0 / steep + -1.0 / f64::INFINITY).to_bits())
    );
}

#[test]
fn a_zero_denominator_is_an_invalid_domain() {
    for zero in [0.0, -0.0] {
        assert_eq!(bits(periodic_interest_rate(double(0.10), double(zero))), OUTSIDE);
        assert_eq!(bits(holding_period_return(double(5000.0), double(zero))), OUTSIDE);
        assert_eq!(bits(return_on_investment(double(5000.0), double(zero))), OUTSIDE);
        assert_eq!(bits(rule_of_72(double(zero))), OUTSIDE);
        assert_eq!(bits(rule_of_70(double(zero))), OUTSIDE);
        assert_eq!(bits(leverage_ratio(double(1000.0), double(2000.0), double(zero))), OUTSIDE);
    }
    for (equity, debt) in [(0.0, 0.0), (0.0, -0.0), (2000000.0, -2000000.0)] {
        let outcome = weighted_cost_of_capital(
            double(equity),
            double(debt),
            double(0.07),
            double(0.05),
            double(0.4),
        );
        assert_eq!(bits(outcome), OUTSIDE);
    }
}

#[test]
fn formulas_refuse_what_is_not_real() {
    for number in NOT_REAL {
        assert_eq!(bits(periodic_interest_rate(double(number), double(4.0))), OUTSIDE);
        assert_eq!(bits(periodic_interest_rate(double(0.1), double(number))), OUTSIDE);
        assert_eq!(bits(holding_period_return(double(number), double(4.0))), OUTSIDE);
        assert_eq!(bits(holding_period_return(double(0.1), double(number))), OUTSIDE);
        assert_eq!(bits(return_on_investment(double(number), double(4.0))), OUTSIDE);
        assert_eq!(bits(return_on_investment(double(0.1), double(number))), OUTSIDE);
        assert_eq!(bits(rule_of_72(double(number))), OUTSIDE);
        assert_eq!(bits(rule_of_70(double(number))), OUTSIDE);
        assert_eq!(bits(leverage_ratio(double(number), double(1.0), double(1.0))), OUTSIDE);
        assert_eq!(bits(leverage_ratio(double(1.0), double(number), double(1.0))), OUTSIDE);
        assert_eq!(bits(leverage_ratio(double(1.0), double(1.0), double(number))), OUTSIDE);
    }
}

#[test]
fn the_same_inputs_give_the_same_bits() {
    let cash_flows = doubles(&[-1000.0, 500.0, 500.0, 500.0]);
    assert_eq!(
        bits(net_present_value(double(0.1), &cash_flows)),
        bits(net_present_value(double(0.1), &cash_flows))
    );
    assert_eq!(bits(rule_of_72(double(0.035))), bits(rule_of_72(double(0.035))));
    assert_eq!(
        bits(leverage_ratio(double(1000.0), double(2000.0), double(4000.0))),
        bits(leverage_ratio(double(1000.0), double(2000.0), double(4000.0)))
    );
    let cost = || {
        weighted_cost_of_capital(double(2e6), double(1e6), double(0.07), double(0.05), double(0.4))
    };
    assert_eq!(bits(cost()), bits(cost()));
    assert_eq!(bits(rule_of_70(double(-0.0))), bits(rule_of_70(double(-0.0))));
}

#[test]
fn formulas_give_the_exact_value_where_it_is_a_binary64_number() {
    assert_eq!(number(periodic_interest_rate(double(0.10), double(4.0))), 0.025);
    assert_eq!(number(periodic_interest_rate(double(-3.0), double(8.0))), -0.375);
    assert_eq!(number(holding_period_return(double(-3.0), double(-8.0))), 0.375);
    assert_eq!(number(return_on_investment(double(10.0), double(-8.0))), 0.25);
    assert_eq!(number(rule_of_72(double(0.5))), 1.44);
    assert_eq!(number(rule_of_72(double(0.09))), 8.0);
    assert_eq!(number(rule_of_70(double(0.5))), 1.4);
    assert_eq!(number(rule_of_70(double(-0.25))), -2.8);
    let cost = weighted_cost_of_capital(
        double(1.0),
        double(1.0),
        double(0.5),
        double(0.25),
        double(0.5),
    );
    assert_eq!(number(cost), 0.3125);
    let without_debt = weighted_cost_of_capital(
        double(2000000.0),
        double(0.0),
        double(0.07),
        double(0.05),
        double(0.4),
    );
    assert_eq!(number(without_debt), 0.07);
}
