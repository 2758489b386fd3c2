use calculator::number::Operator;
use calculator::state::{ButtonType, Calculator, Message};

fn digits(c: &mut Calculator, s: &str) {
    for ch in s.chars() {
        if ch == '.' {
            c.input_decimal();
        } else {
            c.input_number(ch);
        }
    }
}

#[test]
fn digit_entry_shows_the_numeral() {
    let mut c = Calculator::new();
    c.input_number('1');
    c.input_number('2');
    c.input_number('3');
    assert_eq!(c.display_str(), "123");
}

#[test]
fn leading_zero_is_replaced() {
    let mut c = Calculator::new();
    c.input_number('0');
    c.input_number('1');
    c.input_number('2');
    assert_eq!(c.display_str(), "12");
}

#[test]
fn five_plus_three_is_eight() {
    let mut c = Calculator::new();
    c.input_number('5');
    c.input_operator(Operator::Add);
    c.input_number('3');
    c.execute_calculation();
    assert_eq!(c.display_str(), "8");
    assert_eq!(c.get_display_value(), 8 * 10_000_000_000);
}

#[test]
fn divide_by_zero_shows_the_error_marker() {
    let mut c = Calculator::new();
    c.input_number('5');
    c.input_operator(Operator::Divide);
    c.input_number('0');
    c.execute_calculation();
    assert_eq!(c.display_str(), "Error");
    assert!(c.is_error());
}

#[test]
fn chained_operators_apply_left_to_right() {
    let mut c = Calculator::new();
    c.input_number('4');
    c.input_operator(Operator::Add);
    c.input_number('3');
    c.input_operator(Operator::Multiply);
    assert_eq!(c.display_str(), "7");
    c.input_number('2');
    c.execute_calculation();
    assert_eq!(c.display_str(), "14");
}

#[test]
fn percent_of_zero_is_zero_twice() {
    let mut c = Calculator::new();
    c.input_number('0');
    c.calculate_percent();
    assert_eq!(c.display_str(), "0");
    c.calculate_percent();
    assert_eq!(c.display_str(), "0");
}

#[test]
fn percent_of_fifty_is_a_half() {
    let mut c = Calculator::new();
    c.input_number('5');
    c.input_number('0');
    c.calculate_percent();
    assert_eq!(c.display_str(), "0.5");
}

#[test]
fn percent_twice_keeps_dividing() {
    let mut c = Calculator::new();
    digits(&mut c, "50");
    c.calculate_percent();
    c.calculate_percent();
    assert_eq!(c.display_str(), "0.005");
}

#[test]
fn sign_toggle_on_initial_zero_is_a_no_op() {
    let mut c = Calculator::new();
    c.toggle_sign();
    assert_eq!(c.display_str(), "0");
    assert!(!c.is_error());
    assert_eq!(c.get_display_value(), 0);
}

#[test]
fn clear_after_error_restores_the_initial_state() {
    let mut c = Calculator::new();
    c.input_number('5');
    c.input_operator(Operator::Divide);
    c.input_number('0');
    c.execute_calculation();
    assert!(c.is_error());
    c.clear();
    assert_eq!(c.display_str(), "0");
    assert!(!c.is_error());
    assert_eq!(c.get_display_value(), 0);
    c.input_number('1');
    c.input_operator(Operator::Add);
    c.input_number('1');
    c.execute_calculation();
    assert_eq!(c.display_str(), "2");
}

#[test]
fn second_decimal_point_is_ignored() {
    let mut c = Calculator::new();
    c.input_number('1');
    c.input_decimal();
    c.input_decimal();
    c.input_number('5');
    assert_eq!(c.display_str(), "1.5");
}

#[test]
fn tenth_plus_two_tenths_is_exactly_three_tenths() {
    let mut c = Calculator::new();
    digits(&mut c, "0.1");
    c.input_operator(Operator::Add);
    digits(&mut c, "0.2");
    c.execute_calculation();
    assert_eq!(c.display_str(), "0.3");
}

#[test]
fn thirds_round_to_ten_fractional_digits() {
    let mut c = Calculator::new();
    c.input_number('1');
    c.input_operator(Operator::Divide);
    c.input_number('3');
    c.execute_calculation();
    assert_eq!(c.display_str(), "0.3333333333");
    c.clear();
    c.input_number('2');
    c.input_operator(Operator::Divide);
    c.input_number('3');
    c.execute_calculation();
    assert_eq!(c.display_str(), "0.6666666667");
}

#[test]
fn one_seventh_rounds_half_up() {
    let mut c = Calculator::new();
    c.input_number('1');
    c.input_operator(Operator::Divide);
    c.input_number('7');
    c.execute_calculation();
    assert_eq!(c.display_str(), "0.1428571429");
}

#[test]
fn integral_results_drop_the_point() {
    let mut c = Calculator::new();
    digits(&mut c, "7.5");
    c.input_operator(Operator::Subtract);
    digits(&mut c, "0.5");
    c.execute_calculation();
    assert_eq!(c.display_str(), "7");
}

#[test]
fn multiplication_scales_back() {
    let mut c = Calculator::new();
    digits(&mut c, "1.5");
    c.input_operator(Operator::Multiply);
    c.input_number('2');
    c.execute_calculation();
    assert_eq!(c.display_str(), "3");
}

#[test]
fn subtraction_below_zero_shows_a_sign() {
    let mut c = Calculator::new();
    c.input_number('5');
    c.input_operator(Operator::Subtract);
    c.input_number('8');
    c.execute_calculation();
    assert_eq!(c.display_str(), "-3");
}

#[test]
fn sign_toggle_negates_and_digits_extend() {
    let mut c = Calculator::new();
    c.input_number('5');
    c.toggle_sign();
    assert_eq!(c.display_str(), "-5");
    c.input_number('7');
    assert_eq!(c.display_str(), "-57");
}

#[test]
fn sign_toggle_reformats_a_trailing_point() {
    let mut c = Calculator::new();
    c.input_number('1');
    c.input_decimal();
    assert_eq!(c.display_str(), "1.");
    c.toggle_sign();
    assert_eq!(c.display_str(), "-1");
    c.input_decimal();
    assert_eq!(c.display_str(), "-1");
}

#[test]
fn digits_after_an_error_clear_first() {
    let mut c = Calculator::new();
    c.input_number('5');
    c.input_operator(Operator::Divide);
    c.input_number('0');
    c.execute_calculation();
    assert!(c.is_error());
    c.input_number('7');
    assert_eq!(c.display_str(), "7");
    assert!(!c.is_error());
}

#[test]
fn operators_are_ignored_in_the_error_state() {
    let mut c = Calculator::new();
    c.input_number('5');
    c.input_operator(Operator::Divide);
    c.input_number('0');
    c.execute_calculation();
    c.input_operator(Operator::Add);
    c.execute_calculation();
    c.toggle_sign();
    c.calculate_percent();
    assert_eq!(c.display_str(), "Error");
}

#[test]
fn decimal_after_operator_starts_a_fresh_operand() {
    let mut c = Calculator::new();
    c.input_number('9');
    c.input_operator(Operator::Add);
    c.input_decimal();
    assert_eq!(c.display_str(), "0.");
    c.input_number('5');
    c.execute_calculation();
    assert_eq!(c.display_str(), "9.5");
}

#[test]
fn equals_without_a_pending_operator_changes_nothing() {
    let mut c = Calculator::new();
    c.input_number('5');
    c.execute_calculation();
    assert_eq!(c.display_str(), "5");
}

#[test]
fn equals_right_after_an_operator_uses_the_displayed_value() {
    let mut c = Calculator::new();
    c.input_number('5');
    c.input_operator(Operator::Add);
    c.execute_calculation();
    assert_eq!(c.display_str(), "10");
}

#[test]
fn percent_of_a_negative_value() {
    let mut c = Calculator::new();
    c.input_number('5');
    c.toggle_sign();
    c.calculate_percent();
    assert_eq!(c.display_str(), "-0.05");
}

#[test]
fn an_out_of_range_entry_overflows_when_used() {
    let mut c = Calculator::new();
    for _ in 0..20 {
        c.input_number('9');
    }
    c.input_operator(Operator::Add);
    assert_eq!(c.display_str(), "Error");
}

#[test]
fn an_out_of_range_result_overflows() {
    let mut c = Calculator::new();
    digits(&mut c, "999999999999999999");
    c.input_operator(Operator::Multiply);
    digits(&mut c, "999999999999999999");
    c.execute_calculation();
    assert_eq!(c.display_str(), "Error");
}

#[test]
fn the_largest_value_still_formats() {
    let mut c = Calculator::new();
    digits(&mut c, "999999999999999999");
    c.input_operator(Operator::Add);
    c.input_number('1');
    c.execute_calculation();
    assert_eq!(c.display_str(), "1000000000000000000");
}

#[test]
fn entry_stops_at_the_display_limit() {
    let mut c = Calculator::new();
    for _ in 0..70 {
        c.input_number('9');
    }
    assert_eq!(c.display_str().chars().count(), 64);
}

#[test]
fn fractional_digits_beyond_the_tenth_are_dropped() {
    let mut c = Calculator::new();
    digits(&mut c, "0.00000000005");
    assert_eq!(c.display_str(), "0.00000000005");
    c.input_operator(Operator::Add);
    c.input_number('1');
    c.execute_calculation();
    assert_eq!(c.display_str(), "1");
}

#[test]
fn the_displayed_value_is_reported_in_mantissa_units() {
    let mut c = Calculator::new();
    digits(&mut c, "1.5");
    assert_eq!(c.get_display_value(), 15_000_000_000);
    c.toggle_sign();
    assert_eq!(c.get_display_value(), -15_000_000_000);
}

#[test]
fn messages_drive_the_same_machine() {
    let mut c = Calculator::new();
    let presses = [
        ButtonType::Number('4'),
        ButtonType::Operator(Operator::Add),
        ButtonType::Number('3'),
        ButtonType::Operator(Operator::Multiply),
        ButtonType::Number('2'),
        ButtonType::Equals,
        ButtonType::Sign,
        ButtonType::Percent,
    ];
    for b in presses {
        c.update(Message::ButtonPressed(b));
    }
    assert_eq!(c.display_str(), "-0.14");
    c.update(Message::ButtonPressed(ButtonType::Clear));
    assert_eq!(c.display_str(), "0");
}
