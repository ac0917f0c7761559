use gf32::calculator::{evaluate, parse_expression, Calculator, Expression};

fn steps_of(input: &str) -> Result<(u32, Vec<String>), String> {
    let calc = Calculator::new();
    calc.parse_and_evaluate_with_steps(input).map(|(x, s)| (x.value, s))
}

#[test]
fn new_calculator_is_empty() {
    let calc = Calculator::new();
    assert_eq!(calc.input, "");
    assert_eq!(calc.result, "0");
    assert!(calc.history.is_empty());
}

#[test]
fn parse_operand_ignores_spaces() {
    let calc = Calculator::new();
    assert_eq!(calc.parse_hex("  42 "), Ok(42));
    assert_eq!(calc.parse_hex("+7"), Ok(7));
    assert_eq!(calc.parse_hex("4294967295"), Ok(u32::MAX));
}

#[test]
fn parse_operand_errors() {
    let calc = Calculator::new();
    assert_eq!(calc.parse_hex("   "), Err("Empty value".to_string()));
    assert_eq!(calc.parse_hex(" 4294967296 "), Err("Invalid decimal value: 4294967296".to_string()));
    assert_eq!(calc.parse_hex("0x1F"), Err("Invalid decimal value: 0x1F".to_string()));
    assert_eq!(calc.parse_hex("+"), Err("Invalid decimal value: +".to_string()));
    assert_eq!(calc.parse_hex("-1"), Err("Invalid decimal value: -1".to_string()));
}

#[test]
fn parse_each_kind_of_expression() {
    assert!(matches!(parse_expression(" 5^-1 "), Ok(Expression::Inverse(5))));
    assert!(matches!(parse_expression("5 * 7"), Ok(Expression::Product(5, 7))));
    assert!(matches!(parse_expression("5 + 7"), Ok(Expression::Sum(5, 7))));
    assert!(matches!(parse_expression("12"), Ok(Expression::Value(12))));
    assert!(matches!(parse_expression("3^-1^-1"), Ok(Expression::Inverse(3))));
}

#[test]
fn parse_rejects_malformed_expressions() {
    assert_eq!(parse_expression("1 * 2 * 3").err(), Some("Invalid multiplication expression".to_string()));
    assert_eq!(parse_expression("1 + 2 + 3").err(), Some("Invalid addition expression".to_string()));
    assert_eq!(parse_expression("").err(), Some("Empty value".to_string()));
    assert_eq!(parse_expression("* 3").err(), Some("Empty value".to_string()));
    assert_eq!(parse_expression("abc").err(), Some("Invalid decimal value: abc".to_string()));
}

#[test]
fn product_steps() {
    let (x, steps) = steps_of("5 * 7").unwrap();
    assert_eq!(x, 27);
    assert_eq!(steps, vec![
        "5 = x² + 1".to_string(),
        "7 = x² + x + 1".to_string(),
        "(x² + 1) * (x² + x + 1) = x⁴ + x³ + x + 1".to_string(),
    ]);
}

#[test]
fn sum_steps() {
    let (x, steps) = steps_of("5 + 6").unwrap();
    assert_eq!(x, 3);
    assert_eq!(steps[2], "(x² + 1) + (x² + x) = x + 1");
}

#[test]
fn inverse_steps() {
    let (x, steps) = steps_of("2^-1").unwrap();
    assert_eq!(x, 0x8020_0003);
    assert_eq!(steps, vec![
        "2 = x".to_string(),
        "x^-1 = x³¹ + x²¹ + x + 1".to_string(),
    ]);
}

#[test]
fn inverse_of_zero_in_expression_fails() {
    assert_eq!(steps_of("0^-1"), Err("０の逆元は存在しないぞ".to_string()));
    assert!(evaluate(Expression::Inverse(0)).is_err());
}

#[test]
fn single_value_steps() {
    let (x, steps) = steps_of(" 0 ").unwrap();
    assert_eq!(x, 0);
    assert_eq!(steps, vec!["0 = 0".to_string()]);
}

#[test]
fn calculate_records_history() {
    let mut calc = Calculator::new();
    calc.push_input("5");
    calc.push_input(" * ");
    calc.push_input("7");
    calc.calculate();
    assert_eq!(calc.result, "27 (0x0000001B, x⁴ + x³ + x + 1)");
    assert_eq!(calc.history, vec![
        "Input: 5 * 7".to_string(),
        "  5 = x² + 1".to_string(),
        "  7 = x² + x + 1".to_string(),
        "  (x² + 1) * (x² + x + 1) = x⁴ + x³ + x + 1".to_string(),
        "Result: 27 (0x0000001B, x⁴ + x³ + x + 1)".to_string(),
        String::new(),
    ]);
}

#[test]
fn calculate_shows_errors() {
    let mut calc = Calculator::new();
    calc.push_input("1 * 2 * 3");
    calc.calculate();
    assert_eq!(calc.result, "Error: Invalid multiplication expression");
    assert!(calc.history.is_empty());
    calc.clear();
    assert_eq!(calc.input, "");
    assert_eq!(calc.result, "0");
}

#[test]
fn calculate_large_value_in_hex() {
    let mut calc = Calculator::new();
    calc.push_input("4294967295");
    calc.calculate();
    assert!(calc.result.starts_with("4294967295 (0xFFFFFFFF, x³¹ + x³⁰ + "));
}
