use rscalc::ast::{Expr, SyntaxError};
use rscalc::parser::parse;

/// Reduces a tree to a number the way the surrounding shell does, to check
/// that the parsed trees carry the intended arithmetic meaning.
fn eval(e: &Expr) -> f64 {
    match e {
        Expr::Num(n) => *n as f64,
        Expr::Add(a, b) => eval(a) + eval(b),
        Expr::Sub(a, b) => eval(a) - eval(b),
        Expr::Mul(a, b) => eval(a) * eval(b),
        Expr::Div(a, b) => eval(a) / eval(b),
        Expr::Pow(a, b) => eval(a).powf(eval(b)),
    }
}

fn eval_line(line: &[u8]) -> f64 {
    eval(&parse(line).unwrap())
}

#[test]
fn digit_sequences_parse_to_their_decimal_value() {
    assert_eq!(parse(b"42"), Ok(Expr::Num(42)));
    assert_eq!(parse(b"0"), Ok(Expr::Num(0)));
    assert_eq!(parse(b"007"), Ok(Expr::Num(7)));
    assert_eq!(parse(b"  98765  "), Ok(Expr::Num(98765)));
}

#[test]
fn largest_literal_parses_and_one_past_it_is_rejected() {
    assert_eq!(parse(b"18446744073709551615"), Ok(Expr::Num(u64::MAX)));
    assert!(parse(b"18446744073709551616").is_err());
}

#[test]
fn subtraction_is_left_associative() {
    assert_eq!(
        parse(b"8 - 3 - 2"),
        Ok(Expr::Sub(
            Box::new(Expr::Sub(Box::new(Expr::Num(8)), Box::new(Expr::Num(3)))),
            Box::new(Expr::Num(2)),
        ))
    );
    assert_eq!(eval_line(b"8 - 3 - 2"), 3.0);
}

#[test]
fn power_is_right_associative() {
    assert_eq!(
        parse(b"2 ^ 3 ^ 2"),
        Ok(Expr::Pow(
            Box::new(Expr::Num(2)),
            Box::new(Expr::Pow(Box::new(Expr::Num(3)), Box::new(Expr::Num(2)))),
        ))
    );
    assert_eq!(eval_line(b"2 ^ 3 ^ 2"), 512.0);
}

#[test]
fn multiplication_binds_tighter_than_addition() {
    assert_eq!(
        parse(b"2 + 3 * 4"),
        Ok(Expr::Add(
            Box::new(Expr::Num(2)),
            Box::new(Expr::Mul(Box::new(Expr::Num(3)), Box::new(Expr::Num(4)))),
        ))
    );
    assert_eq!(eval_line(b"2 + 3 * 4"), 14.0);
}

#[test]
fn parentheses_override_precedence() {
    assert_eq!(
        parse(b"(2 + 3) * 4"),
        Ok(Expr::Mul(
            Box::new(Expr::Add(Box::new(Expr::Num(2)), Box::new(Expr::Num(3)))),
            Box::new(Expr::Num(4)),
        ))
    );
    assert_eq!(eval_line(b"(2 + 3) * 4"), 20.0);
}

#[test]
fn power_binds_tighter_than_multiplication() {
    assert_eq!(eval_line(b"2 * 3 ^ 2"), 18.0);
    assert_eq!(eval_line(b"8 / 2 ^ 2"), 2.0);
}

#[test]
fn whitespace_is_insignificant() {
    assert_eq!(parse(b" 1 +  2 "), parse(b"1+2"));
    assert_eq!(eval_line(b" 1 +  2 "), 3.0);
    assert_eq!(eval_line(b"1+2"), 3.0);
    assert_eq!(parse(b"\t( 1\t+ 2 ) * 3 "), parse(b"(1+2)*3"));
}

#[test]
fn division_by_zero_follows_ieee_rules() {
    assert_eq!(eval_line(b"1/0"), f64::INFINITY);
    assert!(eval_line(b"0/0").is_nan());
}

#[test]
fn fractional_division_evaluates() {
    assert_eq!(eval_line(b"7/2"), 3.5);
}

#[test]
fn malformed_input_is_rejected_wholesale() {
    assert!(parse(b"2 +").is_err());
    assert!(parse(b"(1+2").is_err());
    assert!(parse(b"").is_err());
    assert!(parse(b"abc").is_err());
}

#[test]
fn errors_carry_the_unconsumed_remainder() {
    assert_eq!(parse(b"2 +"), Err(SyntaxError { remainder: b"+".to_vec() }));
    assert_eq!(parse(b"(1+2"), Err(SyntaxError { remainder: b"(1+2".to_vec() }));
    assert_eq!(parse(b""), Err(SyntaxError { remainder: b"".to_vec() }));
    assert_eq!(parse(b"abc"), Err(SyntaxError { remainder: b"abc".to_vec() }));
    assert_eq!(parse(b"2^"), Err(SyntaxError { remainder: b"^".to_vec() }));
    assert_eq!(parse(b"1+2)"), Err(SyntaxError { remainder: b")".to_vec() }));
}

#[test]
fn reparsing_a_printed_integral_result_reproduces_it() {
    let first = eval_line(b"2 + 3 * 4");
    let printed = format!("{}", first);
    let second = eval_line(printed.as_bytes());
    assert_eq!(first, second);

    let first = eval_line(b"2 ^ 3 ^ 2");
    let printed = format!("{}", first);
    assert_eq!(eval_line(printed.as_bytes()), first);
}

#[test]
fn nested_parentheses_group_correctly() {
    assert_eq!(eval_line(b"((1+2)*3)"), 9.0);
    assert_eq!(eval_line(b"(((5)))"), 5.0);
    assert_eq!(eval_line(b"2 * (3 + 4 * (5 - 3))"), 22.0);
}

#[test]
fn chains_of_same_precedence_fold_leftward() {
    assert_eq!(eval_line(b"100 - 1 - 2 - 3"), 94.0);
    assert_eq!(eval_line(b"64 / 2 / 4"), 8.0);
    assert_eq!(eval_line(b"1 + 2 + 3 + 4"), 10.0);
}
