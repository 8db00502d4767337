//! Small arithmetic, worked out with double precision numbers.

use finguard::error::Error;
use finguard::expr::{parse, tokenize, Program, Step, Token};

/// The value of a text: its steps taken on a stack, then what is wrong behind them.
fn eval(text: &str) -> Result<f64, Error> {
    let Program { steps, end } = parse(text);
    let mut stack: Vec<f64> = Vec::new();
    for step in &steps {
        match step {
            Step::Push(literal) => stack.push(literal.parse().expect("a number")),
            Step::Negate => {
                let top = stack.pop().expect("one value");
                stack.push(-top);
            }
            _ => {
                let upper = stack.pop().expect("two values");
                let lower = stack.pop().expect("two values");
                stack.push(match step {
                    Step::Plus => lower + upper,
                    Step::Minus => lower - upper,
                    Step::Times => lower * upper,
                    _ => {
                        if upper == 0.0 {
                            return Err(Error::InvalidArgument("division by zero".to_string()));
                        }
                        lower / upper
                    }
                });
            }
        }
    }
    end?;
    assert_eq!(stack.len(), 1);
    Ok(stack[0])
}

fn message(text: &str) -> String {
    eval(text).unwrap_err().message()
}

#[test]
#[allow(clippy::approx_constant)]
fn plain_numbers() {
    assert_eq!(eval("10").unwrap(), 10.0);
    assert_eq!(eval("3.14").unwrap(), 3.14);
    assert_eq!(eval(".5").unwrap(), 0.5);
}

#[test]
fn operators_and_precedence() {
    assert_eq!(eval("10 + 5").unwrap(), 15.0);
    assert_eq!(eval("10 * 2 - 3").unwrap(), 17.0);
    assert_eq!(eval("2 + 3 * 4").unwrap(), 14.0);
    assert_eq!(eval("(10 + 5) / 3").unwrap(), 5.0);
}

#[test]
fn unary() {
    assert_eq!(eval("-5 + 3").unwrap(), -2.0);
    assert_eq!(eval("-(2+1)").unwrap(), -3.0);
    assert_eq!(eval("+4").unwrap(), 4.0);
}

#[test]
fn whitespace_tolerance() {
    assert_eq!(eval("  1  +  2  ").unwrap(), 3.0);
}

#[test]
fn float_division() {
    assert_eq!(eval("7/2").unwrap(), 3.5);
}

#[test]
fn errors() {
    assert!(eval("").is_err());
    assert!(eval("   ").is_err());
    assert!(eval("abc").is_err());
    assert!(eval("1 +").is_err());
    assert!(eval("(1+2").is_err());
    assert!(eval("1 2").is_err());
    assert!(eval("2 +* 3").is_err());
    assert!(eval("1/0").is_err());
    assert!(eval("sqrt(2)").is_err());
}

#[test]
fn each_error_says_what_is_wrong() {
    assert_eq!(message(""), "empty expression");
    assert_eq!(message("abc"), "unexpected character: a");
    assert_eq!(message("1 +"), "unexpected end of expression");
    assert_eq!(message("(1+2"), "expected ')'");
    assert_eq!(message("1 2"), "unexpected trailing input");
    assert_eq!(message("2 +* 3"), "expected a number or '('");
    assert_eq!(message("1.2.3"), "invalid number: 1.2.3");
    assert_eq!(message("."), "invalid number: .");
    assert_eq!(message("1/0"), "division by zero");
}

#[test]
fn a_character_outside_ascii_is_named_by_its_first_byte() {
    assert_eq!(message("\u{e9}"), "unexpected character: \u{c3}");
}

#[test]
fn dividing_by_zero_is_found_before_what_is_wrong_behind_it() {
    assert_eq!(message("1/0 +"), "division by zero");
    assert_eq!(message("1/0 2"), "division by zero");
    assert_eq!(message("1 / (2 - 2) )"), "division by zero");
    // What is wrong before the division is found first.
    assert_eq!(message("1 + + * 2/0"), "expected a number or '('");
    // A text with a character that starts no token has no steps at all.
    assert_eq!(message("1/0 x"), "unexpected character: x");
}

#[test]
fn operators_of_one_kind_go_from_left_to_right() {
    assert_eq!(eval("10 - 3 - 2").unwrap(), 5.0);
    assert_eq!(eval("100 / 5 / 2").unwrap(), 10.0);
    assert_eq!(eval("2 * 3 / 4 * 6").unwrap(), 9.0);
    assert_eq!(eval("--5").unwrap(), 5.0);
    assert_eq!(eval("42. - -.5").unwrap(), 42.5);
}

#[test]
fn the_steps_of_a_text_come_in_the_order_they_are_taken() {
    let program = parse("-(1 + 2) * 3");
    assert_eq!(program.end, Ok(()));
    assert_eq!(
        program.steps,
        vec![
            Step::Push("1".to_string()),
            Step::Push("2".to_string()),
            Step::Plus,
            Step::Negate,
            Step::Push("3".to_string()),
            Step::Times,
        ]
    );
}

#[test]
fn tokens_keep_numbers_as_they_are_written() {
    assert_eq!(
        tokenize("(007.50)\t-1").unwrap(),
        vec![
            Token::LParen,
            Token::Number("007.50".to_string()),
            Token::RParen,
            Token::Minus,
            Token::Number("1".to_string()),
        ]
    );
    assert!(tokenize(" \n\r").unwrap().is_empty());
}

#[test]
fn a_program_is_made_from_the_program_of_its_part() {
    for text in ["2 + 3 * 4", "-(1 - 2)", "7/2", "((.5))"] {
        let inner = parse(text).steps;
        let bracketed = parse(&format!("({text})"));
        assert_eq!(bracketed.steps, inner);
        assert_eq!(bracketed.end, Ok(()));
        assert_eq!(parse(&format!("\t {text} \n")), parse(text));
        let mut negated = parse(&format!("-({text})")).steps;
        assert_eq!(negated.pop(), Some(Step::Negate));
        assert_eq!(negated, inner);
        for (sign, step) in [("+", Step::Plus), ("-", Step::Minus)] {
            let mut longer = parse(&format!("{text} {sign} 8.25")).steps;
            assert_eq!(longer.pop(), Some(step));
            assert_eq!(longer.pop(), Some(Step::Push("8.25".to_string())));
            assert_eq!(longer, inner);
        }
    }
    assert_eq!(eval("10 - 4 - 3").unwrap(), 3.0);
    assert_eq!(parse(" 1 2 ").end, parse("1 2").end);
}

#[test]
fn no_depth_of_brackets_is_too_much() {
    let depth = 200_000;
    let text = format!("{}7{}", "(".repeat(depth), ")".repeat(depth));
    assert_eq!(eval(&text).unwrap(), 7.0);
    let signs = format!("{}7", "-".repeat(depth + 1));
    assert_eq!(eval(&signs).unwrap(), -7.0);
    assert_eq!(message(&"(".repeat(depth)), "unexpected end of expression");
    assert_eq!(message(&format!("{}1", "(".repeat(depth))), "expected ')'");
}
