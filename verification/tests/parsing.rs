use sexpr::{Expression, ParseError};

/// An expression with its decimal literals converted to floating point.
#[derive(Debug, PartialEq)]
enum Value {
    List(Vec<Value>),
    Symbol(String),
    String(String),
    Int(i64),
    Float(f64),
}

fn value_of(e: &Expression) -> Value {
    match e {
        Expression::List(items) => Value::List(items.iter().map(value_of).collect()),
        Expression::Symbol(text) => Value::Symbol(text.clone()),
        Expression::String(text) => Value::String(text.clone()),
        Expression::Int(n) => Value::Int(*n),
        Expression::Float(text) => Value::Float(text.parse().unwrap()),
    }
}

fn parse(text: &str) -> Result<Expression, ParseError> {
    Expression::try_from(text.to_string())
}

fn evaluate(text: &str) -> Result<Value, ParseError> {
    parse(text).map(|e| value_of(&e))
}

#[test]
fn basics() {
    assert_eq!(
        Expression::try_from("2398475".to_string()),
        Ok(Expression::Int(2398475))
    );
    assert_eq!(evaluate("78435.67768"), Ok(Value::Float(78435.67768)));
    assert_eq!(
        Expression::try_from("78435.67768".to_string()),
        Ok(Expression::Float("78435.67768".to_string()))
    );
    assert_eq!(
        Expression::try_from("name".to_string()),
        Ok(Expression::Symbol("name".to_string()))
    );
    assert_eq!(
        Expression::try_from("last-name".to_string()),
        Ok(Expression::Symbol("last-name".to_string()))
    );
    assert_eq!(
        Expression::try_from("+".to_string()),
        Ok(Expression::Symbol("+".to_string()))
    );
    assert_eq!(
        Expression::try_from("`".to_string()),
        Ok(Expression::Symbol("`".to_string()))
    );
    assert_eq!(
        Expression::try_from("\"hello there stranger\"".to_string()),
        Ok(Expression::String("hello there stranger".to_string()))
    );
    assert_eq!(
        evaluate("(+ 1 2.5)"),
        Ok(Value::List(vec![
            Value::Symbol("+".to_string()),
            Value::Int(1),
            Value::Float(2.5)
        ]))
    );
    assert_eq!(
        Expression::try_from("(+ 1 (- 2 3))".to_string()),
        Ok(Expression::List(vec![
            Expression::Symbol("+".to_string()),
            Expression::Int(1),
            Expression::List(vec![
                Expression::Symbol("-".to_string()),
                Expression::Int(2),
                Expression::Int(3),
            ]),
        ]))
    );
}

#[test]
fn empty_input_is_the_empty_list() {
    assert_eq!(parse(""), Ok(Expression::List(vec![])));
    assert_eq!(parse(" \t\r\n\x0C "), Ok(Expression::List(vec![])));
    assert_eq!(Expression::default(), Expression::List(vec![]));
}

#[test]
fn unbalanced_input_is_rejected() {
    assert_eq!(parse(")"), Err(ParseError::NoMatchingOpenParan));
    assert_eq!(parse("("), Err(ParseError::ExpectedClosingParan));
    assert_eq!(parse("\"abc"), Err(ParseError::UnclosedString));
    assert_eq!(parse("(1 (2 3)"), Err(ParseError::ExpectedClosingParan));
    assert_eq!(parse("(1 2))"), Err(ParseError::NoMatchingOpenParan));
}

#[test]
fn the_first_error_wins() {
    assert_eq!(parse(") \"abc"), Err(ParseError::NoMatchingOpenParan));
    assert_eq!(parse("( \"abc"), Err(ParseError::UnclosedString));
    assert_eq!(parse("\"abc )"), Err(ParseError::UnclosedString));
    assert!(matches!(
        parse("99999999999999999999 )"),
        Err(ParseError::ParseIntError(_))
    ));
}

#[test]
fn integers_fill_sixty_four_bits_and_no_more() {
    assert_eq!(
        parse("9223372036854775807"),
        Ok(Expression::Int(i64::MAX))
    );
    assert_eq!(parse("0007"), Ok(Expression::Int(7)));
    assert_eq!(parse("0"), Ok(Expression::Int(0)));
    let overflow = "9223372036854775808".parse::<i64>().unwrap_err();
    assert_eq!(
        parse("9223372036854775808"),
        Err(ParseError::ParseIntError(overflow))
    );
}

#[test]
fn a_sign_makes_a_symbol() {
    assert_eq!(parse("-5"), Ok(Expression::Symbol("-5".to_string())));
    assert_eq!(parse("+5"), Ok(Expression::Symbol("+5".to_string())));
    assert_eq!(parse(".5"), Ok(Expression::Symbol(".5".to_string())));
}

#[test]
fn decimal_literals_keep_their_text() {
    assert_eq!(parse("2.5"), Ok(Expression::Float("2.5".to_string())));
    assert_eq!(parse("2."), Ok(Expression::Float("2.".to_string())));
    assert_eq!(parse("007.500"), Ok(Expression::Float("007.500".to_string())));
    assert_eq!(evaluate("2."), Ok(Value::Float(2.0)));
    assert_eq!(evaluate("007.500"), Ok(Value::Float(7.5)));
}

#[test]
fn a_number_ends_where_its_digits_end() {
    assert_eq!(
        parse("12abc"),
        Ok(Expression::List(vec![
            Expression::Int(12),
            Expression::Symbol("abc".to_string())
        ]))
    );
    assert_eq!(
        parse("1.2.3"),
        Ok(Expression::List(vec![
            Expression::Float("1.2".to_string()),
            Expression::Symbol(".3".to_string())
        ]))
    );
    assert_eq!(
        parse("1e5"),
        Ok(Expression::List(vec![
            Expression::Int(1),
            Expression::Symbol("e5".to_string())
        ]))
    );
}

#[test]
fn a_symbol_runs_to_the_next_whitespace() {
    assert_eq!(
        parse("(a)"),
        Err(ParseError::ExpectedClosingParan)
    );
    assert_eq!(
        parse("(a )"),
        Ok(Expression::List(vec![Expression::Symbol("a".to_string())]))
    );
    assert_eq!(
        parse("a(b\"c"),
        Ok(Expression::Symbol("a(b\"c".to_string()))
    );
    assert_eq!(
        parse("a\tb\nc"),
        Ok(Expression::List(vec![
            Expression::Symbol("a".to_string()),
            Expression::Symbol("b".to_string()),
            Expression::Symbol("c".to_string())
        ]))
    );
    assert_eq!(
        parse("a\u{a0}b"),
        Ok(Expression::Symbol("a\u{a0}b".to_string()))
    );
}

#[test]
fn a_string_is_taken_as_it_stands() {
    assert_eq!(parse("\"\""), Ok(Expression::String(String::new())));
    assert_eq!(
        parse("\"a\\nb (c) 1\""),
        Ok(Expression::String("a\\nb (c) 1".to_string()))
    );
    assert_eq!(
        parse("\"a\"b"),
        Ok(Expression::List(vec![
            Expression::String("a".to_string()),
            Expression::Symbol("b".to_string())
        ]))
    );
    assert_eq!(
        parse("\"h\u{e9}llo\""),
        Ok(Expression::String("h\u{e9}llo".to_string()))
    );
}

#[test]
fn one_expression_stands_for_itself() {
    assert_eq!(parse("  42  "), Ok(Expression::Int(42)));
    assert_eq!(
        parse("(1)"),
        Ok(Expression::List(vec![Expression::Int(1)]))
    );
    assert_eq!(
        parse("()"),
        Ok(Expression::List(vec![]))
    );
}

#[test]
fn several_expressions_form_a_list() {
    assert_eq!(
        parse("1 two \"three\" (4)"),
        Ok(Expression::List(vec![
            Expression::Int(1),
            Expression::Symbol("two".to_string()),
            Expression::String("three".to_string()),
            Expression::List(vec![Expression::Int(4)]),
        ]))
    );
}

#[test]
fn trailing_whitespace_adds_nothing() {
    assert_eq!(parse("1 "), Ok(Expression::Int(1)));
    assert_eq!(parse("a \n"), Ok(Expression::Symbol("a".to_string())));
    assert_eq!(
        parse("(1 2) "),
        Ok(Expression::List(vec![Expression::Int(1), Expression::Int(2)]))
    );
}

#[test]
fn texts_side_by_side_hold_what_each_holds() {
    let first = "(a 1) b";
    let second = "\"c\" 2.5";
    for gap in [' ', '\t', '\n', '\x0C', '\r'] {
        let both = format!("{first}{gap}{second}");
        assert_eq!(
            parse(&both),
            Ok(Expression::List(vec![
                Expression::List(vec![
                    Expression::Symbol("a".to_string()),
                    Expression::Int(1)
                ]),
                Expression::Symbol("b".to_string()),
                Expression::String("c".to_string()),
                Expression::Float("2.5".to_string()),
            ]))
        );
    }
    assert_eq!(parse(" 7"), Ok(Expression::Int(7)));
    assert_eq!(parse("7 "), Ok(Expression::Int(7)));
}

#[test]
fn what_is_parsed_is_well_formed() {
    fn check(e: &Expression) {
        match e {
            Expression::List(items) => items.iter().for_each(check),
            Expression::Symbol(text) => {
                let first = text.chars().next().unwrap();
                assert!(!first.is_ascii_digit() && !"()\"".contains(first));
                assert!(!text.chars().any(|c| c.is_ascii_whitespace()));
            }
            Expression::String(text) => assert!(!text.contains('"')),
            Expression::Int(n) => assert!(*n >= 0),
            Expression::Float(text) => {
                let (whole, fraction) = text.split_once('.').unwrap();
                assert!(!whole.is_empty());
                assert!(whole.chars().all(|c| c.is_ascii_digit()));
                assert!(fraction.chars().all(|c| c.is_ascii_digit()));
            }
        }
    }
    check(&parse("(a\tb ) 12 3.25 4. \"x y\" (() (z\u{2003}w 0))").unwrap());
}

#[test]
fn nesting_is_kept() {
    assert_eq!(
        parse("((()) (1))"),
        Ok(Expression::List(vec![
            Expression::List(vec![Expression::List(vec![])]),
            Expression::List(vec![Expression::Int(1)]),
        ]))
    );
    let depth = 10_000;
    let text = format!("{}{}", "(".repeat(depth), ")".repeat(depth - 1));
    assert_eq!(parse(&text), Err(ParseError::ExpectedClosingParan));
}
