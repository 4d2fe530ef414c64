use sexpr::{Expression, ParseError};

fn parse(text: &str) -> Result<Expression, ParseError> {
    Expression::try_from(text.to_string())
}

#[test]
fn a_list_is_written_between_parentheses() {
    let list = Expression::List(vec![
        Expression::Symbol("+".to_string()),
        Expression::Int(1),
        Expression::List(vec![
            Expression::Symbol("-".to_string()),
            Expression::Int(2),
            Expression::Float("3.5".to_string()),
        ]),
    ]);
    assert_eq!(list.to_string(), "(+ 1 (- 2 3.5))");
    assert_eq!(Expression::List(vec![]).to_string(), "()");
    assert_eq!(Expression::List(vec![Expression::Int(7)]).to_string(), "(7)");
}

#[test]
fn integers_are_written_in_base_ten() {
    assert_eq!(Expression::Int(0).to_string(), "0");
    assert_eq!(Expression::Int(9).to_string(), "9");
    assert_eq!(Expression::Int(10).to_string(), "10");
    assert_eq!(Expression::Int(2398475).to_string(), "2398475");
    assert_eq!(Expression::Int(-15).to_string(), "-15");
    assert_eq!(Expression::Int(i64::MAX).to_string(), "9223372036854775807");
    assert_eq!(Expression::Int(i64::MIN).to_string(), "-9223372036854775808");
}

#[test]
fn strings_are_quoted_and_escaped() {
    assert_eq!(
        Expression::String("hello there".to_string()).to_string(),
        "\"hello there\""
    );
    assert_eq!(
        Expression::String("a\n\"b\"\\".to_string()).to_string(),
        "\"a\\n\\\"b\\\"\\\\\""
    );
    assert_eq!(Expression::String(String::new()).to_string(), "\"\"");
}

#[test]
fn symbols_and_decimal_literals_are_written_as_they_are() {
    assert_eq!(Expression::Symbol("last-name".to_string()).to_string(), "last-name");
    assert_eq!(Expression::Float("78435.67768".to_string()).to_string(), "78435.67768");
    assert_eq!(Expression::Float("2.".to_string()).to_string(), "2.");
}

#[test]
fn render_into_appends() {
    let mut out = "value: ".to_string();
    Expression::Int(12).render_into(&mut out);
    assert_eq!(out, "value: 12");
}

#[test]
fn what_is_written_reads_back() {
    let texts = [
        "(+ 1 (- 2 3))",
        "name",
        "12",
        "2.5",
        "()",
        "1 2 3",
        "(a 1)",
        "((x 1) (y 2.0) 3)",
    ];
    for text in texts {
        let parsed = parse(text).unwrap();
        assert_eq!(parse(&parsed.to_string()), Ok(parsed));
    }
}

#[test]
fn a_list_that_ends_with_a_symbol_does_not_read_back() {
    let parsed = parse("(a b )").unwrap();
    assert_eq!(parsed.to_string(), "(a b)");
    assert_eq!(parse("(a b)"), Err(ParseError::ExpectedClosingParan));
}

#[test]
fn an_escaped_string_does_not_read_back() {
    let parsed = parse("\"a\\b\"").unwrap();
    assert_eq!(parsed, Expression::String("a\\b".to_string()));
    assert_eq!(parsed.to_string(), "\"a\\\\b\"");
    assert_eq!(
        parse(&parsed.to_string()),
        Ok(Expression::String("a\\\\b".to_string()))
    );
}

#[test]
fn a_copy_is_equal() {
    let parsed = parse("(a (1 2.5 \"s\") )").unwrap();
    assert_eq!(parsed.clone(), parsed);
}

#[test]
fn errors_describe_themselves() {
    assert_eq!(ParseError::UnclosedString.to_string(), "unclosed string");
    assert_eq!(ParseError::ExpectedClosingParan.to_string(), "expected closing ')'");
    assert_eq!(ParseError::NoMatchingOpenParan.to_string(), "')' has no matching '('");
    let overflow = parse("9223372036854775808").unwrap_err();
    assert_eq!(
        overflow.to_string(),
        "error while parsing int, number too large to fit in target type"
    );
    let invalid = "x".parse::<f64>().unwrap_err();
    assert_eq!(
        ParseError::ParseFloatError(invalid).to_string(),
        "error while parsing float, invalid float literal"
    );
}

#[test]
fn conversion_messages_end_with_the_detail() {
    assert_eq!(
        sexpr::error::int_error_message("too big"),
        "error while parsing int, too big"
    );
    assert_eq!(
        sexpr::error::float_error_message("not a number"),
        "error while parsing float, not a number"
    );
    assert_eq!(sexpr::error::int_error_message(""), "error while parsing int, ");
}
