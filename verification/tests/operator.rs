use simplex::constraint::Operator;
use simplex::grammar::ParseError;
use std::str::FromStr;

#[test]
fn test_inverse_operator() {
    let c = Operator::Greater;
    let d = Operator::LessEqual;
    assert_eq!(c.inverse(), d)
}

#[test]
fn inverse_of_every_operator() {
    assert_eq!(Operator::Equal.inverse(), Operator::Equal);
    assert_eq!(Operator::Less.inverse(), Operator::GreaterEqual);
    assert_eq!(Operator::GreaterEqual.inverse(), Operator::Less);
    assert_eq!(Operator::Greater.inverse(), Operator::LessEqual);
    assert_eq!(Operator::LessEqual.inverse(), Operator::Greater);
}

#[test]
fn inverse_is_an_involution() {
    for operator in [
        Operator::Equal,
        Operator::Less,
        Operator::Greater,
        Operator::LessEqual,
        Operator::GreaterEqual,
    ] {
        assert_eq!(operator.inverse().inverse(), operator);
    }
}

#[test]
fn operator_from_text() {
    assert_eq!(Operator::from_str("<="), Ok(Operator::LessEqual));
    assert_eq!(Operator::from_str(">="), Ok(Operator::GreaterEqual));
    assert_eq!(Operator::from_str("="), Ok(Operator::Equal));
    assert_eq!(Operator::from_str("<"), Ok(Operator::Less));
    assert_eq!(Operator::from_str(">"), Ok(Operator::Greater));
    assert_eq!(Operator::from_str("  <= \n"), Ok(Operator::LessEqual));
}

#[test]
fn text_that_is_no_operator() {
    assert_eq!(Operator::from_str(""), Err(ParseError::MissingOperator));
    assert_eq!(Operator::from_str("< ="), Err(ParseError::MissingOperator));
    assert_eq!(Operator::from_str("=="), Err(ParseError::MissingOperator));
    assert_eq!(Operator::from_str("=<"), Err(ParseError::MissingOperator));
    assert_eq!(Operator::from_str("x"), Err(ParseError::MissingOperator));
}

#[test]
fn operator_as_text() {
    assert_eq!(Operator::Equal.to_string(), "=");
    assert_eq!(Operator::Less.to_string(), "<");
    assert_eq!(Operator::Greater.to_string(), ">");
    assert_eq!(Operator::LessEqual.to_string(), "<=");
    assert_eq!(Operator::GreaterEqual.to_string(), ">=");
}

#[test]
fn default_operator_is_equal() {
    assert_eq!(Operator::default(), Operator::Equal);
}
