use simplex::grammar::ParseError;
use simplex::linear_function::LinearFunction;
use simplex::scalar::Scalar;
use std::str::FromStr;

fn whole(n: i64) -> Scalar {
    Scalar::from_integer(n)
}

fn function(constant: i64, terms: &[(&str, i64)]) -> LinearFunction {
    LinearFunction::new(
        whole(constant),
        terms.iter().map(|(name, value)| (name.to_string(), whole(*value))).collect(),
    )
}

#[test]
fn test_single_variable_with_coeff() {
    let single_variable_lf = LinearFunction::single_variable_with_coeff("x".to_string(), whole(32));
    let expected = LinearFunction::from_str("32x").unwrap();

    assert_eq!(single_variable_lf, expected);
}

#[test]
fn test_first_positive_coefficient() {
    let lf = LinearFunction::from_str("200+5x-6z+3y").unwrap();
    let var = "x".to_string();
    let coeff = whole(5);

    assert_eq!(lf.first_positive_coefficient(true), Some(var.clone()));
    assert_eq!(lf.coefficient(&var), coeff);
}

#[test]
fn linear_function_test_normalize() {
    let lf = LinearFunction::from_str("3x+6y-9z+150").unwrap();
    let var = "x".to_string();
    let expected = LinearFunction::from_str("-x-2y+3z-50").unwrap();

    let (normalized_lf, var_coeff) = lf.normalize(var);

    assert_eq!((normalized_lf, var_coeff), (expected, whole(3)));
}

#[test]
fn normalize_without_the_variable() {
    let lf = function(150, &[("y", 6)]);
    let (same, coefficient) = lf.normalize("x".to_string());
    assert_eq!(same, lf);
    assert_eq!(coefficient, Scalar::zero());
}

#[test]
fn applies_a_valuation() {
    let linear_func = function(10, &[("x", 20), ("z", -2)]);
    let valuation = vec![("x".to_string(), whole(2)), ("y".to_string(), whole(-432))];
    assert_eq!(linear_func.apply(&valuation), whole(50));
}

#[test]
fn last_value_of_a_valuation_counts() {
    let linear_func = function(1, &[("x", 3)]);
    let valuation = vec![("x".to_string(), whole(2)), ("x".to_string(), whole(5))];
    assert_eq!(linear_func.apply(&valuation), whole(16));
    assert_eq!(linear_func.apply(&Vec::new()), whole(1));
}

#[test]
fn adds_functions() {
    let a = function(30, &[("x", 32), ("z", -5)]);
    let b = function(-5, &[("y", 12), ("z", 5)]);
    let expected = function(25, &[("x", 32), ("y", 12), ("z", 0)]);
    assert_eq!(a.plus(&b), expected);
    let mut c = a.clone();
    c.add_in_place(&b);
    assert_eq!(c, expected);
    assert!(!a.plus(&b).contains("z"));
}

#[test]
fn subtracts_functions() {
    let a = function(30, &[("x", 32), ("z", -5)]);
    let b = function(-5, &[("y", 12), ("z", 5)]);
    let expected = function(35, &[("x", 32), ("y", -12), ("z", -10)]);
    assert_eq!(a.minus(&b), expected);
    let mut c = a.clone();
    c.sub_in_place(&b);
    assert_eq!(c, expected);
}

#[test]
fn multiplies_a_function() {
    let a = function(30, &[("x", 32), ("z", -5)]);
    let expected = function(60, &[("x", 64), ("z", -10)]);
    assert_eq!(a.scaled_by(&whole(2)), expected);
    let mut c = a.clone();
    c.scale_in_place(&whole(2));
    assert_eq!(c, expected);
    assert_eq!(a.scaled_by(&Scalar::zero()), LinearFunction::zero());
}

#[test]
fn divides_a_function() {
    let a = function(30, &[("x", 32), ("z", -5)]);
    let expected = LinearFunction::new(
        whole(15),
        vec![("x".to_string(), whole(16)), ("z".to_string(), Scalar::new(-5, 2))],
    );
    assert_eq!(a.divided_by(&whole(2)), expected);
    let mut c = a.clone();
    c.divide_in_place(&whole(2));
    assert_eq!(c, expected);
}

#[test]
fn division_by_zero_leaves_undefined_values() {
    let a = function(30, &[("x", 32)]);
    let broken = a.divided_by(&Scalar::zero());
    assert!(!broken.constant().is_defined());
    assert!(!broken.coefficient("x").is_defined());
    assert_eq!(broken.coefficient("y"), Scalar::zero());
}

#[test]
fn negates_a_function() {
    let a = function(30, &[("x", 32), ("z", -5)]);
    let expected = function(-30, &[("x", -32), ("z", 5)]);
    assert_eq!(a.negated(), expected);
    let mut c = a.clone();
    c.negate_in_place();
    assert_eq!(c, expected);
}

#[test]
fn arithmetic_identities() {
    let a = LinearFunction::from_str("7 + 2.5x - 3y + z").unwrap();
    let b = LinearFunction::from_str("-4 + x + 3y - 8w").unwrap();
    assert_eq!(a.plus(&b).minus(&b), a);
    assert_eq!(a.scaled_by(&whole(2)).divided_by(&whole(2)), a);
    assert_eq!(a.negated().negated(), a);
}

#[test]
fn absent_and_zero_are_the_same() {
    let with_zero = function(3, &[("x", 0), ("y", 2)]);
    let without = function(3, &[("y", 2)]);
    assert_eq!(with_zero, without);
    assert!(with_zero.equals(&without));
    assert!(!with_zero.contains("x"));
    assert_eq!(with_zero.coefficient("x"), Scalar::zero());
    assert_eq!(with_zero.variables(), vec!["y".to_string()]);
}

#[test]
fn last_coefficient_of_a_variable_counts() {
    let f = function(0, &[("x", 1), ("y", 2), ("x", 5)]);
    assert_eq!(f.coefficient("x"), whole(5));
    assert_eq!(f, function(0, &[("y", 2), ("x", 5)]));
}

#[test]
fn sets_coefficients_and_constant() {
    let mut f = LinearFunction::zero();
    f.set_coefficient("y".to_string(), whole(2));
    f.set_coefficient("x".to_string(), whole(-1));
    f.set_constant(whole(9));
    assert_eq!(f, function(9, &[("x", -1), ("y", 2)]));
    f.set_coefficient("y".to_string(), whole(4));
    assert_eq!(f.coefficient("y"), whole(4));
    f.set_coefficient("y".to_string(), Scalar::zero());
    assert_eq!(f, function(9, &[("x", -1)]));
    assert_eq!(f.constant(), whole(9));
}

#[test]
fn substitutes_a_variable() {
    let mut f = LinearFunction::from_str("1 + 2x + 3y").unwrap();
    let replacement = LinearFunction::from_str("10 - y + z").unwrap();
    f.replace("x", &replacement);
    assert_eq!(f, LinearFunction::from_str("21 + y + 2z").unwrap());
    let before = f.clone();
    f.replace("q", &replacement);
    assert_eq!(f, before);
}

#[test]
fn scales_to_a_unit_coefficient() {
    let mut f = LinearFunction::from_str("6 + 3x - 9y").unwrap();
    f.scale_to_unit_coefficient("x");
    assert_eq!(f, LinearFunction::from_str("2 + x - 3y").unwrap());
    let before = f.clone();
    f.scale_to_unit_coefficient("z");
    assert_eq!(f, before);
}

#[test]
fn entering_variable_by_both_rules() {
    let f = LinearFunction::from_str("x + 6y + 13z").unwrap();
    assert_eq!(f.first_positive_coefficient(true), Some("x".to_string()));
    assert_eq!(f.first_positive_coefficient(false), Some("z".to_string()));
    let tie = LinearFunction::from_str("-a + 4c + 4b").unwrap();
    assert_eq!(tie.first_positive_coefficient(true), Some("b".to_string()));
    assert_eq!(tie.first_positive_coefficient(false), Some("b".to_string()));
    assert_eq!(tie.max_coefficient(), ("b".to_string(), whole(4)));
}

#[test]
fn no_entering_variable_without_a_positive_coefficient() {
    let f = LinearFunction::from_str("100 - x - 2y").unwrap();
    assert_eq!(f.first_positive_coefficient(true), None);
    assert_eq!(f.first_positive_coefficient(false), None);
    assert!(f.only_negative_coefficients());
    assert_eq!(LinearFunction::zero().first_positive_coefficient(true), None);
    assert_eq!(LinearFunction::zero().first_positive_coefficient(false), None);
    assert!(LinearFunction::zero().only_negative_coefficients());
    let g = LinearFunction::from_str("100 - x + 2y").unwrap();
    assert!(!g.only_negative_coefficients());
}

#[test]
fn greatest_coefficient_ranks_undefined_lowest() {
    let f = LinearFunction::new(
        Scalar::zero(),
        vec![("a".to_string(), Scalar::undefined()), ("b".to_string(), whole(-3))],
    );
    assert_eq!(f.max_coefficient(), ("b".to_string(), whole(-3)));
    assert_eq!(f.first_positive_coefficient(false), None);
    assert_eq!(f.first_positive_coefficient(true), None);
}

#[test]
fn variables_without_slack_variables() {
    let mut f = LinearFunction::from_str("z + x").unwrap();
    f.set_coefficient("_0".to_string(), whole(1));
    f.set_coefficient("_12".to_string(), whole(1));
    assert_eq!(
        f.variables(),
        vec!["_0".to_string(), "_12".to_string(), "x".to_string(), "z".to_string()]
    );
    assert_eq!(f.non_gap_variables(), vec!["x".to_string(), "z".to_string()]);
}

#[test]
fn single_variables() {
    let x = LinearFunction::single_variable("x".to_string());
    assert!(x.is_one_normalized_var());
    assert_eq!(x.name_single_variable(), Some("x".to_string()));
    assert_eq!(x, LinearFunction::from_str("x").unwrap());
    let two = LinearFunction::single_variable_with_coeff("x".to_string(), whole(2));
    assert!(!two.is_one_normalized_var());
    assert_eq!(two.name_single_variable(), None);
    assert!(!LinearFunction::from_str("1 + x").unwrap().is_one_normalized_var());
    assert!(!LinearFunction::from_str("x + y").unwrap().is_one_normalized_var());
    assert!(!LinearFunction::zero().is_one_normalized_var());
    assert_eq!(
        LinearFunction::single_variable_with_coeff("x".to_string(), Scalar::zero()),
        LinearFunction::zero()
    );
}

#[test]
fn reads_decimal_numbers() {
    let expected = LinearFunction::new(
        whole(30),
        vec![("x".to_string(), whole(-32)), ("z".to_string(), Scalar::new(5, 2))],
    );
    assert_eq!("2.5z + 30 - 32x".parse::<LinearFunction>().unwrap(), expected);
    assert_eq!(
        LinearFunction::from_str(".5x + 2.y").unwrap(),
        LinearFunction::new(
            Scalar::zero(),
            vec![("x".to_string(), Scalar::new(1, 2)), ("y".to_string(), whole(2))],
        )
    );
    assert_eq!(LinearFunction::from_str("0.125").unwrap().constant(), Scalar::new(1, 8));
}

#[test]
fn reads_terms_without_regard_to_blanks() {
    let expected = function(200, &[("x", 5), ("y", 3), ("z", -6)]);
    assert_eq!(LinearFunction::from_str("200+5x-6z+3y").unwrap(), expected);
    assert_eq!(LinearFunction::from_str("  200 + 5 x\t- 6z\n+3 y ").unwrap(), expected);
    assert_eq!(LinearFunction::from_str("").unwrap(), LinearFunction::zero());
    assert_eq!(LinearFunction::from_str("   ").unwrap(), LinearFunction::zero());
}

#[test]
fn terms_of_one_variable_add_up() {
    assert_eq!(LinearFunction::from_str("x + x + 3 - 1 + 2x").unwrap(), function(2, &[("x", 4)]));
    assert_eq!(LinearFunction::from_str("x - x").unwrap(), LinearFunction::zero());
    assert_eq!(LinearFunction::from_str("x y").unwrap(), function(0, &[("x", 1), ("y", 1)]));
    assert_eq!(LinearFunction::from_str("xy").unwrap(), function(0, &[("xy", 1)]));
    assert_eq!(LinearFunction::from_str("2x3").unwrap(), function(3, &[("x", 2)]));
}

#[test]
fn malformed_text_is_refused() {
    assert_eq!(LinearFunction::from_str("x +"), Err(ParseError::MalformedExpression));
    assert_eq!(LinearFunction::from_str("+ - x"), Err(ParseError::MalformedExpression));
    assert_eq!(LinearFunction::from_str("3 * x"), Err(ParseError::MalformedExpression));
    assert_eq!(LinearFunction::from_str("x <= 3"), Err(ParseError::MalformedExpression));
    assert_eq!(LinearFunction::from_str("."), Err(ParseError::MalformedExpression));
    assert_eq!(LinearFunction::from_str("_0"), Err(ParseError::MalformedExpression));
    assert_eq!(LinearFunction::from_str("1/2x"), Err(ParseError::MalformedExpression));
}

#[test]
fn numbers_beyond_the_limit_are_refused() {
    let f = LinearFunction::from_str("9223372036854775807x").unwrap();
    assert_eq!(f.coefficient("x"), whole(i64::MAX));
    assert_eq!(
        LinearFunction::from_str("9223372036854775807x + 9223372036854775808y"),
        Err(ParseError::NumberOutOfRange)
    );
    assert_eq!(
        LinearFunction::from_str("0.0000000000000000001"),
        Err(ParseError::NumberOutOfRange)
    );
    assert_eq!(
        LinearFunction::from_str("0.1000000000000000000"),
        Err(ParseError::NumberOutOfRange)
    );
    assert_eq!(LinearFunction::from_str("x - 99999999999999999999"), Err(ParseError::NumberOutOfRange));
    let h = LinearFunction::from_str("0.000000000000000001").unwrap();
    assert_eq!(h.constant(), Scalar::new(1, 1_000_000_000_000_000_000));
    assert_eq!(
        LinearFunction::from_str("0.100000000000000000").unwrap().constant(),
        Scalar::new(1, 10)
    );
    let zeros = LinearFunction::from_str("0000000000000000000000000000000012z").unwrap();
    assert_eq!(zeros.coefficient("z"), whole(12));
}

#[test]
fn first_fault_of_a_text_decides_the_error() {
    assert_eq!(
        LinearFunction::from_str("99999999999999999999 + *"),
        Err(ParseError::NumberOutOfRange)
    );
    assert_eq!(
        LinearFunction::from_str("* + 99999999999999999999"),
        Err(ParseError::MalformedExpression)
    );
}

#[test]
fn wider_white_space_is_no_blank_between_terms() {
    assert_eq!(LinearFunction::from_str("x\u{a0}+ y"), Err(ParseError::MalformedExpression));
    assert_eq!(LinearFunction::from_str("\u{c}x"), Err(ParseError::MalformedExpression));
}

#[test]
fn formats_sorted_terms() {
    let lf = LinearFunction::from_str("200+5x-6z+3y").unwrap();
    assert_eq!(lf.to_string(), "200 + 5x + 3y - 6z");
    let lf = LinearFunction::from_str("-x + 2.5y").unwrap();
    assert_eq!(lf.to_string(), "-x + 5/2y");
    assert_eq!(LinearFunction::zero().to_string(), "0");
    assert_eq!(LinearFunction::from_str("25 -8x + 12y +3z").unwrap().to_string(), "25 - 8x + 12y + 3z");
    assert_eq!(LinearFunction::from_str("x").unwrap().to_string(), "x");
    assert_eq!(LinearFunction::from_str("-8x - y + z").unwrap().to_string(), "-8x - y + z");
    assert_eq!(LinearFunction::from_str("-3").unwrap().to_string(), "-3");
    assert_eq!(LinearFunction::from_str("-3 + 0x").unwrap().to_string(), "-3");
}

#[test]
fn text_of_a_function_reads_back() {
    for text in ["200+5x-6z+3y", "-x", "0", "-12 - a + 7b", "x + y + z", "3", "-z + 1"] {
        let f = LinearFunction::from_str(text).unwrap();
        assert_eq!(LinearFunction::from_str(&f.to_string()), Ok(f));
    }
}
