use simplex::constraint::{
    is_nearly_equal, normalized_vec, union, Constraint, Constraints, Operator,
};
use simplex::grammar::ParseError;
use simplex::linear_function::LinearFunction;
use simplex::scalar::Scalar;
use std::str::FromStr;

fn whole(n: i64) -> Scalar {
    Scalar::from_integer(n)
}

fn function(constant: i64, terms: &[(&str, i64)]) -> LinearFunction {
    LinearFunction::new(
        whole(constant),
        terms.iter().map(|(name, value)| (name.to_string(), whole(*value))).collect(),
    )
}

#[test]
fn test_new_constrait() {
    let lhs = function(30, &[("x", 32), ("z", -5)]);
    let rhs = function(-5, &[("y", 12), ("z", 5)]);
    let op = Operator::LessEqual;
    let expected = Constraint {
        left: function(30, &[("x", 32), ("z", -5)]),
        operator: Operator::LessEqual,
        right: function(-5, &[("y", 12), ("z", 5)]),
    };
    let n = Constraint::new(lhs, op, rhs);
    assert_eq!(n, expected)
}

#[test]
fn constraint_test_normalize() {
    let mut constraints =
        Constraints::compile("x - 2y >= 6 \n 12 + 9x + 3y <= 6\n 1 + 7x - y <= 0").unwrap();
    constraints.normalize(&"y".to_string());

    assert_eq!(constraints.get(0).right.coefficient("y"), whole(1));
    assert_eq!(constraints.get(1).right.coefficient("y"), whole(1));
    assert_eq!(constraints.get(2).right.coefficient("y"), whole(1));
}

#[test]
fn test_sub_assign_constraint() {
    let mut c = Constraint::from_str("0 = 200 - x - y").unwrap();
    let l_f = function(0, &[("x", -1)]);

    let expected = Constraint::from_str("x = 200 - y + 0x").unwrap();
    c.sub_in_place(&l_f);
    assert_eq!(c, expected);
}

#[test]
fn reads_a_constraint() {
    let constraint = Constraint::from_str("25 -8x + 12y +3z <= 12").unwrap();
    let expected_left = function(25, &[("x", -8), ("y", 12), ("z", 3)]);
    let expected_right = function(12, &[]);
    let expected = Constraint::new(expected_left, Operator::LessEqual, expected_right);
    assert_eq!(constraint, expected);
}

#[test]
fn reads_every_operator_by_its_longest_form() {
    assert_eq!(Constraint::from_str("x<=1").unwrap().operator, Operator::LessEqual);
    assert_eq!(Constraint::from_str("x>=1").unwrap().operator, Operator::GreaterEqual);
    assert_eq!(Constraint::from_str("x<1").unwrap().operator, Operator::Less);
    assert_eq!(Constraint::from_str("x>1").unwrap().operator, Operator::Greater);
    assert_eq!(Constraint::from_str("x=1").unwrap().operator, Operator::Equal);
    assert_eq!(Constraint::from_str("x <= ").unwrap().right, LinearFunction::zero());
}

#[test]
fn text_that_is_no_constraint() {
    assert_eq!(Constraint::from_str("x + y"), Err(ParseError::MissingOperator));
    assert_eq!(Constraint::from_str(""), Err(ParseError::MissingOperator));
    assert_eq!(Constraint::from_str("x + <= 3"), Err(ParseError::MalformedExpression));
    assert_eq!(Constraint::from_str("x <= 3 +"), Err(ParseError::MalformedExpression));
    assert_eq!(Constraint::from_str("x < = 3"), Err(ParseError::MalformedExpression));
    assert_eq!(Constraint::from_str("x <= 3 <= y"), Err(ParseError::MalformedExpression));
    assert_eq!(Constraint::from_str("x == 3"), Err(ParseError::MalformedExpression));
}

#[test]
fn add_constraint_makes_a_row() {
    let mut constraints = Constraints::new();
    let constraint = Constraint {
        left: function(30, &[("x", 32), ("z", -5)]),
        operator: Operator::LessEqual,
        right: function(-5, &[("y", 12), ("z", 5)]),
    };
    constraints.add_constraint(constraint);
    assert_eq!(constraints.gap_variables_count(), 1);
    assert_eq!(constraints.get(0).operator, Operator::Equal);
    assert_eq!(constraints.get(0).right, function(-35, &[("x", -32), ("y", 12), ("z", 10)]));
    assert_eq!(constraints.get(0).left, LinearFunction::single_variable("_0".to_string()));
}

#[test]
fn rows_of_each_kind_of_constraint() {
    let mut constraints = Constraints::new();
    constraints.add_constraint(Constraint::from_str("x >= 2").unwrap());
    constraints.add_constraint(Constraint::from_str("x > 3").unwrap());
    constraints.add_constraint(Constraint::from_str("x < 4").unwrap());
    constraints.add_constraint(Constraint::from_str("x + y = 5").unwrap());
    constraints.add_constraint(Constraint::from_str("y <= 6").unwrap());
    assert_eq!(constraints.len(), 6);
    assert!(constraints.is_valid());
    let expected = [
        "_0 = -2 + x",
        "_1 = -3 + x",
        "_2 = 4 - x",
        "_3 = 5 - x - y",
        "_4 = 5 - x - y",
        "_5 = 6 - y",
    ];
    for (index, row) in expected.iter().enumerate() {
        assert_eq!(&constraints.get(index).to_string(), row);
    }
}

#[test]
fn compile_passes_over_blank_lines() {
    let constraints = Constraints::compile("\n\nx <= 200\n   \ny <= 300\r\n\n").unwrap();
    assert_eq!(constraints.len(), 2);
    assert_eq!(constraints.to_string(), "_0 = 200 - x\n_1 = 300 - y\n");
    assert_eq!(Constraints::compile("").unwrap(), Constraints::new());
    assert_eq!(Constraints::compile("x <= 1").unwrap().len(), 1);
}

#[test]
fn compile_stops_at_the_first_error() {
    assert_eq!(Constraints::compile("x <= 1\nx + y\ny <="), Err(ParseError::MissingOperator));
    assert_eq!(Constraints::compile("x <= 1\n+ <= 2\nx + y"), Err(ParseError::MalformedExpression));
}

#[test]
fn normalize_divides_both_sides() {
    let mut c = Constraint::from_str("2s = 6 + 3x - 9y").unwrap();
    c.normalize(&"x".to_string());
    assert_eq!(
        c.left,
        LinearFunction::single_variable_with_coeff("s".to_string(), Scalar::new(2, 3))
    );
    assert_eq!(c.right, LinearFunction::from_str("2 + x - 3y").unwrap());
    let before = c.clone();
    c.normalize(&"z".to_string());
    assert_eq!(c, before);
}

#[test]
fn arithmetic_on_both_sides() {
    let c = Constraint::new(
        function(30, &[("x", 15), ("y", -5)]),
        Operator::Equal,
        function(25, &[("x", -7), ("y", 12)]),
    );
    let f = function(-2, &[("x", 5)]);
    let sum = Constraint::new(
        function(28, &[("x", 20), ("y", -5)]),
        Operator::Equal,
        function(23, &[("x", -2), ("y", 12)]),
    );
    let difference = Constraint::new(
        function(32, &[("x", 10), ("y", -5)]),
        Operator::Equal,
        function(27, &[("x", -12), ("y", 12)]),
    );
    assert_eq!(c.plus(&f), sum);
    assert_eq!(c.minus(&f), difference);
    let mut d = c.clone();
    d.add_in_place(&f);
    assert_eq!(d, sum);
    let mut e = c.clone();
    e.sub_in_place(&f);
    assert_eq!(e, difference);
    let halved = c.divided_by(&whole(5));
    assert_eq!(halved.left, function(6, &[("x", 3), ("y", -1)]));
    let mut g = c.clone();
    g.divide_in_place(&whole(5));
    assert_eq!(g, halved);
}

#[test]
fn negation_inverts_the_operator() {
    let c = Constraint::from_str("x - 1 < y").unwrap();
    let negated = c.negated();
    assert_eq!(negated.operator, Operator::GreaterEqual);
    assert_eq!(negated.left, LinearFunction::from_str("1 - x").unwrap());
    assert_eq!(negated.right, LinearFunction::from_str("-y").unwrap());
}

#[test]
fn valid_rows() {
    assert!(Constraint::from_str("s = 200 - x").unwrap().is_valid_linear_programm());
    assert!(!Constraint::from_str("s <= 200 - x").unwrap().is_valid_linear_programm());
    assert!(!Constraint::from_str("2s = 200 - x").unwrap().is_valid_linear_programm());
    assert!(!Constraint::from_str("s + 1 = 200 - x").unwrap().is_valid_linear_programm());
    assert!(!Constraint::from_str("0 = 200 - x").unwrap().is_valid_linear_programm());
    let mut rows = Constraints::compile("x <= 1\ny >= 2").unwrap();
    assert!(rows.is_valid());
    rows.normalize(&"x".to_string());
    assert!(!rows.is_valid());
    assert!(Constraints::new().is_valid());
}

#[test]
fn most_restrictive_row() {
    let rows = Constraints::compile("x <= 200\ny <= 300\nx + y + z <= 400\ny + 3z <= 600").unwrap();
    assert_eq!(rows.most_restrictive(&"x".to_string()), Some(0));
    assert_eq!(rows.most_restrictive(&"y".to_string()), Some(1));
    assert_eq!(rows.most_restrictive(&"z".to_string()), Some(3));
    assert_eq!(rows.most_restrictive(&"w".to_string()), None);
    // the first of two rows that bound the variable alike
    let tie = Constraints::compile("2x <= 10\nx <= 5\nx <= 7").unwrap();
    assert_eq!(tie.most_restrictive(&"x".to_string()), Some(0));
    // a row that lets the variable grow does not bound it
    let free = Constraints::compile("x >= 3\ny <= 4").unwrap();
    assert_eq!(free.most_restrictive(&"x".to_string()), None);
}

#[test]
fn pivot_solves_the_row_and_substitutes() {
    let mut rows = Constraints::compile("x + y <= 4\n2x + y + z <= 6").unwrap();
    rows.pivot(1, &"x".to_string());
    assert_eq!(rows.get(1).to_string(), "x = 3 - 1/2_1 - 1/2y - 1/2z");
    assert_eq!(rows.get(0).to_string(), "_0 = 1 + 1/2_1 - 1/2y + 1/2z");
    assert!(rows.is_valid());
}

#[test]
fn variables_of_constraints() {
    let c = Constraint::from_str("z + x <= y + x").unwrap();
    assert_eq!(c.non_gap_variables(), vec!["x".to_string(), "y".to_string(), "z".to_string()]);
    let rows = Constraints::compile("b <= 1\na + c >= b").unwrap();
    assert_eq!(rows.non_gap_variables(), vec!["a".to_string(), "b".to_string(), "c".to_string()]);
    assert_eq!(Constraints::new().non_gap_variables(), Vec::<String>::new());
}

#[test]
fn union_keeps_the_first_list_and_adds_what_is_new() {
    assert_eq!(union(vec![1, 2, 3], vec![3, 4, 1, 5]), vec![1, 2, 3, 4, 5]);
    assert_eq!(union(vec![1, 1], vec![2, 2, 1]), vec![1, 1, 2, 2]);
    assert_eq!(union(Vec::<i32>::new(), vec![7, 7]), vec![7, 7]);
    assert_eq!(union(vec![7], Vec::<i32>::new()), vec![7]);
    assert_eq!(
        union(vec!["x".to_string()], vec!["y".to_string(), "x".to_string()]),
        vec!["x".to_string(), "y".to_string()]
    );
}

#[test]
fn nearly_equal_points() {
    let a = vec![whole(1), Scalar::new(1, 2)];
    let close = vec![Scalar::new(1001, 1000), Scalar::new(1, 2)];
    let far = vec![Scalar::new(1002, 1000), Scalar::new(1, 2)];
    assert!(is_nearly_equal(&a, &a));
    assert!(is_nearly_equal(&a, &close));
    assert!(is_nearly_equal(&close, &a));
    assert!(!is_nearly_equal(&a, &far));
    assert!(!is_nearly_equal(&a, &vec![whole(1)]));
    assert!(is_nearly_equal(&Vec::new(), &Vec::new()));
}

#[test]
fn basic_values() {
    let mut rows = Constraints::compile("x + y <= 4\n2x + y + z <= 6").unwrap();
    assert_eq!(rows.basic_value_of("x"), Scalar::zero());
    assert_eq!(rows.basic_value_of("_0"), whole(4));
    rows.pivot(1, &"x".to_string());
    assert_eq!(rows.basic_value_of("x"), whole(3));
    assert_eq!(rows.basic_value_of("_0"), whole(1));
    assert_eq!(rows.basic_value_of("_1"), Scalar::zero());
}

#[test]
fn points_scaled_by_the_greatest_coordinate() {
    let points = vec![vec![whole(1), whole(-4)], vec![whole(2), Scalar::new(1, 2)], vec![]];
    assert_eq!(
        normalized_vec(points),
        vec![
            vec![Scalar::new(1, 4), whole(-1)],
            vec![Scalar::new(1, 2), Scalar::new(1, 8)],
            vec![],
        ]
    );
    let zeros = normalized_vec(vec![vec![whole(0), whole(0)]]);
    assert!(!zeros[0][0].is_defined());
    assert!(!zeros[0][1].is_defined());
    assert_eq!(normalized_vec(Vec::new()), Vec::<Vec<Scalar>>::new());
    // an undefined coordinate does not count for the greatest
    let mixed = normalized_vec(vec![vec![Scalar::undefined(), whole(2)]]);
    assert!(!mixed[0][0].is_defined());
    assert_eq!(mixed[0][1], whole(1));
}

#[test]
fn default_constraint_and_rows() {
    let c = Constraint::default();
    assert_eq!(c, Constraint::new(LinearFunction::zero(), Operator::Equal, LinearFunction::zero()));
    assert_eq!(Constraints::default(), Constraints::new());
    assert_eq!(LinearFunction::default(), LinearFunction::zero());
}

#[test]
fn compile_passes_over_lines_of_white_space() {
    for blank in [
        "\u{a0}",
        "\u{c}",
        "\u{b}",
        "\u{85}",
        "\u{1680}",
        "\u{2000}\u{200a}",
        "\u{2028}",
        "\u{2029}",
        "\u{202f}",
        "\u{205f}",
        "\u{3000}",
        " \t\r",
        "",
    ] {
        assert_eq!(Constraints::compile(blank), Ok(Constraints::new()));
        let text = format!("x <= 200\n{blank}\ny <= 300");
        let rows = Constraints::compile(&text).unwrap();
        assert_eq!(rows.to_string(), "_0 = 200 - x\n_1 = 300 - y\n");
    }
    // a mark that is no white space is no blank line
    assert_eq!(Constraints::compile("\u{200b}"), Err(ParseError::MissingOperator));
    assert_eq!(Constraints::compile("x <= 1\n\u{feff}\n"), Err(ParseError::MissingOperator));
    // within a constraint the wider white space is not passed over
    assert_eq!(Constraints::compile("x\u{a0}<= 1"), Err(ParseError::MalformedExpression));
}

#[test]
fn operator_between_white_space() {
    assert_eq!(Operator::from_str("\u{a0}=\u{3000}"), Ok(Operator::Equal));
    assert_eq!(Operator::from_str("\u{c}<=\u{2028}\u{85}"), Ok(Operator::LessEqual));
    assert_eq!(Operator::from_str("\u{200b}="), Err(ParseError::MissingOperator));
}

#[test]
fn constraint_with_a_number_out_of_range() {
    assert_eq!(
        Constraint::from_str("x <= 99999999999999999999"),
        Err(ParseError::NumberOutOfRange)
    );
    assert_eq!(
        Constraint::from_str("99999999999999999999 <= +"),
        Err(ParseError::NumberOutOfRange)
    );
    assert_eq!(
        Constraint::from_str("+ <= 99999999999999999999"),
        Err(ParseError::MalformedExpression)
    );
    assert_eq!(
        Constraints::compile("x <= 1\ny <= 0.1234567890123456789"),
        Err(ParseError::NumberOutOfRange)
    );
}
