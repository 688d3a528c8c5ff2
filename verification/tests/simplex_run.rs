use simplex::constraint::Constraints;
use simplex::linear_function::LinearFunction;
use simplex::scalar::Scalar;
use simplex::{LinearProgram, Simplex, SimplexError};
use std::str::FromStr;

fn whole(n: i64) -> Scalar {
    Scalar::from_integer(n)
}

fn textbook() -> LinearProgram {
    LinearProgram {
        linear_function: LinearFunction::from_str("x + 6y + 13z").unwrap(),
        constraints: Constraints::compile(
            "x <= 200\ny <= 300\nx + y + z <= 400\ny + 3z <= 600",
        )
        .unwrap(),
    }
}

#[test]
fn test_non_gap_variables() {
    let lp = LinearProgram {
        linear_function: LinearFunction::from_str("x + 2y").unwrap(),
        constraints: Constraints::compile("x + y <= 2\n x + 2y <= 3").unwrap(),
    };
    assert_eq!(lp.non_gap_variables(), vec!["x".to_string(), "y".to_string()]);
}

#[test]
fn test_point_1() {
    let lp = LinearProgram {
        linear_function: LinearFunction::from_str("x + 2y").unwrap(),
        constraints: Constraints::compile("x + y <= 2\n x + 2y <= 3").unwrap(),
    };
    assert_eq!(lp.point(), vec![whole(0), whole(0)]);
}

#[test]
fn test_point_2() {
    let lp = LinearProgram {
        linear_function: LinearFunction::from_str("x + 2y").unwrap(),
        constraints: Constraints::compile("x <= 200\n 300 - x + 2y >= 0").unwrap(),
    };
    let mut simplex = Simplex::from(lp);
    simplex.next_step(true).unwrap();
    println!("{}", simplex.current_state().to_string());
    assert_eq!(simplex.current_point(), vec![whole(200), whole(0)]);
}

#[test]
fn test_bfs_point1() {
    let lp = LinearProgram {
        linear_function: LinearFunction::from_str("x + 2y").unwrap(),
        constraints: Constraints::compile("x <= 100\n y <= 100").unwrap(),
    };
    assert_eq!(lp.bfs_point().len(), 4);
}

#[test]
fn test_bfs_point2() {
    let lp = LinearProgram {
        linear_function: LinearFunction::from_str("x + 6y + 13z").unwrap(),
        constraints: Constraints::compile(
            "x <= 200\n
            y <= 300\n
            x + y + z <= 400\n
            y + 3z <= 600",
        )
        .unwrap(),
    };
    assert_eq!(lp.bfs_point().len(), 8);
}

#[test]
fn search_stops_at_its_limit() {
    let lp = textbook();
    assert_eq!(lp.bfs_point_within(0), Vec::<Vec<Scalar>>::new());
    assert_eq!(lp.bfs_point_within(1), vec![vec![whole(0), whole(0), whole(0)]]);
    assert_eq!(lp.bfs_point_within(2).len(), 2);
    assert_eq!(lp.bfs_point_within(1000), lp.bfs_point());
}

#[test]
fn corners_of_a_square() {
    let lp = LinearProgram {
        linear_function: LinearFunction::from_str("x + 2y").unwrap(),
        constraints: Constraints::compile("x <= 100\n y <= 100").unwrap(),
    };
    let mut corners = lp.bfs_point();
    corners.sort_by_key(|p| (p[0].numerator(), p[1].numerator()));
    assert_eq!(
        corners,
        vec![
            vec![whole(0), whole(0)],
            vec![whole(0), whole(100)],
            vec![whole(100), whole(0)],
            vec![whole(100), whole(100)],
        ]
    );
}

#[test]
fn textbook_program_reaches_the_optimum() {
    let lp = textbook();
    let mut simplex = lp.constraints.maximize(&lp.linear_function);
    let mut steps = 0;
    while !simplex.current_state().is_optimal() {
        assert_eq!(simplex.next_step(true), Ok(()));
        steps += 1;
        assert!(steps < 50);
    }
    assert!(simplex.current_state().is_optimal());
    assert!(simplex.current_state().is_valid());
    assert_eq!(simplex.current_point(), vec![whole(0), whole(300), whole(100)]);
    // the value of the objective at this point
    assert_eq!(simplex.current_state().linear_function.constant(), whole(3100));
    assert_eq!(
        lp.linear_function.apply(&vec![
            ("x".to_string(), whole(0)),
            ("y".to_string(), whole(300)),
            ("z".to_string(), whole(100)),
        ]),
        whole(3100)
    );
    // a further step changes nothing
    let reached = simplex.clone();
    assert_eq!(simplex.next_step(true), Ok(()));
    assert_eq!(simplex.current_state(), reached.current_state());
    assert_eq!(simplex.current_point(), reached.current_point());
}

#[test]
fn textbook_program_by_the_greatest_coefficient() {
    let lp = textbook();
    let mut simplex = Simplex::from(lp);
    let mut steps = 0;
    while !simplex.current_state().is_optimal() {
        assert_eq!(simplex.next_step(false), Ok(()));
        steps += 1;
        assert!(steps < 50);
    }
    assert_eq!(simplex.current_point(), vec![whole(0), whole(300), whole(100)]);
    assert_eq!(simplex.current_state().linear_function.constant(), whole(3100));
}

#[test]
fn first_step_of_the_textbook_program() {
    let mut simplex = Simplex::new(textbook());
    assert_eq!(
        simplex.current_state().to_string(),
        "max x + 6y + 13z\n_0 = 200 - x\n_1 = 300 - y\n_2 = 400 - x - y - z\n_3 = 600 - y - 3z\n\n"
    );
    simplex.next_step(true).unwrap();
    assert_eq!(
        simplex.current_state().to_string(),
        "max 200 - _0 + 6y + 13z\nx = 200 - _0\n_1 = 300 - y\n_2 = 200 + _0 - y - z\n_3 = 600 - y - 3z\n\n"
    );
}

#[test]
fn unbounded_program_is_reported() {
    let constraints = Constraints::compile("y <= 5").unwrap();
    let objective = LinearFunction::from_str("x").unwrap();
    let mut simplex = constraints.maximize(&objective);
    let before = simplex.current_state().clone();
    assert_eq!(simplex.next_step(true), Err(SimplexError::Unbounded));
    assert_eq!(simplex.next_step(false), Err(SimplexError::Unbounded));
    assert_eq!(simplex.current_state(), &before);
}

#[test]
fn pivot_on_an_unbounded_variable_changes_nothing() {
    let mut lp = LinearProgram {
        linear_function: LinearFunction::from_str("x + y").unwrap(),
        constraints: Constraints::compile("y <= 5").unwrap(),
    };
    let before = lp.clone();
    assert_eq!(lp.pivot("x".to_string()), Err(SimplexError::Unbounded));
    assert_eq!(lp, before);
    assert_eq!(lp.pivot("y".to_string()), Ok(()));
    assert_eq!(lp.to_string(), "max 5 - _0 + x\ny = 5 - _0\n\n");
}

#[test]
fn steps_back_and_forth_keep_the_programs() {
    let mut simplex = Simplex::new(textbook());
    let start = simplex.current_state().clone();
    simplex.previous_step();
    assert_eq!(simplex.current_state(), &start);
    simplex.next_step(true).unwrap();
    let first = simplex.current_state().clone();
    assert!(first != start);
    simplex.previous_step();
    assert_eq!(simplex.current_state(), &start);
    simplex.next_step(true).unwrap();
    assert_eq!(simplex.current_state(), &first);
    simplex.next_step(true).unwrap();
    let second = simplex.current_state().clone();
    simplex.previous_step();
    simplex.previous_step();
    simplex.previous_step();
    assert_eq!(simplex.current_state(), &start);
    // forward through what was reached, by either rule, makes nothing anew
    simplex.next_step(false).unwrap();
    assert_eq!(simplex.current_state(), &first);
    simplex.next_step(false).unwrap();
    assert_eq!(simplex.current_state(), &second);
}

#[test]
fn optimal_program_does_not_move() {
    let lp = LinearProgram {
        linear_function: LinearFunction::from_str("10 - x").unwrap(),
        constraints: Constraints::compile("x <= 5").unwrap(),
    };
    assert!(lp.is_optimal());
    let mut simplex = Simplex::new(lp.clone());
    assert_eq!(simplex.next_step(true), Ok(()));
    assert_eq!(simplex.next_step(false), Ok(()));
    assert_eq!(simplex.current_state(), &lp);
    simplex.previous_step();
    assert_eq!(simplex.current_state(), &lp);
}

#[test]
fn equation_gives_two_rows() {
    let lp = LinearProgram {
        linear_function: LinearFunction::from_str("x").unwrap(),
        constraints: Constraints::compile("x + y = 4").unwrap(),
    };
    assert_eq!(lp.to_string(), "max x\n_0 = 4 - x - y\n_1 = 4 - x - y\n\n");
    assert!(lp.is_valid());
}

#[test]
fn rows_read_from_text_are_valid() {
    for text in ["x <= 1", "x + y = 3\nx >= 1\n\ny < 2", ""] {
        assert!(Constraints::compile(text).unwrap().is_valid());
    }
}

#[test]
fn run_from_a_program_starts_at_the_program() {
    let lp = textbook();
    let from = Simplex::from(lp.clone());
    let made = Simplex::new(lp.clone());
    assert_eq!(from.current_state(), &lp);
    assert_eq!(made.current_state(), &lp);
    assert_eq!(from.current_point(), vec![whole(0), whole(0), whole(0)]);
}

#[test]
fn search_pivots_on_variables_that_the_objective_does_not_hold() {
    let lp = LinearProgram {
        linear_function: LinearFunction::from_str("x").unwrap(),
        constraints: Constraints::compile("x <= 1\ny <= 1").unwrap(),
    };
    let mut corners = lp.bfs_point();
    corners.sort_by_key(|p| (p[0].numerator(), p[1].numerator()));
    assert_eq!(
        corners,
        vec![
            vec![whole(0), whole(0)],
            vec![whole(0), whole(1)],
            vec![whole(1), whole(0)],
            vec![whole(1), whole(1)],
        ]
    );
}

#[test]
fn steps_keep_the_rows_feasible_and_do_not_lower_the_objective() {
    for rule in [true, false] {
        let mut simplex = Simplex::new(textbook());
        let mut value = simplex.current_state().linear_function.constant();
        let mut steps = 0;
        while !simplex.current_state().is_optimal() {
            simplex.next_step(rule).unwrap();
            let program = simplex.current_state();
            for index in 0..program.constraints.len() {
                assert!(!program.constraints.get(index).right.constant().is_negative());
            }
            let next = program.linear_function.constant();
            assert!(!next.lt(&value));
            value = next;
            steps += 1;
            assert!(steps < 50);
        }
        assert_eq!(value, whole(3100));
    }
}
