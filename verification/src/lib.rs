//! The simplex method on linear programs in the form "maximize a linear
//! function subject to linear constraints, all variables at least zero",
//! with exact rational arithmetic, and a history of the pivot steps that
//! can be walked in both directions.

pub mod constraint;
pub mod display;
pub mod gcd;
pub mod grammar;
pub mod laws;
pub mod linear_function;
pub mod linear_model;
pub mod name;
pub mod rational;
pub mod round_trip;
pub mod scalar;

use constraint::{
    all_valid, all_wf, basic_value, eligible, is_most_restrictive, is_nearly_equal,
    lemma_pivoted_wf, lemma_structural_finite, nearly_equal, pivoted, rows_structural_variables,
    ConstraintModel, Constraints,
};
use linear_function::LinearFunction;
use linear_model::{
    lemma_entering_none, lemma_entering_unique, lemma_sorted_names, lemma_sorted_names_of,
    sorted_names, LinearModel,
};
use name::{merge_names, Variable};
use rational::Rational;
use scalar::Scalar;
use vstd::prelude::*;

verus! {

/// Why a step of the simplex method cannot be made.
#[derive(Debug, Clone, Copy, PartialEq, Eq, Structural)]
pub enum SimplexError {
    /// No row bounds the variable that enters the basis: the objective
    /// grows without limit.
    Unbounded,
}

/// The row that leaves the basis where `var` enters it, if there is one.
pub open spec fn leaving_row(rows: Seq<ConstraintModel>, var: Seq<char>) -> Option<int> {
    if exists|i: int| is_most_restrictive(rows, var, i) {
        Some(choose|i: int| is_most_restrictive(rows, var, i))
    } else {
        None
    }
}

/// At most one row is the first of the most restrictive ones.
pub proof fn lemma_leaving_row_unique(rows: Seq<ConstraintModel>, var: Seq<char>, i: int)
    requires
        is_most_restrictive(rows, var, i),
    ensures
        leaving_row(rows, var) == Some(i),
{
    let j = choose|j: int| is_most_restrictive(rows, var, j);
    assert(is_most_restrictive(rows, var, j));
    assert(eligible(rows, var, i) && eligible(rows, var, j));
}

/// No row leaves where none bounds the variable.
pub proof fn lemma_leaving_row_none(rows: Seq<ConstraintModel>, var: Seq<char>)
    requires
        forall|j: int| !eligible(rows, var, j),
    ensures
        leaving_row(rows, var) is None,
{
}

/// The model of a linear program: the function to maximize and the rows.
pub struct LinearProgramModel {
    pub objective: LinearModel,
    pub rows: Seq<ConstraintModel>,
}

impl LinearProgramModel {
    /// The objective and the rows are made of well-formed functions.
    pub open spec fn wf(self) -> bool {
        self.objective.wf() && all_wf(self.rows)
    }

    /// No coefficient of the objective is greater than zero: no variable
    /// can grow to the gain of the objective.
    pub open spec fn is_optimal(self) -> bool {
        self.objective.no_positive_coefficient()
    }

    /// Every row has the form `variable = linear function`.
    pub open spec fn is_valid(self) -> bool {
        all_valid(self.rows)
    }

    /// The program after the pivot on row `row` and the variable `var`:
    /// the rows are pivoted, and in the objective the new right side of
    /// the row is put in the place of `var`.
    pub open spec fn pivot_on(self, var: Seq<char>, row: int) -> LinearProgramModel {
        let rows = pivoted(self.rows, row, var);
        LinearProgramModel { objective: self.objective.substitute(var, rows[row].right), rows }
    }

    /// The variables of the program that are not slack variables.
    pub open spec fn structural_variables(self) -> Set<Seq<char>> {
        self.objective.structural_variables().union(rows_structural_variables(self.rows))
    }

    /// The point at which the program stands: for each variable that is
    /// not a slack variable, in lexicographic order, the constant of the
    /// row that has it on the left side, or zero.
    pub open spec fn point(self) -> Seq<Rational> {
        let names = sorted_names(self.structural_variables());
        Seq::new(names.len(), |k: int| basic_value(self.rows, names[k]))
    }

    /// The programs reached by one pivot on each of `names` in turn,
    /// without those variables that no row bounds.
    pub open spec fn neighbours_by(self, names: Seq<Seq<char>>) -> Seq<LinearProgramModel>
        decreases names.len(),
    {
        if names.len() == 0 {
            Seq::empty()
        } else {
            match self.pivot(names.last()) {
                Some(next) => self.neighbours_by(names.drop_last()).push(next),
                None => self.neighbours_by(names.drop_last()),
            }
        }
    }

    /// The programs reached by one pivot on each variable of the program
    /// that is not a slack variable, in lexicographic order.
    pub open spec fn neighbours(self) -> Seq<LinearProgramModel> {
        self.neighbours_by(sorted_names(self.structural_variables()))
    }

    /// The program after `var` has entered the basis; none where no row
    /// bounds `var`.
    pub open spec fn pivot(self, var: Seq<char>) -> Option<LinearProgramModel> {
        match leaving_row(self.rows, var) {
            Some(row) => Some(self.pivot_on(var, row)),
            None => None,
        }
    }
}

/// A point is within the tolerance of one of `points`.
pub open spec fn seen(points: Seq<Seq<Rational>>, point: Seq<Rational>) -> bool {
    exists|i: int| 0 <= i < points.len() && nearly_equal(#[trigger] points[i], point)
}

/// The points found by a search that takes up to `fuel` programs from the
/// stack `todo`, the last first. A program whose point was not seen adds
/// its point to `points` and its neighbours to the stack.
pub open spec fn explore(
    todo: Seq<LinearProgramModel>,
    points: Seq<Seq<Rational>>,
    fuel: nat,
) -> Seq<Seq<Rational>>
    decreases fuel,
{
    if fuel == 0 || todo.len() == 0 {
        points
    } else {
        let program = todo.last();
        if seen(points, program.point()) {
            explore(todo.drop_last(), points, (fuel - 1) as nat)
        } else {
            explore(
                todo.drop_last() + program.neighbours(),
                points.push(program.point()),
                (fuel - 1) as nat,
            )
        }
    }
}

/// The number of programs that the search for the corners of the feasible
/// region looks at before it stops.
pub const SEARCH_LIMIT: usize = 100_000;

/// A linear program: a linear function to maximize, and the rows that
/// bind its variables.
#[derive(Debug, PartialEq, Eq)]
pub struct LinearProgram {
    pub linear_function: LinearFunction,
    pub constraints: Constraints,
}

impl View for LinearProgram {
    type V = LinearProgramModel;

    open spec fn view(&self) -> LinearProgramModel {
        LinearProgramModel { objective: self.linear_function@, rows: self.constraints@ }
    }
}

impl Clone for LinearProgram {
    fn clone(&self) -> (r: Self)
        ensures
            r@ == self@,
    {
        LinearProgram {
            linear_function: self.linear_function.clone(),
            constraints: self.constraints.clone(),
        }
    }
}

impl LinearProgram {
    /// The objective and the rows are well formed.
    pub open spec fn wf(self) -> bool {
        self.linear_function.wf() && self.constraints.wf()
    }

    /// The view of a well-formed program is made of well-formed functions.
    pub proof fn lemma_view_wf(self)
        requires
            self.wf(),
        ensures
            self@.wf(),
    {
        self.linear_function.lemma_view_wf();
        self.constraints.lemma_view_wf();
    }

    /// One step of the simplex method with `var` as the variable that
    /// enters the basis. Fails, and changes nothing, where no row bounds
    /// `var`.
    pub fn pivot(&mut self, var: Variable) -> (r: Result<(), SimplexError>)
        ensures
            match r {
                Ok(()) => old(self)@.pivot(var@) == Some(final(self)@) && (old(self)@.is_valid()
                    ==> final(self)@.is_valid()),
                Err(e) => {
                    &&& e == SimplexError::Unbounded
                    &&& old(self)@.pivot(var@) is None
                    &&& final(self)@ == old(self)@
                },
            },
    {
        match self.constraints.most_restrictive(&var) {
            None => {
                proof {
                    lemma_leaving_row_none(self@.rows, var@);
                }
                Err(SimplexError::Unbounded)
            },
            Some(row) => {
                proof {
                    lemma_leaving_row_unique(self@.rows, var@, row as int);
                }
                self.constraints.pivot(row, &var);
                self.linear_function.replace(var.as_str(), &self.constraints.get(row).right);
                Ok(())
            },
        }
    }

    /// The variables of the program that are not slack variables, in
    /// lexicographic order.
    pub fn non_gap_variables(&self) -> (r: Vec<String>)
        ensures
            r.deep_view() == sorted_names(self@.structural_variables()),
            self@.structural_variables().finite(),
    {
        let objective = self.linear_function.non_gap_variables();
        let rows = self.constraints.non_gap_variables();
        proof {
            use_type_invariant(&self.linear_function);
            self.linear_function.lemma_view_wf();
            lemma_structural_finite(self@.objective);
            lemma_sorted_names_of(self@.objective.structural_variables());
            lemma_sorted_names_of(rows_structural_variables(self@.rows));
        }
        let r = merge_names(objective, &rows);
        proof {
            lemma_sorted_names(r.deep_view());
        }
        r
    }

    /// The point at which the program stands: the value of each variable
    /// that is not a slack variable, in the lexicographic order of the
    /// variables. A variable on the left side of a row has the constant of
    /// the row, every other variable is zero.
    pub fn point(&self) -> (r: Vec<Scalar>)
        requires
            self@.is_valid(),
        ensures
            r.deep_view() == self@.point(),
    {
        let names = self.non_gap_variables();
        let mut r: Vec<Scalar> = Vec::new();
        let mut i: usize = 0;
        while i < names.len()
            invariant
                i <= names@.len(),
                r@.len() == i,
                forall|k: int|
                    0 <= k < i ==> (#[trigger] r@[k])@ == basic_value(self@.rows, names@[k]@),
            decreases names@.len() - i,
        {
            r.push(self.constraints.basic_value_of(names[i].as_str()));
            i = i + 1;
        }
        proof {
            assert(names.deep_view().len() == names@.len());
            assert forall|k: int| 0 <= k < r@.len() implies r.deep_view()[k] == self@.point()[k] by {
                assert(names.deep_view()[k] == names@[k]@);
            }
            assert(r.deep_view() =~= self@.point());
        }
        r
    }

    /// The programs reached by one pivot on each variable of the program
    /// that is not a slack variable.
    fn neighbours(&self) -> (r: Vec<LinearProgram>)
        requires
            self@.is_valid(),
        ensures
            r.deep_view() == self@.neighbours(),
            forall|i: int| 0 <= i < r@.len() ==> (#[trigger] r@[i])@.is_valid(),
    {
        let names = self.non_gap_variables();
        let ghost sorted = names.deep_view();
        let mut r: Vec<LinearProgram> = Vec::new();
        let mut i: usize = 0;
        proof {
            assert(sorted.take(0) =~= Seq::<Seq<char>>::empty());
            assert(r.deep_view() =~= self@.neighbours_by(sorted.take(0)));
        }
        while i < names.len()
            invariant
                i <= names@.len(),
                sorted == names.deep_view(),
                self@.is_valid(),
                r.deep_view() == self@.neighbours_by(sorted.take(i as int)),
                forall|k: int| 0 <= k < r@.len() ==> (#[trigger] r@[k])@.is_valid(),
            decreases names@.len() - i,
        {
            proof {
                assert(sorted.take(i + 1).drop_last() =~= sorted.take(i as int));
                assert(sorted.take(i + 1).last() == sorted[i as int]);
                assert(sorted[i as int] == names@[i as int]@);
            }
            let mut next = self.clone();
            let ghost before = r.deep_view();
            match next.pivot(names[i].clone()) {
                Ok(()) => {
                    r.push(next);
                    proof {
                        assert(r.deep_view() =~= before.push(next@));
                    }
                },
                Err(_) => {},
            }
            i = i + 1;
        }
        proof {
            assert(sorted.take(i as int) =~= sorted);
        }
        r
    }

    /// The corners of the feasible region that a search from this program
    /// finds: the points of the programs reached by pivots on the
    /// variables that are not slack variables, each point once, points within a
    /// thousandth of each other in every coordinate taken as one. The
    /// search looks at `limit` programs at most.
    pub fn bfs_point_within(&self, limit: usize) -> (r: Vec<Vec<Scalar>>)
        requires
            self@.is_valid(),
        ensures
            r.deep_view() == explore(seq![self@], Seq::empty(), limit as nat),
    {
        let mut points: Vec<Vec<Scalar>> = Vec::new();
        let mut todo: Vec<LinearProgram> = Vec::new();
        todo.push(self.clone());
        let mut fuel: usize = limit;
        proof {
            assert(todo.deep_view() =~= seq![self@]);
            assert(points.deep_view() =~= Seq::<Seq<Rational>>::empty());
        }
        while fuel > 0 && todo.len() > 0
            invariant
                forall|i: int| 0 <= i < todo@.len() ==> (#[trigger] todo@[i])@.is_valid(),
                explore(todo.deep_view(), points.deep_view(), fuel as nat) == explore(
                    seq![self@],
                    Seq::empty(),
                    limit as nat,
                ),
            decreases fuel,
        {
            let ghost stack = todo.deep_view();
            let ghost found = points.deep_view();
            proof {
                assert(stack.last() == todo@[todo@.len() - 1]@);
            }
            let program = todo.pop().unwrap();
            proof {
                assert(todo.deep_view() =~= stack.drop_last());
            }
            let point = program.point();
            if !is_seen(&points, &point) {
                points.push(point);
                let mut next = program.neighbours();
                let ghost added = next.deep_view();
                todo.append(&mut next);
                proof {
                    assert(points.deep_view() =~= found.push(program@.point()));
                    assert(todo.deep_view() =~= stack.drop_last() + added);
                }
            }
            fuel = fuel - 1;
        }
        points
    }

    /// The corners of the feasible region that a search from this program
    /// finds, as `bfs_point_within` gives them with the limit
    /// `SEARCH_LIMIT`.
    pub fn bfs_point(&self) -> (r: Vec<Vec<Scalar>>)
        requires
            self@.is_valid(),
        ensures
            r.deep_view() == explore(seq![self@], Seq::empty(), SEARCH_LIMIT as nat),
    {
        self.bfs_point_within(SEARCH_LIMIT)
    }

    /// Whether the objective cannot be improved.
    pub fn is_optimal(&self) -> (b: bool)
        ensures
            b == self@.is_optimal(),
    {
        self.linear_function.only_negative_coefficients()
    }

    /// Whether every row has the form `variable = linear function`.
    pub fn is_valid(&self) -> (b: bool)
        ensures
            b == self@.is_valid(),
    {
        self.constraints.is_valid()
    }
}

impl DeepView for LinearProgram {
    type V = LinearProgramModel;

    open spec fn deep_view(&self) -> LinearProgramModel {
        self@
    }
}

/// Whether a point is within the tolerance of one of `points`.
fn is_seen(points: &Vec<Vec<Scalar>>, point: &Vec<Scalar>) -> (r: bool)
    ensures
        r == seen(points.deep_view(), point.deep_view()),
{
    let mut i: usize = 0;
    while i < points.len()
        invariant
            i <= points@.len(),
            forall|j: int|
                0 <= j < i ==> !nearly_equal(#[trigger] points.deep_view()[j], point.deep_view()),
        decreases points@.len() - i,
    {
        proof {
            assert(points.deep_view()[i as int] == points@[i as int].deep_view());
        }
        if is_nearly_equal(&points[i], point) {
            return true;
        }
        i = i + 1;
    }
    false
}

impl Constraints {
    /// The run of the simplex method that maximizes `to_maximize` under
    /// these rows.
    pub fn maximize(&self, to_maximize: &LinearFunction) -> (r: Simplex)
        ensures
            r@ == (SimplexModel {
                position: 0,
                history: seq![LinearProgramModel { objective: to_maximize@, rows: self@ }],
            }),
    {
        Simplex::new(
            LinearProgram { linear_function: to_maximize.clone(), constraints: self.clone() },
        )
    }
}

/// The model of a run of the simplex method: the programs reached so far
/// and the position of the one that is looked at.
pub struct SimplexModel {
    pub position: int,
    pub history: Seq<LinearProgramModel>,
}

impl SimplexModel {
    /// The position is one of the history, every program is made of
    /// well-formed functions, and every program but the last can be
    /// improved.
    pub open spec fn wf(self) -> bool {
        &&& 0 <= self.position < self.history.len()
        &&& forall|i: int| 0 <= i < self.history.len() ==> (#[trigger] self.history[i]).wf()
        &&& forall|i: int| 0 <= i < self.history.len() - 1 ==> !(#[trigger] self.history[i]).is_optimal()
    }

    /// The program that is looked at.
    pub open spec fn current(self) -> LinearProgramModel {
        self.history[self.position]
    }

    /// The run after one step forward, and the failure of the step if it
    /// failed. Where the current program is optimal nothing changes. Where
    /// it is the last of the history, the program after the pivot is
    /// appended, or the step fails where the pivot does. Then the position
    /// moves forward.
    pub open spec fn next_step(self, use_bland_rule: bool) -> (SimplexModel, Option<SimplexError>) {
        match self.current().objective.entering_variable(use_bland_rule) {
            None => (self, None),
            Some(var) => if self.position == self.history.len() - 1 {
                match self.current().pivot(var) {
                    Some(next) => (
                        SimplexModel {
                            position: self.position + 1,
                            history: self.history.push(next),
                        },
                        None,
                    ),
                    None => (self, Some(SimplexError::Unbounded)),
                }
            } else {
                (SimplexModel { position: self.position + 1, history: self.history }, None)
            },
        }
    }

    /// The run after one step backward: the position moves back unless it
    /// is the first.
    pub open spec fn previous_step(self) -> SimplexModel {
        if self.position != 0 {
            SimplexModel { position: self.position - 1, history: self.history }
        } else {
            self
        }
    }
}

/// Where the current program is optimal, a step forward changes nothing.
pub proof fn lemma_entering_none_moves(s: SimplexModel, use_bland_rule: bool)
    requires
        s.current().is_optimal(),
    ensures
        s.next_step(use_bland_rule) == (s, None::<SimplexError>),
{
    lemma_entering_none(s.current().objective, use_bland_rule);
}

/// A pivot leaves a program of well-formed functions.
pub proof fn lemma_pivot_wf(p: LinearProgramModel, var: Seq<char>)
    requires
        p.wf(),
    ensures
        p.pivot(var) matches Some(next) ==> next.wf(),
{
    match leaving_row(p.rows, var) {
        Some(row) => {
            assert(is_most_restrictive(p.rows, var, row));
            lemma_pivoted_wf(p.rows, row, var);
            let rows = pivoted(p.rows, row, var);
            assert(rows[row].wf());
            linear_model::lemma_substitute_wf(p.objective, var, rows[row].right);
        },
        None => {},
    }
}

/// A function with a coefficient greater than zero has an entering
/// variable by either rule.
pub proof fn lemma_not_optimal_enters(m: LinearModel, use_bland_rule: bool)
    requires
        m.wf(),
        !m.no_positive_coefficient(),
    ensures
        m.entering_variable(use_bland_rule) is Some,
{
    linear_model::lemma_entering_exists(m, use_bland_rule);
}

/// A step forward keeps a run well formed and keeps what was reached.
pub proof fn lemma_next_step_wf(s: SimplexModel, use_bland_rule: bool)
    requires
        s.wf(),
    ensures
        s.next_step(use_bland_rule).0.wf(),
        s.history.len() <= s.next_step(use_bland_rule).0.history.len() <= s.history.len() + 1,
        forall|i: int|
            0 <= i < s.history.len() ==> #[trigger] s.next_step(use_bland_rule).0.history[i]
                == s.history[i],
{
    let m = s.current().objective;
    match m.entering_variable(use_bland_rule) {
        None => {},
        Some(var) => {
            assert(m.is_entering(use_bland_rule, var));
            lemma_entering_unique(m, use_bland_rule, var, var);
            assert(!s.current().is_optimal());
            if s.position == s.history.len() - 1 {
                match s.current().pivot(var) {
                    Some(next) => {
                        lemma_pivot_wf(s.current(), var);
                        let after = s.next_step(use_bland_rule).0;
                        assert forall|i: int| 0 <= i < after.history.len() implies (
                        #[trigger] after.history[i]).wf() by {
                            if i < s.history.len() {
                                assert(after.history[i] == s.history[i]);
                            }
                        }
                    },
                    None => {},
                }
            }
        },
    }
}

/// A run of the simplex method: the programs reached so far, the first
/// being the one given, and the position of the one that is looked at.
#[derive(Debug)]
pub struct Simplex {
    index: usize,
    historic: Vec<LinearProgram>,
}

impl View for Simplex {
    type V = SimplexModel;

    closed spec fn view(&self) -> SimplexModel {
        SimplexModel {
            position: self.index as int,
            history: Seq::new(self.historic@.len(), |i: int| self.historic@[i]@),
        }
    }
}

impl Clone for Simplex {
    fn clone(&self) -> (r: Self)
        ensures
            r@ == self@,
    {
        proof {
            use_type_invariant(self);
        }
        let mut historic: Vec<LinearProgram> = Vec::new();
        let mut i: usize = 0;
        while i < self.historic.len()
            invariant
                i <= self.historic@.len(),
                historic@.len() == i,
                forall|j: int| 0 <= j < i ==> (#[trigger] historic@[j])@ == self.historic@[j]@,
            decreases self.historic@.len() - i,
        {
            historic.push(self.historic[i].clone());
            i = i + 1;
        }
        proof {
            assert(Seq::new(historic@.len(), |i: int| historic@[i]@) =~= self@.history);
        }
        Simplex { index: self.index, historic }
    }
}

impl From<LinearProgram> for Simplex {
    /// The run that starts at `value`.
    fn from(value: LinearProgram) -> (r: Simplex)
        ensures
            r@ == (SimplexModel { position: 0, history: seq![value@] }),
    {
        Simplex::new(value)
    }
}

/// What the conversion gives is stated by the contract of `from`, over the
/// view of the run: a run holds a vector, so no specification can name the
/// run itself.
impl vstd::std_specs::convert::FromSpecImpl<LinearProgram> for Simplex {
    open spec fn obeys_from_spec() -> bool {
        false
    }

    open spec fn from_spec(v: LinearProgram) -> Simplex {
        arbitrary()
    }
}

impl Simplex {
    #[verifier::type_invariant]
    pub closed spec fn wf(self) -> bool {
        self@.wf()
    }

    /// The view of a well-formed run is well formed.
    pub proof fn lemma_view_wf(self)
        requires
            self.wf(),
        ensures
            self@.wf(),
    {
    }

    /// The run that starts at `program`.
    pub fn new(program: LinearProgram) -> (r: Simplex)
        ensures
            r@ == (SimplexModel { position: 0, history: seq![program@] }),
    {
        proof {
            use_type_invariant(&program.linear_function);
            use_type_invariant(&program.constraints);
            program.lemma_view_wf();
        }
        let mut historic: Vec<LinearProgram> = Vec::new();
        historic.push(program);
        proof {
            assert(Seq::new(historic@.len(), |i: int| historic@[i]@) =~= seq![program@]);
        }
        Simplex { index: 0, historic }
    }

    /// A run of one program without objective or rows, to stand in while
    /// a run is rebuilt.
    fn empty_run() -> (r: Simplex)
        ensures
            r@ == (SimplexModel {
                position: 0,
                history: seq![
                    LinearProgramModel { objective: LinearModel::zero(), rows: Seq::empty() },
                ],
            }),
    {
        Simplex::new(
            LinearProgram { linear_function: LinearFunction::zero(), constraints: Constraints::new() },
        )
    }

    fn is_first_step(&self) -> (b: bool)
        ensures
            b == (self@.position == 0),
    {
        self.index == 0
    }

    /// The program that is looked at.
    pub fn current_state(&self) -> (r: &LinearProgram)
        ensures
            r@ == self@.current(),
    {
        proof {
            use_type_invariant(self);
        }
        &self.historic[self.index]
    }

    /// The point at which the current program stands.
    pub fn current_point(&self) -> (r: Vec<Scalar>)
        requires
            self@.current().is_valid(),
        ensures
            r.deep_view() == self@.current().point(),
    {
        self.current_state().point()
    }

    /// One step forward. Where the current program is optimal nothing
    /// changes. Where it is the last one reached, the pivot is made and
    /// its result is kept as the next program; where no row bounds the
    /// entering variable the step fails and nothing changes. Where a next
    /// program was reached before, it is not made again. Then the position
    /// moves to the next program.
    pub fn next_step(&mut self, use_bland_rule: bool) -> (r: Result<(), SimplexError>)
        ensures
            final(self)@ == old(self)@.next_step(use_bland_rule).0,
            match r {
                Ok(()) => old(self)@.next_step(use_bland_rule).1 is None,
                Err(e) => old(self)@.next_step(use_bland_rule).1 == Some(e),
            },
    {
        proof {
            use_type_invariant(&*self);
        }
        let entering = self.historic[self.index].linear_function.first_positive_coefficient(
            use_bland_rule,
        );
        match entering {
            None => {
                proof {
                    lemma_entering_none(self@.current().objective, use_bland_rule);
                }
                Ok(())
            },
            Some(var) => {
                proof {
                    lemma_entering_unique(self@.current().objective, use_bland_rule, var@, var@);
                }
                if self.index == self.historic.len() - 1 {
                    let mut next = self.historic[self.index].clone();
                    match next.pivot(var) {
                        Err(e) => Err(e),
                        Ok(()) => {
                            let ghost before = self@;
                            let mut run = Simplex::empty_run();
                            core::mem::swap(self, &mut run);
                            proof {
                                use_type_invariant(&run);
                                use_type_invariant(&next.linear_function);
                                use_type_invariant(&next.constraints);
                                next.lemma_view_wf();
                                assert(!before.current().is_optimal());
                            }
                            let Simplex { index, mut historic } = run;
                            historic.push(next);
                            proof {
                                let history = Seq::new(historic@.len(), |i: int| historic@[i]@);
                                assert(history =~= before.history.push(next@));
                                assert forall|i: int| 0 <= i < history.len() - 1 implies !(
                                #[trigger] history[i]).is_optimal() by {
                                    assert(history[i] == before.history[i]);
                                }
                                assert forall|i: int| 0 <= i < history.len() implies (
                                #[trigger] history[i]).wf() by {
                                    if i < history.len() - 1 {
                                        assert(history[i] == before.history[i]);
                                    }
                                }
                            }
                            let moved = Simplex { index: index + 1, historic };
                            *self = moved;
                            Ok(())
                        },
                    }
                } else {
                    let ghost before = self@;
                    let mut run = Simplex::empty_run();
                    core::mem::swap(self, &mut run);
                    proof {
                        use_type_invariant(&run);
                    }
                    let Simplex { index, historic } = run;
                    let moved = Simplex { index: index + 1, historic };
                    proof {
                        assert(moved@.history =~= before.history);
                    }
                    *self = moved;
                    Ok(())
                }
            },
        }
    }

    /// One step backward: to the program before the current one, unless
    /// the current one is the first. No program is forgotten.
    pub fn previous_step(&mut self)
        ensures
            final(self)@ == old(self)@.previous_step(),
    {
        proof {
            use_type_invariant(&*self);
        }
        if !self.is_first_step() {
            let ghost before = self@;
            let mut run = Simplex::empty_run();
            core::mem::swap(self, &mut run);
            proof {
                use_type_invariant(&run);
            }
            let Simplex { index, historic } = run;
            let moved = Simplex { index: index - 1, historic };
            proof {
                assert(moved@.history =~= before.history);
            }
            *self = moved;
        }
    }
}

} // verus!
