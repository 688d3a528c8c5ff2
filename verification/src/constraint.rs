//! Linear constraints, and the rows of a linear program: constraints
//! brought to the form `slack variable = linear function`.

use crate::linear_function::LinearFunction;
use crate::linear_model::{
    lemma_divided_by, lemma_extensional, lemma_minus, lemma_negated, lemma_sorted_names,
    lemma_sorted_names_of, lemma_with_coefficient, sorted_names, strictly_sorted, LinearModel,
};
use crate::name::{gap_name, gap_variable_name, merge_names, Variable};
use crate::rational::{
    lemma_add_zero, lemma_div_self, lemma_integer, lemma_ranking, lemma_ranks_through,
    lemma_reciprocal, lemma_sub_self, Rational,
};
use crate::scalar::Scalar;
use vstd::prelude::*;
use vstd::std_specs::cmp::PartialEqSpec;
use vstd::std_specs::iter::IteratorSpec;

verus! {

/// The relation that a constraint places between its two sides.
#[derive(Debug, Clone, Copy, PartialEq, Eq, Structural)]
pub enum Operator {
    Equal,
    Less,
    Greater,
    LessEqual,
    GreaterEqual,
}

impl Operator {
    /// The operator that holds between the two sides after both have been
    /// negated and the relation has been negated with them.
    pub open spec fn spec_inverse(self) -> Operator {
        match self {
            Operator::Equal => Operator::Equal,
            Operator::Less => Operator::GreaterEqual,
            Operator::Greater => Operator::LessEqual,
            Operator::LessEqual => Operator::Greater,
            Operator::GreaterEqual => Operator::Less,
        }
    }

    pub fn inverse(&self) -> (r: Operator)
        ensures
            r == self.spec_inverse(),
    {
        match self {
            Operator::Equal => Operator::Equal,
            Operator::Less => Operator::GreaterEqual,
            Operator::Greater => Operator::LessEqual,
            Operator::LessEqual => Operator::Greater,
            Operator::GreaterEqual => Operator::Less,
        }
    }
}

impl Default for Operator {
    fn default() -> (r: Operator)
        ensures
            r == Operator::Equal,
    {
        Operator::Equal
    }
}

/// The model of a constraint: two linear functions and the relation
/// between them.
pub struct ConstraintModel {
    pub left: LinearModel,
    pub operator: Operator,
    pub right: LinearModel,
}

impl ConstraintModel {
    pub open spec fn wf(self) -> bool {
        self.left.wf() && self.right.wf()
    }

    /// The row `name = right`.
    pub open spec fn row(name: Seq<char>, right: LinearModel) -> ConstraintModel {
        ConstraintModel {
            left: LinearModel::single(name, Rational::one()),
            operator: Operator::Equal,
            right,
        }
    }

    /// The constraint has the form `variable = linear function`.
    pub open spec fn is_valid(self) -> bool {
        self.left.is_unit_variable() && self.operator == Operator::Equal
    }

    /// Both sides divided by the coefficient that `var` has on the right;
    /// the constraint itself where that coefficient is zero.
    pub open spec fn normalize(self, var: Seq<char>) -> ConstraintModel {
        if self.right.coefficients.dom().contains(var) {
            ConstraintModel {
                left: self.left.divided_by(self.right.coefficients[var]),
                operator: self.operator,
                right: self.right.divided_by(self.right.coefficients[var]),
            }
        } else {
            self
        }
    }

    pub open spec fn plus(self, f: LinearModel) -> ConstraintModel {
        ConstraintModel { left: self.left.plus(f), operator: self.operator, right: self.right.plus(f) }
    }

    pub open spec fn minus(self, f: LinearModel) -> ConstraintModel {
        ConstraintModel {
            left: self.left.minus(f),
            operator: self.operator,
            right: self.right.minus(f),
        }
    }

    pub open spec fn divided_by(self, divisor: Rational) -> ConstraintModel {
        ConstraintModel {
            left: self.left.divided_by(divisor),
            operator: self.operator,
            right: self.right.divided_by(divisor),
        }
    }

    pub open spec fn negated(self) -> ConstraintModel {
        ConstraintModel {
            left: self.left.negated(),
            operator: self.operator.spec_inverse(),
            right: self.right.negated(),
        }
    }

    /// The variables of both sides that are not slack variables.
    pub open spec fn structural_variables(self) -> Set<Seq<char>> {
        self.left.structural_variables().union(self.right.structural_variables())
    }

    /// The row solved for `var`: both sides are divided by the coefficient
    /// of `var` on the right, then the left side and `var` are taken from
    /// both sides, and both sides are negated. Where the row was
    /// `s = c * var + rest` it becomes `var = s / c - rest / c`.
    pub open spec fn pivot_row(self, var: Seq<char>) -> ConstraintModel {
        self.normalize(var).minus(self.normalize(var).left).minus(
            LinearModel::single(var, Rational::one()),
        ).negated()
    }

    /// The rows that stand for the constraint among the rows of a linear
    /// program which holds `count` rows already. An inequality gives the
    /// one row `slack = greater side - lesser side`; an equation gives
    /// this row twice, each with a slack variable of its own.
    pub open spec fn standardized(self, count: nat) -> Seq<ConstraintModel> {
        match self.operator {
            Operator::LessEqual | Operator::Less => seq![
                Self::row(gap_name(count), self.right.minus(self.left)),
            ],
            Operator::GreaterEqual | Operator::Greater => seq![
                Self::row(gap_name(count), self.left.minus(self.right)),
            ],
            Operator::Equal => seq![
                Self::row(gap_name(count), self.right.minus(self.left)),
                Self::row(gap_name(count + 1), self.right.minus(self.left)),
            ],
        }
    }
}

/// A linear constraint: `left operator right`.
#[derive(Debug, PartialEq, Eq)]
pub struct Constraint {
    pub left: LinearFunction,
    pub operator: Operator,
    pub right: LinearFunction,
}

impl View for Constraint {
    type V = ConstraintModel;

    open spec fn view(&self) -> ConstraintModel {
        ConstraintModel { left: self.left@, operator: self.operator, right: self.right@ }
    }
}

impl Clone for Constraint {
    fn clone(&self) -> (r: Self)
        ensures
            r@ == self@,
    {
        Constraint { left: self.left.clone(), operator: self.operator, right: self.right.clone() }
    }
}

impl Default for Constraint {
    fn default() -> (r: Constraint)
        ensures
            r@ == (ConstraintModel {
                left: LinearModel::zero(),
                operator: Operator::Equal,
                right: LinearModel::zero(),
            }),
    {
        Constraint {
            left: LinearFunction::zero(),
            operator: Operator::Equal,
            right: LinearFunction::zero(),
        }
    }
}

impl Constraint {
    /// The constraint `left operator right`, kept as it is given.
    pub fn new(left: LinearFunction, operator: Operator, right: LinearFunction) -> (r: Constraint)
        ensures
            r@ == (ConstraintModel { left: left@, operator, right: right@ }),
    {
        Constraint { left, operator, right }
    }

    /// Divides both sides by the coefficient that `var` has on the right,
    /// so that this coefficient becomes one. Does nothing where the right
    /// side does not hold `var`.
    pub fn normalize(&mut self, var: &Variable)
        ensures
            final(self)@ == old(self)@.normalize(var@),
    {
        if self.right.contains(var.as_str()) {
            let c = self.right.coefficient(var.as_str());
            self.left.divide_in_place(&c);
            self.right.divide_in_place(&c);
        }
    }

    /// Whether the constraint has the form `variable = linear function`.
    pub fn is_valid_linear_programm(&self) -> (b: bool)
        ensures
            b == self@.is_valid(),
    {
        self.left.is_one_normalized_var() && self.operator == Operator::Equal
    }

    /// The variables of both sides that are not slack variables, in
    /// lexicographic order.
    pub fn non_gap_variables(&self) -> (r: Vec<Variable>)
        ensures
            r.deep_view() == sorted_names(self@.structural_variables()),
            self@.structural_variables().finite(),
    {
        let left = self.left.non_gap_variables();
        let right = self.right.non_gap_variables();
        proof {
            use_type_invariant(&self.left);
            use_type_invariant(&self.right);
            self.left.lemma_view_wf();
            self.right.lemma_view_wf();
            lemma_structural_finite(self.left@);
            lemma_structural_finite(self.right@);
            lemma_sorted_names_of(self.left@.structural_variables());
            lemma_sorted_names_of(self.right@.structural_variables());
        }
        let r = merge_names(left, &right);
        proof {
            lemma_sorted_names(r.deep_view());
        }
        r
    }

    /// Adds `f` to both sides.
    pub fn add_in_place(&mut self, f: &LinearFunction)
        ensures
            final(self)@ == old(self)@.plus(f@),
    {
        self.left.add_in_place(f);
        self.right.add_in_place(f);
    }

    /// Subtracts `f` from both sides.
    pub fn sub_in_place(&mut self, f: &LinearFunction)
        ensures
            final(self)@ == old(self)@.minus(f@),
    {
        self.left.sub_in_place(f);
        self.right.sub_in_place(f);
    }

    /// Divides both sides by `divisor`.
    pub fn divide_in_place(&mut self, divisor: &Scalar)
        ensures
            final(self)@ == old(self)@.divided_by(divisor@),
    {
        self.left.divide_in_place(divisor);
        self.right.divide_in_place(divisor);
    }

    /// The constraint with `f` added to both sides.
    pub fn plus(&self, f: &LinearFunction) -> (r: Constraint)
        ensures
            r@ == self@.plus(f@),
    {
        Constraint { left: self.left.plus(f), operator: self.operator, right: self.right.plus(f) }
    }

    /// The constraint with `f` subtracted from both sides.
    pub fn minus(&self, f: &LinearFunction) -> (r: Constraint)
        ensures
            r@ == self@.minus(f@),
    {
        Constraint { left: self.left.minus(f), operator: self.operator, right: self.right.minus(f) }
    }

    /// The constraint with both sides divided by `divisor`.
    pub fn divided_by(&self, divisor: &Scalar) -> (r: Constraint)
        ensures
            r@ == self@.divided_by(divisor@),
    {
        Constraint {
            left: self.left.divided_by(divisor),
            operator: self.operator,
            right: self.right.divided_by(divisor),
        }
    }

    /// The constraint with both sides negated and the operator inverted.
    pub fn negated(&self) -> (r: Constraint)
        ensures
            r@ == self@.negated(),
    {
        Constraint {
            left: self.left.negated(),
            operator: self.operator.inverse(),
            right: self.right.negated(),
        }
    }
}

/// Whether row `i` bounds the growth of `var`: its right side holds `var`
/// with a coefficient below zero.
pub open spec fn eligible(rows: Seq<ConstraintModel>, var: Seq<char>, i: int) -> bool {
    0 <= i < rows.len() && rows[i].right.coefficient(var).is_negative()
}

/// The constant of row `i` over its coefficient of `var`: minus the value
/// to which `var` can grow before the variable of the row falls below zero.
pub open spec fn ratio(rows: Seq<ConstraintModel>, var: Seq<char>, i: int) -> Rational {
    rows[i].right.constant.div(rows[i].right.coefficient(var))
}

/// Row `i` is the first of the rows that bound `var` most tightly: it is
/// eligible, no eligible row has a ratio that ranks above its own, and
/// every eligible row before it has a ratio that ranks below.
pub open spec fn is_most_restrictive(rows: Seq<ConstraintModel>, var: Seq<char>, i: int) -> bool {
    &&& eligible(rows, var, i)
    &&& forall|j: int| #[trigger]
        eligible(rows, var, j) ==> !ratio(rows, var, i).ranks_below(ratio(rows, var, j))
    &&& forall|j: int| #[trigger]
        eligible(rows, var, j) && j < i ==> ratio(rows, var, j).ranks_below(ratio(rows, var, i))
}

/// The rows after a pivot on row `index` and the variable `var`: the row
/// is solved for `var`, and in the right side of every row its new right
/// side is put in the place of `var`.
pub open spec fn pivoted(rows: Seq<ConstraintModel>, index: int, var: Seq<char>) -> Seq<
    ConstraintModel,
> {
    let solved = rows[index].pivot_row(var);
    Seq::new(
        rows.len(),
        |i: int|
            {
                let row = if i == index {
                    solved
                } else {
                    rows[i]
                };
                ConstraintModel {
                    left: row.left,
                    operator: row.operator,
                    right: row.right.substitute(var, solved.right),
                }
            },
    )
}

/// The variables of the rows that are not slack variables.
pub open spec fn rows_structural_variables(rows: Seq<ConstraintModel>) -> Set<Seq<char>> {
    Set::new(
        |n: Seq<char>|
            exists|i: int|
                0 <= i < rows.len() && (#[trigger] rows[i]).structural_variables().contains(n),
    )
}

/// The value that the rows give to a variable: the constant of the last
/// row that has the variable on its left side, and zero where no row has.
pub open spec fn basic_value(rows: Seq<ConstraintModel>, name: Seq<char>) -> Rational
    decreases rows.len(),
{
    if rows.len() == 0 {
        Rational::zero()
    } else if rows.last().left.coefficients.dom().contains(name) {
        rows.last().right.constant
    } else {
        basic_value(rows.drop_last(), name)
    }
}

/// No row has a constant below zero: the point at which the rows stand,
/// with every variable of the right sides at zero, gives no variable of a
/// left side a value below zero.
pub open spec fn feasible(rows: Seq<ConstraintModel>) -> bool {
    forall|i: int| 0 <= i < rows.len() ==> !(#[trigger] rows[i]).right.constant.is_negative()
}

/// Every row has the form `variable = linear function`.
pub open spec fn all_valid(rows: Seq<ConstraintModel>) -> bool {
    forall|i: int| 0 <= i < rows.len() ==> (#[trigger] rows[i]).is_valid()
}

/// The rows of a linear program, in the order in which they were added.
#[derive(Debug, PartialEq, Eq)]
pub struct Constraints {
    inner: Vec<Constraint>,
}

impl View for Constraints {
    type V = Seq<ConstraintModel>;

    closed spec fn view(&self) -> Seq<ConstraintModel> {
        views(self.inner@)
    }
}

/// The models of a sequence of constraints.
spec fn views(rows: Seq<Constraint>) -> Seq<ConstraintModel> {
    Seq::new(rows.len(), |i: int| rows[i]@)
}

impl Clone for Constraints {
    fn clone(&self) -> (r: Self)
        ensures
            r@ == self@,
    {
        let mut inner: Vec<Constraint> = Vec::new();
        let mut i: usize = 0;
        while i < self.inner.len()
            invariant
                i <= self.inner@.len(),
                inner@.len() == i,
                forall|j: int| 0 <= j < i ==> (#[trigger] inner@[j])@ == self.inner@[j]@,
            decreases self.inner@.len() - i,
        {
            inner.push(self.inner[i].clone());
            i = i + 1;
        }
        proof {
            use_type_invariant(self);
            assert(views(inner@) =~= self@);
        }
        Constraints { inner }
    }
}

impl Default for Constraints {
    fn default() -> (r: Constraints)
        ensures
            r@ == Seq::<ConstraintModel>::empty(),
    {
        Constraints::new()
    }
}

impl Constraints {
    /// Every row is made of well-formed functions.
    #[verifier::type_invariant]
    pub closed spec fn wf(self) -> bool {
        all_wf(self@)
    }

    /// The rows of well-formed constraints are made of well-formed
    /// functions.
    pub proof fn lemma_view_wf(self)
        requires
            self.wf(),
        ensures
            all_wf(self@),
    {
    }

    /// No rows.
    pub fn new() -> (r: Constraints)
        ensures
            r@ == Seq::<ConstraintModel>::empty(),
    {
        let inner: Vec<Constraint> = Vec::new();
        proof {
            assert(views(inner@) =~= Seq::<ConstraintModel>::empty());
        }
        Constraints { inner }
    }

    /// The number of rows.
    pub fn len(&self) -> (n: usize)
        ensures
            n == self@.len(),
    {
        self.inner.len()
    }

    /// The row at `index`.
    pub fn get(&self, index: usize) -> (row: &Constraint)
        requires
            index < self@.len(),
        ensures
            row@ == self@[index as int],
    {
        &self.inner[index]
    }

    /// The number of slack variables, which is the number of rows.
    pub fn gap_variables_count(&self) -> (n: usize)
        ensures
            n == self@.len(),
    {
        self.inner.len()
    }

    /// Adds the rows that stand for `constraint`: one for an inequality,
    /// two for an equation, each with a slack variable that no earlier row
    /// was given.
    pub fn add_constraint(&mut self, constraint: Constraint)
        ensures
            final(self)@ == old(self)@ + constraint@.standardized(old(self)@.len()),
            all_valid(constraint@.standardized(old(self)@.len())),
            all_valid(old(self)@) ==> all_valid(final(self)@),
            final(self)@.len() == old(self)@.len() + (if constraint.operator == Operator::Equal {
                2int
            } else {
                1int
            }),
    {
        let ghost before = self@;
        let Constraint { left, operator, right } = constraint;
        proof {
            use_type_invariant(&*self);
            use_type_invariant(&left);
            use_type_invariant(&right);
            left.lemma_view_wf();
            right.lemma_view_wf();
            lemma_standardized_wf(constraint@, before.len());
            lemma_single_is_unit(gap_name(before.len()));
            lemma_single_is_unit(gap_name(before.len() + 1));
        }
        let mut inner: Vec<Constraint> = Vec::new();
        proof {
            assert(views(inner@) =~= Seq::<ConstraintModel>::empty());
        }
        core::mem::swap(&mut inner, &mut self.inner);
        proof {
            assert(views(inner@) =~= before);
        }
        match operator {
            Operator::LessEqual | Operator::Less => {
                let slack = LinearFunction::single_variable(gap_variable_name(inner.len()));
                inner.push(
                    Constraint { left: slack, operator: Operator::Equal, right: right.minus(&left) },
                );
            },
            Operator::GreaterEqual | Operator::Greater => {
                let slack = LinearFunction::single_variable(gap_variable_name(inner.len()));
                inner.push(
                    Constraint { left: slack, operator: Operator::Equal, right: left.minus(&right) },
                );
            },
            Operator::Equal => {
                let first = LinearFunction::single_variable(gap_variable_name(inner.len()));
                inner.push(
                    Constraint { left: first, operator: Operator::Equal, right: right.minus(&left) },
                );
                let second = LinearFunction::single_variable(gap_variable_name(inner.len()));
                inner.push(
                    Constraint { left: second, operator: Operator::Equal, right: right.minus(&left) },
                );
            },
        }
        proof {
            let after = views(inner@);
            let added = constraint@.standardized(before.len());
            assert(after =~= before + added);
            assert forall|i: int| 0 <= i < after.len() implies (#[trigger] after[i]).wf() by {
                if i < before.len() {
                    assert(before[i].wf());
                } else {
                    assert(added[i - before.len()].wf());
                }
            }
            assert forall|i: int| 0 <= i < after.len() && all_valid(before) implies (
            #[trigger] after[i]).is_valid() by {
                if i < before.len() {
                    assert(before[i].is_valid());
                } else {
                    assert(added[i - before.len()].is_valid());
                }
            }
        }
        self.inner = inner;
    }

    /// Divides both sides of every row by the coefficient that `var` has
    /// on its right side.
    pub fn normalize(&mut self, var: &Variable)
        ensures
            final(self)@.len() == old(self)@.len(),
            forall|i: int|
                0 <= i < old(self)@.len() ==> #[trigger] final(self)@[i] == old(self)@[i].normalize(
                    var@,
                ),
    {
        let ghost before = self@;
        proof {
            use_type_invariant(&*self);
        }
        let mut inner: Vec<Constraint> = Vec::new();
        proof {
            assert(views(inner@) =~= Seq::<ConstraintModel>::empty());
        }
        core::mem::swap(&mut inner, &mut self.inner);
        let mut i: usize = 0;
        while i < inner.len()
            invariant
                i <= inner@.len(),
                views(inner@).len() == before.len(),
                all_wf(views(inner@)),
                forall|j: int| 0 <= j < i ==> #[trigger] views(inner@)[j] == before[j].normalize(var@),
                forall|j: int| i <= j < before.len() ==> #[trigger] views(inner@)[j] == before[j],
            decreases inner@.len() - i,
        {
            let ghost previous = views(inner@);
            let mut row = inner[i].clone();
            proof {
                assert(row@ == previous[i as int]);
                assert(previous[i as int] == before[i as int]);
            }
            row.normalize(var);
            proof {
                use_type_invariant(&row.left);
                use_type_invariant(&row.right);
                row.left.lemma_view_wf();
                row.right.lemma_view_wf();
                lemma_update_wf(previous, i as int, row@);
            }
            let ghost changed = row@;
            inner[i] = row;
            proof {
                assert(views(inner@) =~= previous.update(i as int, changed));
            }
            i = i + 1;
        }
        self.inner = inner;
    }

    /// The row that bounds the growth of `var` most tightly, where `var`
    /// enters the basis: of the rows whose right side holds `var` with a
    /// coefficient below zero, the first with the greatest ratio of
    /// constant to coefficient. None where no row bounds `var`, which then
    /// can grow without limit.
    pub fn most_restrictive(&self, var: &Variable) -> (r: Option<usize>)
        ensures
            match r {
                Some(i) => is_most_restrictive(self@, var@, i as int),
                None => forall|j: int| !eligible(self@, var@, j),
            },
    {
        let mut best: Option<usize> = None;
        let mut best_ratio = Scalar::undefined();
        let mut i: usize = 0;
        while i < self.inner.len()
            invariant
                i <= self.inner@.len(),
                best_ratio@.wf(),
                match best {
                    Some(b) => {
                        &&& b < i
                        &&& eligible(self@, var@, b as int)
                        &&& best_ratio@ == ratio(self@, var@, b as int)
                        &&& forall|j: int| #[trigger]
                            eligible(self@, var@, j) && j < i ==> !best_ratio@.ranks_below(
                                ratio(self@, var@, j),
                            )
                        &&& forall|j: int| #[trigger]
                            eligible(self@, var@, j) && j < b ==> ratio(self@, var@, j).ranks_below(
                                best_ratio@,
                            )
                    },
                    None => forall|j: int| j < i ==> !eligible(self@, var@, j),
                },
            decreases self.inner@.len() - i,
        {
            let c = self.inner[i].right.coefficient(var.as_str());
            if c.is_negative() {
                let r = self.inner[i].right.constant().div(&c);
                proof {
                    use_type_invariant(&r);
                    assert(eligible(self@, var@, i as int));
                    assert(r@ == ratio(self@, var@, i as int));
                }
                match best {
                    None => {
                        best = Some(i);
                        best_ratio = r;
                        proof {
                            lemma_ranking(r@, r@, r@);
                        }
                    },
                    Some(b) => {
                        if best_ratio.ranks_below(&r) {
                            proof {
                                let old_best = best_ratio@;
                                assert forall|j: int| #[trigger]
                                    eligible(self@, var@, j) && j < i + 1 implies !r@.ranks_below(
                                    ratio(self@, var@, j),
                                ) by {
                                    lemma_ratio_wf(self@, var@, j);
                                    lemma_ranking(old_best, r@, ratio(self@, var@, j));
                                    lemma_ranking(r@, r@, r@);
                                }
                                assert forall|j: int| #[trigger]
                                    eligible(self@, var@, j) && j < i implies ratio(
                                    self@,
                                    var@,
                                    j,
                                ).ranks_below(r@) by {
                                    lemma_ratio_wf(self@, var@, j);
                                    lemma_ranks_through(ratio(self@, var@, j), old_best, r@);
                                }
                            }
                            best = Some(i);
                            best_ratio = r;
                        }
                    },
                }
            }
            i = i + 1;
        }
        best
    }

    /// Puts `value` in the place of `var` in the right side of every row.
    fn replace_variable_with(&mut self, var: &Variable, value: &LinearFunction)
        ensures
            final(self)@.len() == old(self)@.len(),
            forall|i: int|
                0 <= i < old(self)@.len() ==> #[trigger] final(self)@[i] == (ConstraintModel {
                    left: old(self)@[i].left,
                    operator: old(self)@[i].operator,
                    right: old(self)@[i].right.substitute(var@, value@),
                }),
    {
        let ghost before = self@;
        proof {
            use_type_invariant(&*self);
        }
        let mut inner: Vec<Constraint> = Vec::new();
        proof {
            assert(views(inner@) =~= Seq::<ConstraintModel>::empty());
        }
        core::mem::swap(&mut inner, &mut self.inner);
        let mut i: usize = 0;
        while i < inner.len()
            invariant
                i <= inner@.len(),
                views(inner@).len() == before.len(),
                all_wf(views(inner@)),
                forall|j: int|
                    0 <= j < i ==> #[trigger] views(inner@)[j] == (ConstraintModel {
                        left: before[j].left,
                        operator: before[j].operator,
                        right: before[j].right.substitute(var@, value@),
                    }),
                forall|j: int| i <= j < before.len() ==> #[trigger] views(inner@)[j] == before[j],
            decreases inner@.len() - i,
        {
            let ghost previous = views(inner@);
            let mut row = inner[i].clone();
            proof {
                assert(row@ == previous[i as int]);
                assert(previous[i as int] == before[i as int]);
            }
            row.right.replace(var.as_str(), value);
            proof {
                use_type_invariant(&row.left);
                use_type_invariant(&row.right);
                row.left.lemma_view_wf();
                row.right.lemma_view_wf();
                lemma_update_wf(previous, i as int, row@);
            }
            let ghost changed = row@;
            inner[i] = row;
            proof {
                assert(views(inner@) =~= previous.update(i as int, changed));
            }
            i = i + 1;
        }
        self.inner = inner;
    }

    /// One step of elimination: solves the row at `constraint_index` for
    /// `var`, then puts the solution in the place of `var` in every row.
    pub fn pivot(&mut self, constraint_index: usize, var: &Variable)
        requires
            constraint_index < old(self)@.len(),
        ensures
            final(self)@ == pivoted(old(self)@, constraint_index as int, var@),
            all_valid(old(self)@) && old(self)@[constraint_index as int].right.coefficient(
                var@,
            ).is_negative() ==> all_valid(final(self)@),
    {
        let ghost before = self@;
        let mut row = self.inner[constraint_index].clone();
        proof {
            use_type_invariant(&row.left);
            use_type_invariant(&row.right);
            row.left.lemma_view_wf();
            row.right.lemma_view_wf();
            assert(row@ == before[constraint_index as int]);
            if all_valid(before) && before[constraint_index as int].right.coefficient(
                var@,
            ).is_negative() {
                lemma_pivoted_valid(before, constraint_index as int, var@);
            }
        }
        row.normalize(var);
        let left = row.left.clone();
        row.sub_in_place(&left);
        row.sub_in_place(&LinearFunction::single_variable(var.clone()));
        let solved = row.negated();
        let func = solved.right.clone();
        proof {
            use_type_invariant(&*self);
            use_type_invariant(&solved.left);
            use_type_invariant(&solved.right);
            solved.left.lemma_view_wf();
            solved.right.lemma_view_wf();
            lemma_update_wf(before, constraint_index as int, solved@);
        }
        let ghost solved_view = solved@;
        let mut inner: Vec<Constraint> = Vec::new();
        proof {
            assert(views(inner@) =~= Seq::<ConstraintModel>::empty());
        }
        core::mem::swap(&mut inner, &mut self.inner);
        inner[constraint_index] = solved;
        proof {
            assert(views(inner@) =~= before.update(constraint_index as int, solved_view));
        }
        self.inner = inner;
        self.replace_variable_with(var, &func);
        proof {
            assert(self@ =~= pivoted(before, constraint_index as int, var@));
        }
    }

    /// The variables of the rows that are not slack variables, in
    /// lexicographic order.
    pub fn non_gap_variables(&self) -> (r: Vec<Variable>)
        ensures
            r.deep_view() == sorted_names(rows_structural_variables(self@)),
            rows_structural_variables(self@).finite(),
    {
        let mut r: Vec<Variable> = Vec::new();
        let mut i: usize = 0;
        proof {
            assert(r.deep_view().to_set() =~= rows_structural_variables(self@.take(0)));
        }
        while i < self.inner.len()
            invariant
                i <= self.inner@.len(),
                strictly_sorted(r.deep_view()),
                r.deep_view().to_set() == rows_structural_variables(self@.take(i as int)),
            decreases self.inner@.len() - i,
        {
            let row = self.inner[i].non_gap_variables();
            proof {
                let c = self.inner@[i as int];
                assert(c@ == self@[i as int]);
                lemma_sorted_names_of(c@.structural_variables());
            }
            let ghost before = r.deep_view().to_set();
            r = merge_names(r, &row);
            proof {
                let shorter = self@.take(i as int);
                let longer = self@.take(i + 1);
                assert(r.deep_view().to_set() =~= rows_structural_variables(longer)) by {
                    assert forall|n: Seq<char>|
                        before.union(self@[i as int].structural_variables()).contains(n)
                            <==> rows_structural_variables(longer).contains(n) by {
                        if before.contains(n) {
                            let k = choose|k: int|
                                0 <= k < shorter.len() && (
                                #[trigger] shorter[k]).structural_variables().contains(n);
                            assert(longer[k] == shorter[k]);
                        }
                        if self@[i as int].structural_variables().contains(n) {
                            assert(longer[i as int] == self@[i as int]);
                        }
                        if rows_structural_variables(longer).contains(n) {
                            let k = choose|k: int|
                                0 <= k < longer.len() && (#[trigger] longer[k]).structural_variables().contains(
                                    n,
                                );
                            if k < i {
                                assert(shorter[k] == longer[k]);
                            }
                        }
                    }
                }
            }
            i = i + 1;
        }
        proof {
            assert(self@.take(i as int) =~= self@);
            lemma_sorted_names(r.deep_view());
            vstd::seq_lib::seq_to_set_is_finite(r.deep_view());
        }
        r
    }

    /// The value that the rows give to `name`: the constant of the last
    /// row with `name` on its left side, and zero where there is none.
    pub fn basic_value_of(&self, name: &str) -> (r: Scalar)
        ensures
            r@ == basic_value(self@, name@),
    {
        let mut i: usize = self.inner.len();
        proof {
            assert(self@.take(i as int) =~= self@);
        }
        while i > 0
            invariant
                i <= self.inner@.len(),
                basic_value(self@, name@) == basic_value(self@.take(i as int), name@),
            decreases i,
        {
            i = i - 1;
            proof {
                assert(self@.take(i + 1).drop_last() =~= self@.take(i as int));
                assert(self@.take(i + 1).last() == self@[i as int]);
            }
            if self.inner[i].left.contains(name) {
                return self.inner[i].right.constant();
            }
        }
        Scalar::zero()
    }

    /// Whether every row has the form `variable = linear function`.
    pub fn is_valid(&self) -> (b: bool)
        ensures
            b == all_valid(self@),
    {
        let mut i: usize = 0;
        while i < self.inner.len()
            invariant
                i <= self.inner@.len(),
                forall|j: int| 0 <= j < i ==> (#[trigger] self@[j]).is_valid(),
            decreases self.inner@.len() - i,
        {
            if !self.inner[i].is_valid_linear_programm() {
                proof {
                    assert(!self@[i as int].is_valid());
                }
                return false;
            }
            i = i + 1;
        }
        true
    }
}

/// A function has finitely many variables that are not slack variables.
pub proof fn lemma_structural_finite(m: LinearModel)
    requires
        m.wf(),
    ensures
        m.structural_variables().finite(),
{
    assert(m.structural_variables().subset_of(m.coefficients.dom()));
    vstd::set_lib::lemma_len_subset(m.structural_variables(), m.coefficients.dom());
}

/// An element of `a` is equal to `x`.
pub open spec fn occurs<T: PartialEq>(a: Seq<T>, x: T) -> bool {
    exists|j: int| 0 <= j < a.len() && (#[trigger] a[j]).eq_spec(&x)
}

/// The elements of `b`, in their order, that are equal to no element of
/// `a`.
pub open spec fn kept<T: PartialEq>(a: Seq<T>, b: Seq<T>) -> Seq<T>
    decreases b.len(),
{
    if b.len() == 0 {
        Seq::empty()
    } else if occurs(a, b.last()) {
        kept(a, b.drop_last())
    } else {
        kept(a, b.drop_last()).push(b.last())
    }
}

/// Whether an element of the first `n` of `list` is equal to `x`.
fn is_among<T: PartialEq>(list: &Vec<T>, n: usize, x: &T) -> (r: bool)
    requires
        n <= list@.len(),
    ensures
        T::obeys_eq_spec() ==> r == occurs(list@.take(n as int), *x),
{
    let mut j: usize = 0;
    while j < n
        invariant
            j <= n <= list@.len(),
            T::obeys_eq_spec() ==> forall|k: int| 0 <= k < j ==> !(#[trigger] list@[k]).eq_spec(x),
        decreases n - j,
    {
        if list[j] == *x {
            proof {
                assert(list@.take(n as int)[j as int] == list@[j as int]);
            }
            return true;
        }
        j = j + 1;
    }
    proof {
        if T::obeys_eq_spec() {
            assert forall|k: int| 0 <= k < list@.take(n as int).len() implies !(
            #[trigger] list@.take(n as int)[k]).eq_spec(x) by {
                assert(list@.take(n as int)[k] == list@[k]);
            }
        }
    }
    false
}

/// The elements of `a`, followed by those elements of `b` that are equal
/// to none of `a`.
pub fn union<T: Clone + PartialEq>(a: Vec<T>, b: Vec<T>) -> (r: Vec<T>)
    ensures
        r@.len() >= a@.len(),
        r@.take(a@.len() as int) == a@,
        T::obeys_eq_spec() ==> r@ == a@ + kept(a@, b@),
{
    let n = a.len();
    let mut r = a;
    proof {
        assert(r@.take(n as int) =~= a@);
        assert(b@.take(0) =~= Seq::<T>::empty());
        assert(a@ + kept(a@, b@.take(0)) =~= a@);
    }
    for x in it: b
        invariant
            it.seq() == b@,
            n == a@.len(),
            r@.len() >= n,
            r@.take(n as int) == a@,
            T::obeys_eq_spec() ==> r@ == a@ + kept(a@, b@.take(it.index() as int)),
    {
        let ghost before = r@;
        let ghost i = it.index() as int;
        proof {
            assert(b@.take(i + 1).drop_last() =~= b@.take(i));
            assert(b@.take(i + 1).last() == x);
        }
        if !is_among(&r, n, &x) {
            r.push(x);
            proof {
                assert(r@.take(n as int) =~= before.take(n as int));
                if T::obeys_eq_spec() {
                    assert(r@ =~= a@ + kept(a@, b@.take(i + 1)));
                }
            }
        }
    }
    proof {
        assert(b@.take(b@.len() as int) =~= b@);
    }
    r
}

/// The distance within which two coordinates count as the same.
pub open spec fn tolerance() -> Rational {
    Rational { num: 1, den: 1000 }
}

/// Two coordinates are further apart than the tolerance. They are not
/// where their difference is undefined.
pub open spec fn apart(a: Rational, b: Rational) -> bool {
    tolerance().lt(a.sub(b).magnitude())
}

/// Two points have the same number of coordinates, and no coordinate of
/// one is further than the tolerance from that of the other.
pub open spec fn nearly_equal(a: Seq<Rational>, b: Seq<Rational>) -> bool {
    a.len() == b.len() && forall|i: int| 0 <= i < a.len() ==> !apart(#[trigger] a[i], b[i])
}

/// Whether two points are within a thousandth of each other in every
/// coordinate.
pub fn is_nearly_equal(a: &Vec<Scalar>, b: &Vec<Scalar>) -> (r: bool)
    ensures
        r == nearly_equal(a.deep_view(), b.deep_view()),
{
    if a.len() != b.len() {
        return false;
    }
    let limit = Scalar::new(1, 1000);
    proof {
        lemma_thousandth();
    }
    let mut i: usize = 0;
    while i < a.len()
        invariant
            i <= a@.len(),
            a@.len() == b@.len(),
            limit@ == tolerance(),
            forall|j: int| 0 <= j < i ==> !apart(#[trigger] a.deep_view()[j], b.deep_view()[j]),
        decreases a@.len() - i,
    {
        proof {
            assert(a.deep_view()[i as int] == a@[i as int]@);
            assert(b.deep_view()[i as int] == b@[i as int]@);
        }
        if limit.lt(&a[i].sub(&b[i]).magnitude()) {
            return false;
        }
        i = i + 1;
    }
    true
}

/// The greater of `start` and the greatest magnitude of a coordinate of
/// `point`. A coordinate that is undefined does not count.
pub open spec fn greatest_in(point: Seq<Rational>, start: Rational) -> Rational
    decreases point.len(),
{
    if point.len() == 0 {
        start
    } else {
        let before = greatest_in(point.drop_last(), start);
        if before.lt(point.last().magnitude()) {
            point.last().magnitude()
        } else {
            before
        }
    }
}

/// The greatest magnitude of a coordinate of `points`; zero where there
/// is no coordinate.
pub open spec fn greatest_magnitude(points: Seq<Seq<Rational>>) -> Rational
    decreases points.len(),
{
    if points.len() == 0 {
        Rational::zero()
    } else {
        greatest_in(points.last(), greatest_magnitude(points.drop_last()))
    }
}

/// The points with every coordinate divided by the greatest magnitude of
/// a coordinate.
pub open spec fn normalized(points: Seq<Seq<Rational>>) -> Seq<Seq<Rational>> {
    let greatest = greatest_magnitude(points);
    Seq::new(
        points.len(),
        |i: int| Seq::new(points[i].len(), |j: int| points[i][j].div(greatest)),
    )
}

/// Scales points to the unit cube: divides every coordinate by the
/// greatest magnitude of a coordinate. Where all coordinates are zero the
/// result holds undefined values only.
pub fn normalized_vec(a: Vec<Vec<Scalar>>) -> (r: Vec<Vec<Scalar>>)
    ensures
        r.deep_view() == normalized(a.deep_view()),
{
    let ghost points = a.deep_view();
    let mut max = Scalar::zero();
    let mut i: usize = 0;
    proof {
        assert(points.take(0) =~= Seq::<Seq<Rational>>::empty());
    }
    while i < a.len()
        invariant
            i <= a@.len(),
            points == a.deep_view(),
            max@ == greatest_magnitude(points.take(i as int)),
        decreases a@.len() - i,
    {
        let ghost row = points[i as int];
        proof {
            assert(row == a@[i as int].deep_view());
            assert(points.take(i + 1).drop_last() =~= points.take(i as int));
            assert(points.take(i + 1).last() == row);
            assert(row.take(0) =~= Seq::<Rational>::empty());
        }
        let ghost start = max@;
        let mut j: usize = 0;
        while j < a[i].len()
            invariant
                i < a@.len(),
                j <= a@[i as int]@.len(),
                row == a@[i as int].deep_view(),
                max@ == greatest_in(row.take(j as int), start),
            decreases a@[i as int]@.len() - j,
        {
            proof {
                assert(row.take(j + 1).drop_last() =~= row.take(j as int));
                assert(row.take(j + 1).last() == row[j as int]);
                assert(row[j as int] == a@[i as int]@[j as int]@);
            }
            let size = a[i][j].magnitude();
            if max.lt(&size) {
                max = size;
            }
            j = j + 1;
        }
        proof {
            assert(row.take(j as int) =~= row);
        }
        i = i + 1;
    }
    proof {
        assert(points.take(i as int) =~= points);
    }
    let mut r: Vec<Vec<Scalar>> = Vec::new();
    let mut i: usize = 0;
    while i < a.len()
        invariant
            i <= a@.len(),
            points == a.deep_view(),
            max@ == greatest_magnitude(points),
            r@.len() == i,
            forall|k: int| 0 <= k < i ==> (#[trigger] r@[k]).deep_view() == normalized(points)[k],
        decreases a@.len() - i,
    {
        let mut scaled: Vec<Scalar> = Vec::new();
        let mut j: usize = 0;
        while j < a[i].len()
            invariant
                i < a@.len(),
                j <= a@[i as int]@.len(),
                scaled@.len() == j,
                forall|k: int|
                    0 <= k < j ==> (#[trigger] scaled@[k])@ == a@[i as int]@[k]@.div(max@),
            decreases a@[i as int]@.len() - j,
        {
            scaled.push(a[i][j].div(&max));
            j = j + 1;
        }
        proof {
            assert(points[i as int] == a@[i as int].deep_view());
            assert forall|k: int| 0 <= k < scaled@.len() implies scaled.deep_view()[k] == normalized(
                points,
            )[i as int][k] by {
                assert(points[i as int][k] == a@[i as int]@[k]@);
            }
            assert(scaled.deep_view() =~= normalized(points)[i as int]);
        }
        r.push(scaled);
        i = i + 1;
    }
    proof {
        assert(r.deep_view() =~= normalized(points));
    }
    r
}

/// One thousandth is a fraction in lowest terms.
proof fn lemma_thousandth()
    ensures
        Rational::ratio(1, 1000) == tolerance(),
{
    assert(crate::gcd::gcd(1, 1000) == 1) by {
        reveal_with_fuel(crate::gcd::gcd, 3);
    }
    assert(1int / 1 == 1 && 1000int / 1 == 1000);
}

/// A row that is solved for a variable has that variable alone on its
/// left side, where the row had the form `variable = linear function` and
/// held the variable on the right with a defined coefficient.
pub proof fn lemma_pivot_row_valid(row: ConstraintModel, var: Seq<char>)
    requires
        row.wf(),
        row.is_valid(),
        row.right.coefficients.dom().contains(var),
        row.right.coefficients[var].defined(),
    ensures
        row.pivot_row(var).left == LinearModel::single(var, Rational::one()),
        row.pivot_row(var).is_valid(),
{
    let c = row.right.coefficients[var];
    let one = Rational::one();
    let zero = Rational::zero();
    lemma_integer(0);
    lemma_integer(1);
    lemma_integer(-1);
    lemma_reciprocal(c);
    let s = choose|n: Seq<char>| #[trigger]
        row.left.coefficients.dom().contains(n) && row.left.coefficients =~= Map::empty().insert(
            n,
            one,
        );
    let scaled = row.left.divided_by(c);
    lemma_divided_by(row.left, c);
    let cleared = scaled.minus(scaled);
    lemma_minus(scaled, scaled);
    assert forall|n: Seq<char>| cleared.coefficient(n) == LinearModel::zero().coefficient(n) by {
        if n == s {
            assert(scaled.coefficient(n) == one.div(c));
            lemma_sub_self(one.div(c));
        } else {
            lemma_add_zero(zero);
        }
    }
    lemma_sub_self(zero);
    assert(LinearModel::zero().wf());
    lemma_extensional(cleared, LinearModel::zero());
    let unit = LinearModel::single(var, one);
    lemma_single_is_unit(var);
    let shifted = cleared.minus(unit);
    lemma_minus(cleared, unit);
    let solved = shifted.negated();
    lemma_negated(shifted);
    assert forall|n: Seq<char>| solved.coefficient(n) == unit.coefficient(n) by {
        if n == var {
            assert(unit.coefficient(n) == one);
            assert(zero.sub(one) == one.neg()) by {
                lemma_add_zero(one.neg());
            }
        } else {
            lemma_add_zero(zero);
        }
    }
    lemma_extensional(solved, unit);
    assert(row.normalize(var).left == scaled);
    assert(row.pivot_row(var).left == solved);
}

/// Every row is made of well-formed functions.
pub open spec fn all_wf(rows: Seq<ConstraintModel>) -> bool {
    forall|i: int| 0 <= i < rows.len() ==> (#[trigger] rows[i]).wf()
}

/// A row that is solved for a variable is made of well-formed functions.
pub proof fn lemma_pivot_row_wf(row: ConstraintModel, var: Seq<char>)
    requires
        row.wf(),
    ensures
        row.pivot_row(var).wf(),
{
    let normal = row.normalize(var);
    if row.right.coefficients.dom().contains(var) {
        lemma_divided_by(row.left, row.right.coefficients[var]);
        lemma_divided_by(row.right, row.right.coefficients[var]);
    }
    lemma_minus(normal.left, normal.left);
    lemma_minus(normal.right, normal.left);
    let cleared = normal.minus(normal.left);
    lemma_single_is_unit(var);
    let unit = LinearModel::single(var, Rational::one());
    lemma_minus(cleared.left, unit);
    lemma_minus(cleared.right, unit);
    let shifted = cleared.minus(unit);
    lemma_negated(shifted.left);
    lemma_negated(shifted.right);
}

/// A pivot leaves rows of well-formed functions.
pub proof fn lemma_pivoted_wf(rows: Seq<ConstraintModel>, index: int, var: Seq<char>)
    requires
        0 <= index < rows.len(),
        all_wf(rows),
    ensures
        all_wf(pivoted(rows, index, var)),
{
    lemma_pivot_row_wf(rows[index], var);
    let solved = rows[index].pivot_row(var);
    assert forall|i: int| 0 <= i < rows.len() implies (#[trigger] pivoted(rows, index, var)[i]).wf() by {
        assert(rows[i].wf());
        if i == index {
            crate::linear_model::lemma_substitute_wf(solved.right, var, solved.right);
        } else {
            crate::linear_model::lemma_substitute_wf(rows[i].right, var, solved.right);
        }
    }
}

/// The rows of a constraint are made of well-formed functions.
pub proof fn lemma_standardized_wf(c: ConstraintModel, count: nat)
    requires
        c.wf(),
    ensures
        all_wf(c.standardized(count)),
{
    lemma_single_is_unit(gap_name(count));
    lemma_single_is_unit(gap_name(count + 1));
    lemma_minus(c.right, c.left);
    lemma_minus(c.left, c.right);
}

/// The right side of a row that is solved for a variable: its constant is
/// minus the constant of the row over the coefficient of the variable, and
/// it does not hold the variable. This is so where the row has the form
/// `variable = linear function` with another variable on the left, and
/// holds the variable on the right with a defined coefficient.
pub proof fn lemma_pivot_row_right(row: ConstraintModel, var: Seq<char>)
    requires
        row.wf(),
        row.is_valid(),
        row.right.coefficients.dom().contains(var),
        row.right.coefficients[var].defined(),
        !row.left.coefficients.dom().contains(var),
    ensures
        row.pivot_row(var).right.constant == row.right.constant.div(
            row.right.coefficients[var],
        ).neg(),
        !row.pivot_row(var).right.coefficients.dom().contains(var),
        row.pivot_row(var).right.wf(),
{
    let a = row.right.coefficients[var];
    let b = row.right.constant;
    let one = Rational::one();
    let zero = Rational::zero();
    lemma_integer(0);
    lemma_integer(1);
    lemma_reciprocal(a);
    lemma_div_self(a);
    crate::linear_model::lemma_div_wf(b, a);
    let left = row.left.divided_by(a);
    let right = row.right.divided_by(a);
    lemma_divided_by(row.left, a);
    lemma_divided_by(row.right, a);
    assert(left.constant == zero);
    assert(left.coefficient(var) == zero);
    assert(right.constant == b.div(a));
    assert(right.coefficient(var) == one);
    let cleared = right.minus(left);
    lemma_minus(right, left);
    assert(zero.neg() == zero);
    lemma_add_zero(b.div(a));
    lemma_add_zero(one);
    assert(cleared.constant == b.div(a));
    assert(cleared.coefficient(var) == one);
    let unit = LinearModel::single(var, one);
    lemma_single_is_unit(var);
    assert(unit.coefficient(var) == one);
    assert(unit.constant == zero);
    let shifted = cleared.minus(unit);
    lemma_minus(cleared, unit);
    lemma_sub_self(one);
    assert(shifted.constant == b.div(a));
    assert(shifted.coefficient(var) == zero);
    let solved = shifted.negated();
    lemma_negated(shifted);
    assert(solved.coefficient(var) == zero);
    crate::linear_model::lemma_coefficient_wf(solved, var);
    assert(row.normalize(var).right == right);
    assert(row.normalize(var).left == left);
    assert(row.pivot_row(var).right == solved);
}

/// A pivot keeps rows in the form `variable = linear function`, where the
/// pivot row holds the variable on the right with a defined coefficient.
pub proof fn lemma_pivoted_valid(rows: Seq<ConstraintModel>, index: int, var: Seq<char>)
    requires
        0 <= index < rows.len(),
        all_valid(rows),
        rows[index].wf(),
        rows[index].right.coefficients.dom().contains(var),
        rows[index].right.coefficients[var].defined(),
    ensures
        all_valid(pivoted(rows, index, var)),
{
    lemma_pivot_row_valid(rows[index], var);
    assert forall|i: int| 0 <= i < rows.len() implies (#[trigger] pivoted(rows, index, var)[i]).is_valid() by {
        assert(rows[i].is_valid());
    }
}

/// Rows stay well formed when one of them is replaced by a well-formed
/// row.
proof fn lemma_update_wf(rows: Seq<ConstraintModel>, i: int, row: ConstraintModel)
    requires
        all_wf(rows),
        0 <= i < rows.len(),
        row.wf(),
    ensures
        all_wf(rows.update(i, row)),
{
    assert forall|k: int| 0 <= k < rows.len() implies (#[trigger] rows.update(i, row)[k]).wf() by {
        if k != i {
            assert(rows[k].wf());
        }
    }
}

/// The function that is one variable is a unit variable.
pub proof fn lemma_single_is_unit(name: Seq<char>)
    ensures
        LinearModel::single(name, Rational::one()).is_unit_variable(),
        LinearModel::single(name, Rational::one()).wf(),
{
    lemma_integer(1);
    lemma_integer(0);
    let m = LinearModel::single(name, Rational::one());
    assert(LinearModel::zero().wf());
    lemma_with_coefficient(LinearModel::zero(), name, Rational::one());
    assert(m.coefficients.dom().contains(name));
    assert(m.coefficients =~= Map::empty().insert(name, Rational::one()));
}

/// The ratio of a row is well formed.
proof fn lemma_ratio_wf(rows: Seq<ConstraintModel>, var: Seq<char>, i: int)
    ensures
        ratio(rows, var, i).wf(),
{
    crate::linear_model::lemma_div_wf(rows[i].right.constant, rows[i].right.coefficient(var));
}

} // verus!
