//! Laws of the arithmetic of linear functions, of the rows of a linear
//! program and of the walk through the steps of the simplex method.

use crate::constraint::{
    all_valid, eligible, feasible, is_most_restrictive, lemma_pivot_row_right,
    lemma_single_is_unit, pivoted, ratio, ConstraintModel, Operator,
};
use crate::grammar::{compile_from, compile_text, is_blank, line_end, parse_constraint};
use crate::linear_function::LinearFunction;
use crate::linear_model::{
    lemma_coefficient_wf, lemma_divided_by, lemma_extensional, lemma_minus, lemma_negated,
    lemma_plus, lemma_scaled_by, lemma_with_coefficient, LinearModel,
};
use crate::name::gap_name;
use crate::rational::{
    lemma_add_not_less, lemma_add_sign, lemma_add_then_sub, lemma_div_sign, lemma_integer,
    lemma_mul_sign, lemma_mul_then_div, lemma_neg, lemma_ratio_bound, lemma_reciprocal, Rational,
};
use crate::scalar::Scalar;
use crate::{leaving_row, lemma_entering_none_moves, LinearProgramModel, SimplexModel};
use vstd::prelude::*;

verus! {

/// Subtracting a function that was added gives the first function back,
/// where no part of the sum is undefined.
pub proof fn law_add_then_subtract(a: LinearFunction, b: LinearFunction)
    requires
        a.wf(),
        b.wf(),
        a@.plus(b@).defined(),
    ensures
        a@.plus(b@).minus(b@) == a@,
{
    a.lemma_view_wf();
    b.lemma_view_wf();
    let sum = a@.plus(b@);
    lemma_plus(a@, b@);
    lemma_minus(sum, b@);
    lemma_integer(0);
    lemma_add_then_sub(a@.constant, b@.constant);
    assert forall|n: Seq<char>| sum.minus(b@).coefficient(n) == a@.coefficient(n) by {
        lemma_coefficient_wf(a@, n);
        lemma_coefficient_wf(b@, n);
        assert(sum.coefficient(n) == a@.coefficient(n).add(b@.coefficient(n)));
        assert(sum.coefficient(n).defined());
        lemma_add_then_sub(a@.coefficient(n), b@.coefficient(n));
    }
    lemma_extensional(sum.minus(b@), a@);
}

/// Dividing by a factor that a function was multiplied by gives the
/// function back, where the factor is defined and not zero and no part of
/// the product is undefined.
pub proof fn law_scale_then_divide(a: LinearFunction, factor: Scalar)
    requires
        a.wf(),
        factor.wf(),
        factor@.defined(),
        !factor@.is_zero(),
        a@.scaled_by(factor@).defined(),
    ensures
        a@.scaled_by(factor@).divided_by(factor@) == a@,
{
    a.lemma_view_wf();
    let k = factor@;
    let product = a@.scaled_by(k);
    lemma_scaled_by(a@, k);
    lemma_divided_by(product, k);
    lemma_integer(0);
    lemma_mul_then_div(a@.constant, k);
    lemma_reciprocal(k);
    assert forall|n: Seq<char>| product.divided_by(k).coefficient(n) == a@.coefficient(n) by {
        lemma_coefficient_wf(a@, n);
        if a@.coefficients.dom().contains(n) {
            assert(product.coefficient(n) == a@.coefficient(n).mul(k));
            assert(product.coefficient(n).defined());
            lemma_mul_then_div(a@.coefficient(n), k);
            if !product.coefficients.dom().contains(n) {
                assert(product.coefficient(n) == Rational::zero());
            }
        }
    }
    lemma_extensional(product.divided_by(k), a@);
}

/// Twice a function, halved, is the function, where no part of the double
/// is undefined.
pub proof fn law_double_then_halve(a: LinearFunction)
    requires
        a.wf(),
        a@.scaled_by(Rational::integer(2)).defined(),
    ensures
        a@.scaled_by(Rational::integer(2)).divided_by(Rational::integer(2)) == a@,
{
    a.lemma_view_wf();
    let k = Rational::integer(2);
    lemma_integer(2);
    crate::rational::lemma_fraction_wf(2, 1);
    let product = a@.scaled_by(k);
    lemma_scaled_by(a@, k);
    lemma_divided_by(product, k);
    lemma_integer(0);
    lemma_mul_then_div(a@.constant, k);
    lemma_reciprocal(k);
    assert forall|n: Seq<char>| product.divided_by(k).coefficient(n) == a@.coefficient(n) by {
        lemma_coefficient_wf(a@, n);
        if a@.coefficients.dom().contains(n) {
            assert(product.coefficient(n) == a@.coefficient(n).mul(k));
            assert(product.coefficient(n).defined());
            lemma_mul_then_div(a@.coefficient(n), k);
            if !product.coefficients.dom().contains(n) {
                assert(product.coefficient(n) == Rational::zero());
            }
        }
    }
    lemma_extensional(product.divided_by(k), a@);
}

/// A function negated twice is the function.
pub proof fn law_negate_twice(a: LinearFunction)
    requires
        a.wf(),
    ensures
        a@.negated().negated() == a@,
{
    a.lemma_view_wf();
    lemma_negated(a@);
    lemma_negated(a@.negated());
    lemma_neg(a@.constant);
    assert forall|n: Seq<char>| a@.negated().negated().coefficient(n) == a@.coefficient(n) by {
        lemma_coefficient_wf(a@, n);
        lemma_neg(a@.coefficient(n));
    }
    lemma_extensional(a@.negated().negated(), a@);
}

/// The rows that stand for a constraint have the form
/// `variable = linear function`, whatever the constraint; an equation
/// gives two rows, an inequality one.
pub proof fn law_standardized_rows(c: ConstraintModel, count: nat)
    ensures
        all_valid(c.standardized(count)),
        c.standardized(count).len() == (if c.operator == Operator::Equal {
            2int
        } else {
            1int
        }),
{
    lemma_single_is_unit(gap_name(count));
    lemma_single_is_unit(gap_name(count + 1));
}

/// Rows that were valid stay valid when the rows of a constraint are
/// added to them.
pub proof fn law_add_constraint_keeps_rows_valid(
    rows: Seq<ConstraintModel>,
    c: ConstraintModel,
)
    requires
        all_valid(rows),
    ensures
        all_valid(rows + c.standardized(rows.len())),
{
    law_standardized_rows(c, rows.len());
    let added = c.standardized(rows.len());
    assert forall|i: int| 0 <= i < (rows + added).len() implies (#[trigger] (rows + added)[i]).is_valid() by {
        if i < rows.len() {
            assert(rows[i].is_valid());
        } else {
            assert(added[i - rows.len()].is_valid());
        }
    }
}

/// The rows that the lines from `i` on add to valid rows are valid.
proof fn lemma_compile_from_valid(s: Seq<char>, i: int, rows: Seq<ConstraintModel>)
    requires
        all_valid(rows),
    ensures
        compile_from(s, i, rows) matches Ok(all) ==> all_valid(all),
    decreases s.len() - i,
{
    if i < s.len() {
        let e = line_end(s, i);
        let line = s.subrange(i, e);
        if is_blank(line) {
            if i <= e < s.len() {
                lemma_compile_from_valid(s, e + 1, rows);
            }
        } else {
            match parse_constraint(line) {
                Ok(c) => {
                    law_add_constraint_keeps_rows_valid(rows, c);
                    if i <= e < s.len() {
                        lemma_compile_from_valid(s, e + 1, rows + c.standardized(rows.len()));
                    }
                },
                Err(_) => {},
            }
        }
    }
}

/// Every row that is read from a text has the form
/// `variable = linear function`.
pub proof fn law_compiled_rows_are_valid(s: Seq<char>)
    ensures
        compile_text(s) matches Ok(rows) ==> all_valid(rows),
{
    lemma_compile_from_valid(s, 0, Seq::empty());
}

/// A pivot does not lower the constant of the objective, which is the
/// value of the objective at the point of the program. This is so where
/// the variable that enters has a coefficient above zero in the objective,
/// the row that leaves has a constant that is not below zero and another
/// variable on its left side, and the new constant is not undefined.
pub proof fn law_pivot_does_not_lower_the_objective(p: LinearProgramModel, var: Seq<char>)
    requires
        p.wf(),
        p.is_valid(),
        p.objective.coefficient(var).is_positive(),
        leaving_row(p.rows, var) matches Some(row) && p.rows[row].right.constant.defined()
            && p.rows[row].right.constant.num >= 0 && !p.rows[row].left.coefficients.dom().contains(
            var,
        ),
        p.pivot(var) matches Some(next) && next.objective.constant.defined(),
    ensures
        p.pivot(var) matches Some(next) && !next.objective.constant.lt(p.objective.constant),
{
    let row = leaving_row(p.rows, var)->0;
    assert(is_most_restrictive(p.rows, var, row));
    let a = p.rows[row].right.coefficient(var);
    let b = p.rows[row].right.constant;
    let c = p.objective.coefficient(var);
    let z = p.objective.constant;
    assert(p.rows[row].wf());
    assert(p.rows[row].is_valid());
    lemma_pivot_row_right(p.rows[row], var);
    let solved = p.rows[row].pivot_row(var);
    let rows = pivoted(p.rows, row, var);
    assert(rows[row].right == solved.right);
    let e = solved.right.constant;
    assert(e == b.div(a).neg());
    // the objective with the solution in the place of the variable
    lemma_integer(0);
    lemma_with_coefficient(p.objective, var, Rational::zero());
    let cleared = p.objective.with_coefficient(var, Rational::zero());
    let added = solved.right.scaled_by(c);
    lemma_scaled_by(solved.right, c);
    lemma_plus(cleared, added);
    let next = p.pivot(var)->0;
    assert(next.objective == cleared.plus(added));
    assert(next.objective.constant == z.add(e.mul(c)));
    // the signs
    let t = e.mul(c);
    assert(t.defined());
    assert(e.defined());
    assert(b.div(a).defined());
    crate::linear_model::lemma_div_wf(b, a);
    lemma_div_sign(b, a);
    lemma_neg(b.div(a));
    lemma_mul_sign(e, c);
    crate::rational::lemma_fraction_wf(e.num * c.num, e.den * c.den);
    lemma_add_not_less(z, t);
}

/// The constant of a function after a substitution: where the function
/// holds the variable, its constant plus the constant of what is put in
/// times the coefficient of the variable.
proof fn lemma_substituted_constant(f: LinearModel, var: Seq<char>, replacement: LinearModel)
    requires
        f.wf(),
        replacement.wf(),
    ensures
        f.substitute(var, replacement).constant == (if f.coefficients.dom().contains(var) {
            f.constant.add(replacement.constant.mul(f.coefficients[var]))
        } else {
            f.constant
        }),
{
    if f.coefficients.dom().contains(var) {
        lemma_integer(0);
        lemma_with_coefficient(f, var, Rational::zero());
        lemma_scaled_by(replacement, f.coefficients[var]);
        lemma_plus(
            f.with_coefficient(var, Rational::zero()),
            replacement.scaled_by(f.coefficients[var]),
        );
    }
}

/// A pivot on the row that bounds the entering variable most tightly
/// leaves no row with a constant below zero, where no row had one. This is
/// so where the row that leaves has another variable on its left side, and
/// no ratio of a row that bounds the variable is undefined.
pub proof fn law_pivot_keeps_rows_feasible(p: LinearProgramModel, var: Seq<char>)
    requires
        p.wf(),
        p.is_valid(),
        feasible(p.rows),
        leaving_row(p.rows, var) matches Some(row) && !p.rows[row].left.coefficients.dom().contains(
            var,
        ),
        forall|i: int| #[trigger] eligible(p.rows, var, i) ==> ratio(p.rows, var, i).defined(),
    ensures
        p.pivot(var) matches Some(next) && feasible(next.rows),
{
    let row = leaving_row(p.rows, var)->0;
    assert(is_most_restrictive(p.rows, var, row));
    assert(eligible(p.rows, var, row));
    let a = p.rows[row].right.coefficient(var);
    let b = p.rows[row].right.constant;
    let q = ratio(p.rows, var, row);
    assert(q == b.div(a));
    assert(p.rows[row].wf() && p.rows[row].is_valid());
    lemma_pivot_row_right(p.rows[row], var);
    let solved = p.rows[row].pivot_row(var);
    let e = solved.right.constant;
    assert(e == q.neg());
    crate::linear_model::lemma_div_wf(b, a);
    lemma_neg(q);
    assert(!b.is_negative());
    // the constant of the row that leaves
    assert(!e.is_negative()) by {
        if q.defined() {
            lemma_div_sign(b, a);
        }
    }
    let rows = pivoted(p.rows, row, var);
    assert forall|i: int| 0 <= i < rows.len() implies !(#[trigger] rows[i]).right.constant.is_negative() by {
        if i == row {
            assert(rows[i].right == solved.right);
        } else {
            let old_row = p.rows[i];
            assert(old_row.wf());
            assert(!old_row.right.constant.is_negative());
            let bi = old_row.right.constant;
            lemma_substituted_constant(old_row.right, var, solved.right);
            if old_row.right.coefficients.dom().contains(var) {
                let ai = old_row.right.coefficients[var];
                let t = e.mul(ai);
                let sum = bi.add(t);
                assert(rows[i].right.constant == sum);
                crate::rational::lemma_fraction_wf(e.num * ai.num, e.den * ai.den);
                if sum.defined() {
                    assert(bi.defined() && t.defined() && e.defined() && ai.defined());
                    assert(q.defined());
                    lemma_div_sign(b, a);
                    if ai.is_positive() {
                        lemma_mul_sign(e, ai);
                        lemma_add_sign(bi, t);
                    } else {
                        assert(ai.is_negative());
                        assert(eligible(p.rows, var, i));
                        assert(ratio(p.rows, var, i).defined());
                        assert(!q.ranks_below(ratio(p.rows, var, i)));
                        lemma_ratio_bound(bi, ai, q);
                    }
                }
            }
        }
    }
}

/// A step forward from an optimal program changes nothing and does not
/// fail.
pub proof fn law_optimal_program_stays(s: SimplexModel, use_bland_rule: bool)
    requires
        s.wf(),
        s.current().is_optimal(),
    ensures
        s.next_step(use_bland_rule) == (s, None::<crate::SimplexError>),
{
    lemma_entering_none_moves(s, use_bland_rule);
}

/// A step backward at the first program changes nothing.
pub proof fn law_first_program_stays(s: SimplexModel)
    requires
        s.wf(),
        s.position == 0,
    ensures
        s.previous_step() == s,
{
}

/// A step forward keeps every program that was reached, and a step
/// backward keeps all of them.
pub proof fn law_history_only_grows(s: SimplexModel, use_bland_rule: bool)
    requires
        s.wf(),
    ensures
        s.next_step(use_bland_rule).0.wf(),
        s.previous_step().wf(),
        s.previous_step().history == s.history,
        s.history.len() <= s.next_step(use_bland_rule).0.history.len() <= s.history.len() + 1,
        forall|i: int|
            0 <= i < s.history.len() ==> #[trigger] s.next_step(use_bland_rule).0.history[i]
                == s.history[i],
{
    crate::lemma_next_step_wf(s, use_bland_rule);
}

/// A step forward, a step backward and a step forward again lead to the
/// program that the first step forward led to, and to the same history:
/// the program is not made a second time.
pub proof fn law_forward_back_forward(s: SimplexModel, use_bland_rule: bool)
    requires
        s.wf(),
    ensures
        s.next_step(use_bland_rule).0.previous_step().next_step(use_bland_rule).0.current()
            == s.next_step(use_bland_rule).0.current(),
        s.next_step(use_bland_rule).0.previous_step().next_step(use_bland_rule).0
            == s.next_step(use_bland_rule).0,
{
    let first = s.next_step(use_bland_rule).0;
    crate::lemma_next_step_wf(s, use_bland_rule);
    let back = first.previous_step();
    let entering = s.current().objective.entering_variable(use_bland_rule);
    if first.position == 0 {
        // the first step did not move: the second does what the first did
        assert(back == first);
        assert(first == s);
    } else if first == s {
        // the first step did not move, at a later program
        assert(back.position == s.position - 1);
        assert(!back.current().is_optimal());
        assert(back.current().wf());
        crate::lemma_not_optimal_enters(back.current().objective, use_bland_rule);
    } else {
        assert(first.position == s.position + 1);
        assert(back.position == s.position);
        assert(back.current() == s.current());
        assert(entering is Some);
    }
}

/// A step forward through programs that were reached before leads to the
/// same program by either rule.
pub proof fn law_replay_ignores_the_rule(s: SimplexModel, rule: bool, other_rule: bool)
    requires
        s.wf(),
        s.position < s.history.len() - 1,
    ensures
        s.next_step(rule) == s.next_step(other_rule),
        s.next_step(rule).0.current() == s.history[s.position + 1],
{
    assert(!s.current().is_optimal());
    assert(s.current().wf());
    crate::lemma_not_optimal_enters(s.current().objective, rule);
    crate::lemma_not_optimal_enters(s.current().objective, other_rule);
}

} // verus!
