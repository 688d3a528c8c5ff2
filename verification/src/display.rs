//! The text that linear functions, constraints and linear programs are
//! shown as.
//!
//! A linear function is shown with its constant first, unless that is
//! zero, and then its terms in the lexicographic order of their variables.
//! A coefficient of one or minus one is not written. A value that is no
//! integer is shown as a fraction in lowest terms.

use crate::constraint::{Constraint, ConstraintModel, Constraints, Operator};
use crate::linear_function::LinearFunction;
use crate::linear_model::{sorted_names, LinearModel};
use crate::name::{decimal, push_decimal};
use crate::rational::Rational;
use crate::scalar::Scalar;
use crate::{LinearProgram, LinearProgramModel};
use vstd::math::abs;
use vstd::prelude::*;
use vstd::string::StringExecFns;

verus! {

/// The text of a value without its sign.
pub open spec fn magnitude_text(r: Rational) -> Seq<char> {
    if r.den == 0 {
        seq!['N', 'a', 'N']
    } else if r.den == 1 {
        decimal(abs(r.num))
    } else {
        decimal(abs(r.num)) + seq!['/'] + decimal(abs(r.den))
    }
}

/// The text of a value.
pub open spec fn scalar_text(r: Rational) -> Seq<char> {
    if r.is_negative() {
        seq!['-'] + magnitude_text(r)
    } else {
        magnitude_text(r)
    }
}

/// The value is one or minus one.
pub open spec fn is_unit(r: Rational) -> bool {
    r.den == 1 && (r.num == 1 || r.num == -1)
}

/// What stands before the magnitude of a term: at the start of the text a
/// minus sign or nothing, elsewhere a sign between blanks.
pub open spec fn sign_text(negative: bool, leading: bool) -> Seq<char> {
    if leading {
        if negative {
            seq!['-']
        } else {
            Seq::empty()
        }
    } else {
        if negative {
            seq![' ', '-', ' ']
        } else {
            seq![' ', '+', ' ']
        }
    }
}

/// The text of the term `value * name`.
pub open spec fn term_text(name: Seq<char>, value: Rational, leading: bool) -> Seq<char> {
    sign_text(value.is_negative(), leading) + (if is_unit(value) {
        Seq::empty()
    } else {
        magnitude_text(value)
    }) + name
}

/// The text of the terms of `names`, in this order. With `leading` the
/// first of them stands at the start of the text.
pub open spec fn terms_text(m: LinearModel, names: Seq<Seq<char>>, leading: bool) -> Seq<char>
    decreases names.len(),
{
    if names.len() == 0 {
        Seq::empty()
    } else {
        terms_text(m, names.drop_last(), leading) + term_text(
            names.last(),
            m.coefficient(names.last()),
            leading && names.len() == 1,
        )
    }
}

/// The text of a linear function.
pub open spec fn function_text(m: LinearModel) -> Seq<char> {
    let names = sorted_names(m.coefficients.dom());
    if !m.constant.is_zero() {
        scalar_text(m.constant) + terms_text(m, names, false)
    } else if names.len() == 0 {
        seq!['0']
    } else {
        terms_text(m, names, true)
    }
}

/// The text of an operator.
pub open spec fn operator_text(operator: Operator) -> Seq<char> {
    match operator {
        Operator::Equal => seq!['='],
        Operator::Less => seq!['<'],
        Operator::Greater => seq!['>'],
        Operator::LessEqual => seq!['<', '='],
        Operator::GreaterEqual => seq!['>', '='],
    }
}

/// The text of a constraint: its sides with the operator between blanks.
pub open spec fn constraint_text(c: ConstraintModel) -> Seq<char> {
    function_text(c.left) + seq![' '] + operator_text(c.operator) + seq![' '] + function_text(
        c.right,
    )
}

/// The text of rows: each row on a line of its own.
pub open spec fn rows_text(rows: Seq<ConstraintModel>) -> Seq<char>
    decreases rows.len(),
{
    if rows.len() == 0 {
        Seq::empty()
    } else {
        rows_text(rows.drop_last()) + constraint_text(rows.last()) + seq!['\n']
    }
}

/// The text of a linear program: the objective after the word `max`, the
/// rows, and an empty line.
pub open spec fn program_text(p: LinearProgramModel) -> Seq<char> {
    seq!['m', 'a', 'x', ' '] + function_text(p.objective) + seq!['\n'] + rows_text(p.rows) + seq![
        '\n',
    ]
}

/// Appends the text of a value without its sign.
fn push_magnitude(text: &mut String, value: &Scalar)
    ensures
        final(text)@ == old(text)@ + magnitude_text(value@),
{
    proof {
        use_type_invariant(value);
        reveal_strlit("NaN");
        reveal_strlit("/");
    }
    if !value.is_defined() {
        text.append("NaN");
        proof {
            assert("NaN"@ =~= seq!['N', 'a', 'N']);
        }
    } else {
        let n = value.numerator();
        let magnitude: u64 = if n < 0 {
            (-n) as u64
        } else {
            n as u64
        };
        push_decimal(text, magnitude);
        if value.denominator() != 1 {
            text.append("/");
            push_decimal(text, value.denominator() as u64);
            proof {
                assert("/"@ =~= seq!['/']);
                assert(final(text)@ =~= old(text)@ + magnitude_text(value@));
            }
        }
    }
}

/// Appends the text of a value.
fn push_scalar(text: &mut String, value: &Scalar)
    ensures
        final(text)@ == old(text)@ + scalar_text(value@),
{
    proof {
        reveal_strlit("-");
    }
    if value.is_negative() {
        text.append("-");
        push_magnitude(text, value);
        proof {
            assert("-"@ =~= seq!['-']);
            assert(final(text)@ =~= old(text)@ + scalar_text(value@));
        }
    } else {
        push_magnitude(text, value);
    }
}

/// Appends the text of a term.
fn push_term(text: &mut String, name: &str, value: &Scalar, leading: bool)
    ensures
        final(text)@ == old(text)@ + term_text(name@, value@, leading),
{
    proof {
        reveal_strlit("-");
        reveal_strlit(" - ");
        reveal_strlit(" + ");
        assert("-"@ =~= seq!['-']);
        assert(" - "@ =~= seq![' ', '-', ' ']);
        assert(" + "@ =~= seq![' ', '+', ' ']);
    }
    if leading {
        if value.is_negative() {
            text.append("-");
        }
    } else {
        if value.is_negative() {
            text.append(" - ");
        } else {
            text.append(" + ");
        }
    }
    let ghost signed = text@;
    proof {
        assert(signed =~= old(text)@ + sign_text(value@.is_negative(), leading));
    }
    let unit = value.denominator() == 1 && (value.numerator() == 1 || value.numerator() == -1);
    if !unit {
        push_magnitude(text, value);
    }
    text.append(name);
    proof {
        assert(final(text)@ =~= old(text)@ + term_text(name@, value@, leading));
    }
}

/// Appends the text of an operator.
fn push_operator(text: &mut String, operator: Operator)
    ensures
        final(text)@ == old(text)@ + operator_text(operator),
{
    proof {
        reveal_strlit("=");
        reveal_strlit("<");
        reveal_strlit(">");
        reveal_strlit("<=");
        reveal_strlit(">=");
        assert("="@ =~= seq!['=']);
        assert("<"@ =~= seq!['<']);
        assert(">"@ =~= seq!['>']);
        assert("<="@ =~= seq!['<', '=']);
        assert(">="@ =~= seq!['>', '=']);
    }
    match operator {
        Operator::Equal => text.append("="),
        Operator::Less => text.append("<"),
        Operator::Greater => text.append(">"),
        Operator::LessEqual => text.append("<="),
        Operator::GreaterEqual => text.append(">="),
    }
}

/// Appends the text of a linear function.
fn push_function(text: &mut String, f: &LinearFunction)
    ensures
        final(text)@ == old(text)@ + function_text(f@),
{
    let names = f.variables();
    let constant = f.constant();
    let ghost sorted = sorted_names(f@.coefficients.dom());
    let leading = constant.is_zero();
    if !leading {
        push_scalar(text, &constant);
    } else if names.len() == 0 {
        proof {
            reveal_strlit("0");
            assert("0"@ =~= seq!['0']);
        }
        text.append("0");
        return;
    }
    let ghost start = text@;
    let mut i: usize = 0;
    proof {
        assert(sorted.take(0) =~= Seq::<Seq<char>>::empty());
        assert(start + terms_text(f@, sorted.take(0), leading) =~= start);
    }
    while i < names.len()
        invariant
            i <= names@.len(),
            names.deep_view() == sorted,
            text@ == start + terms_text(f@, sorted.take(i as int), leading),
        decreases names@.len() - i,
    {
        proof {
            assert(sorted.take(i + 1).drop_last() =~= sorted.take(i as int));
            assert(sorted.take(i + 1).last() == sorted[i as int]);
            assert(names.deep_view()[i as int] == names@[i as int]@);
        }
        let value = f.coefficient(names[i].as_str());
        push_term(text, names[i].as_str(), &value, leading && i == 0);
        proof {
            assert(text@ =~= start + terms_text(f@, sorted.take(i + 1), leading));
        }
        i = i + 1;
    }
    proof {
        assert(sorted.take(i as int) =~= sorted);
        assert(names.deep_view().len() == names@.len());
    }
}

/// Appends the text of a constraint.
fn push_constraint(text: &mut String, c: &Constraint)
    ensures
        final(text)@ == old(text)@ + constraint_text(c@),
{
    proof {
        reveal_strlit(" ");
        assert(" "@ =~= seq![' ']);
    }
    push_function(text, &c.left);
    text.append(" ");
    push_operator(text, c.operator);
    text.append(" ");
    push_function(text, &c.right);
    proof {
        assert(final(text)@ =~= old(text)@ + constraint_text(c@));
    }
}

/// Appends the text of rows.
fn push_rows(text: &mut String, rows: &Constraints)
    ensures
        final(text)@ == old(text)@ + rows_text(rows@),
{
    proof {
        reveal_strlit("\n");
        assert("\n"@ =~= seq!['\n']);
        assert(rows@.take(0) =~= Seq::<ConstraintModel>::empty());
        assert(text@ + rows_text(rows@.take(0)) =~= text@);
    }
    let ghost start = text@;
    let mut i: usize = 0;
    while i < rows.len()
        invariant
            i <= rows@.len(),
            "\n"@ == seq!['\n'],
            text@ == start + rows_text(rows@.take(i as int)),
        decreases rows@.len() - i,
    {
        proof {
            assert(rows@.take(i + 1).drop_last() =~= rows@.take(i as int));
            assert(rows@.take(i + 1).last() == rows@[i as int]);
        }
        push_constraint(text, rows.get(i));
        text.append("\n");
        proof {
            assert(text@ =~= start + rows_text(rows@.take(i + 1)));
        }
        i = i + 1;
    }
    proof {
        assert(rows@.take(i as int) =~= rows@);
    }
}

impl Scalar {
    /// The value as text: an integer in decimal digits, any other value as
    /// a fraction in lowest terms, the undefined value as `NaN`.
    pub fn to_string(&self) -> (text: String)
        ensures
            text@ == scalar_text(self@),
    {
        let mut text = String::new();
        push_scalar(&mut text, self);
        proof {
            assert(Seq::<char>::empty() + scalar_text(self@) =~= scalar_text(self@));
        }
        text
    }
}

impl Operator {
    /// The operator as text.
    pub fn to_string(&self) -> (text: String)
        ensures
            text@ == operator_text(*self),
    {
        let mut text = String::new();
        push_operator(&mut text, *self);
        proof {
            assert(Seq::<char>::empty() + operator_text(*self) =~= operator_text(*self));
        }
        text
    }
}

impl LinearFunction {
    /// The function as text.
    pub fn to_string(&self) -> (text: String)
        ensures
            text@ == function_text(self@),
    {
        let mut text = String::new();
        push_function(&mut text, self);
        proof {
            assert(Seq::<char>::empty() + function_text(self@) =~= function_text(self@));
        }
        text
    }
}

impl Constraint {
    /// The constraint as text.
    pub fn to_string(&self) -> (text: String)
        ensures
            text@ == constraint_text(self@),
    {
        let mut text = String::new();
        push_constraint(&mut text, self);
        proof {
            assert(Seq::<char>::empty() + constraint_text(self@) =~= constraint_text(self@));
        }
        text
    }
}

impl Constraints {
    /// The rows as text, each on a line of its own.
    pub fn to_string(&self) -> (text: String)
        ensures
            text@ == rows_text(self@),
    {
        let mut text = String::new();
        push_rows(&mut text, self);
        proof {
            assert(Seq::<char>::empty() + rows_text(self@) =~= rows_text(self@));
        }
        text
    }
}

impl LinearProgram {
    /// The program as text: the objective after the word `max`, the rows,
    /// and an empty line.
    pub fn to_string(&self) -> (text: String)
        ensures
            text@ == program_text(self@),
    {
        proof {
            reveal_strlit("max ");
            reveal_strlit("\n");
            assert("max "@ =~= seq!['m', 'a', 'x', ' ']);
            assert("\n"@ =~= seq!['\n']);
        }
        let mut text = String::from_str("max ");
        push_function(&mut text, &self.linear_function);
        text.append("\n");
        push_rows(&mut text, &self.constraints);
        text.append("\n");
        proof {
            assert(text@ =~= program_text(self@));
        }
        text
    }
}

} // verus!
