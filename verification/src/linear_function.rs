//! Linear functions over named variables: a constant plus a sum of
//! variables, each with a coefficient.
//!
//! A function keeps its variables in lexicographic order and keeps no
//! variable with the coefficient zero, so a variable that is absent and one
//! whose coefficient is zero are the same thing, and two functions are equal
//! exactly when they hold the same terms.

use crate::linear_model::{
    lemma_absent, lemma_sorted_names, lemma_sorted_no_duplicates, lemma_with_coefficient,
    sorted_names, strictly_sorted, value_in, LinearModel,
};
use crate::name::{compare_names, name_lt, NameOrder, Variable};
use crate::rational::{
    lemma_integer, lemma_not_positive_below, lemma_ranks_through, lemma_zero_unique, Rational,
};
use crate::scalar::Scalar;
use vstd::prelude::*;
use vstd::string::StringExecFns;

verus! {

/// The type of the coefficients and of the constant.
pub type Coefficient = Scalar;

/// One variable with its coefficient.
#[derive(Debug, PartialEq, Eq)]
struct Term {
    name: Variable,
    coefficient: Scalar,
}

/// A constant plus a sum of variables with coefficients.
#[derive(Debug, PartialEq, Eq)]
pub struct LinearFunction {
    constant: Scalar,
    terms: Vec<Term>,
}

/// The names of a sequence of terms.
spec fn names_of(terms: Seq<Term>) -> Seq<Seq<char>> {
    Seq::new(terms.len(), |i: int| terms[i].name@)
}

/// The coefficients of a sequence of terms.
spec fn values_of(terms: Seq<Term>) -> Seq<Rational> {
    Seq::new(terms.len(), |i: int| terms[i].coefficient@)
}

/// The coefficients are well formed and none is zero.
spec fn no_zero(values: Seq<Rational>) -> bool {
    forall|i: int| 0 <= i < values.len() ==> (#[trigger] values[i]).wf() && !values[i].is_zero()
}

/// The map that holds `values[i]` at `names[i]`.
spec fn listed(names: Seq<Seq<char>>, values: Seq<Rational>) -> Map<Seq<char>, Rational> {
    Map::new(|n: Seq<char>| names.contains(n), |n: Seq<char>| values[names.index_of(n)])
}

proof fn lemma_listed_at(names: Seq<Seq<char>>, values: Seq<Rational>, i: int)
    requires
        names.no_duplicates(),
        0 <= i < names.len(),
    ensures
        listed(names, values).dom().contains(names[i]),
        listed(names, values)[names[i]] == values[i],
{
    assert(names.contains(names[i]));
    let k = names.index_of(names[i]);
    assert(0 <= k < names.len() && names[k] == names[i]);
}

proof fn lemma_listed_insert(
    names: Seq<Seq<char>>,
    values: Seq<Rational>,
    i: int,
    name: Seq<char>,
    value: Rational,
)
    requires
        names.len() == values.len(),
        names.insert(i, name).no_duplicates(),
        0 <= i <= names.len(),
    ensures
        listed(names.insert(i, name), values.insert(i, value)) == listed(names, values).insert(
            name,
            value,
        ),
{
    let names2 = names.insert(i, name);
    let values2 = values.insert(i, value);
    assert(names2[i] == name);
    assert(names.no_duplicates()) by {
        assert forall|a: int, b: int| 0 <= a < names.len() && 0 <= b < names.len() && a != b implies names[a]
            != names[b] by {
            let a2 = if a < i {
                a
            } else {
                a + 1
            };
            let b2 = if b < i {
                b
            } else {
                b + 1
            };
            assert(names2[a2] == names[a]);
            assert(names2[b2] == names[b]);
        }
    }
    assert forall|n: Seq<char>| names2.contains(n) <==> (n == name || names.contains(n)) by {
        if names2.contains(n) {
            let k = choose|k: int| 0 <= k < names2.len() && names2[k] == n;
            if k < i {
                assert(names[k] == n);
            } else if k > i {
                assert(names[k - 1] == n);
            }
        }
        if names.contains(n) {
            let k = choose|k: int| 0 <= k < names.len() && names[k] == n;
            if k < i {
                assert(names2[k] == n);
            } else {
                assert(names2[k + 1] == n);
            }
        }
    }
    assert forall|n: Seq<char>| names2.contains(n) implies listed(names2, values2)[n] == listed(
        names,
        values,
    ).insert(name, value)[n] by {
        let k = choose|k: int| 0 <= k < names2.len() && names2[k] == n;
        lemma_listed_at(names2, values2, k);
        if k < i {
            assert(names[k] == n);
            lemma_listed_at(names, values, k);
        } else if k > i {
            assert(names[k - 1] == n);
            assert(names2[i] != names2[k]);
            lemma_listed_at(names, values, k - 1);
        }
    }
    assert(listed(names2, values2) =~= listed(names, values).insert(name, value));
}

proof fn lemma_listed_remove(names: Seq<Seq<char>>, values: Seq<Rational>, i: int)
    requires
        names.len() == values.len(),
        names.no_duplicates(),
        0 <= i < names.len(),
    ensures
        listed(names.remove(i), values.remove(i)) == listed(names, values).remove(names[i]),
        names.remove(i).no_duplicates(),
{
    let names2 = names.remove(i);
    let values2 = values.remove(i);
    assert forall|a: int, b: int| 0 <= a < names2.len() && 0 <= b < names2.len() && a != b implies names2[a]
        != names2[b] by {
        let a1 = if a < i {
            a
        } else {
            a + 1
        };
        let b1 = if b < i {
            b
        } else {
            b + 1
        };
        assert(names2[a] == names[a1]);
        assert(names2[b] == names[b1]);
    }
    assert forall|n: Seq<char>| names2.contains(n) <==> (n != names[i] && names.contains(n)) by {
        if names2.contains(n) {
            let k = choose|k: int| 0 <= k < names2.len() && names2[k] == n;
            if k < i {
                assert(names[k] == n);
            } else {
                assert(names[k + 1] == n);
            }
        }
        if n != names[i] && names.contains(n) {
            let k = choose|k: int| 0 <= k < names.len() && names[k] == n;
            if k < i {
                assert(names2[k] == n);
            } else {
                assert(names2[k - 1] == n);
            }
        }
    }
    assert forall|n: Seq<char>| names2.contains(n) implies listed(names2, values2)[n] == listed(
        names,
        values,
    )[n] by {
        let k = choose|k: int| 0 <= k < names2.len() && names2[k] == n;
        lemma_listed_at(names2, values2, k);
        if k < i {
            lemma_listed_at(names, values, k);
        } else {
            lemma_listed_at(names, values, k + 1);
        }
    }
    assert(listed(names2, values2) =~= listed(names, values).remove(names[i]));
}

proof fn lemma_listed_update(names: Seq<Seq<char>>, values: Seq<Rational>, i: int, value: Rational)
    requires
        names.len() == values.len(),
        names.no_duplicates(),
        0 <= i < names.len(),
    ensures
        listed(names, values.update(i, value)) == listed(names, values).insert(names[i], value),
{
    let values2 = values.update(i, value);
    assert(names.contains(names[i]));
    assert forall|n: Seq<char>| names.contains(n) implies listed(names, values2)[n] == listed(
        names,
        values,
    ).insert(names[i], value)[n] by {
        let k = choose|k: int| 0 <= k < names.len() && names[k] == n;
        lemma_listed_at(names, values2, k);
        lemma_listed_at(names, values, k);
    }
    assert(listed(names, values2) =~= listed(names, values).insert(names[i], value));
}

impl View for LinearFunction {
    type V = LinearModel;

    closed spec fn view(&self) -> LinearModel {
        LinearModel { constant: self.constant@, coefficients: listed(self.names(), self.values()) }
    }
}

impl LinearFunction {
    /// The names of the variables, in the order in which they are kept.
    closed spec fn names(self) -> Seq<Seq<char>> {
        names_of(self.terms@)
    }

    /// The coefficients, in the order in which they are kept.
    closed spec fn values(self) -> Seq<Rational> {
        values_of(self.terms@)
    }

    /// The variables are in lexicographic order, each once, and none has
    /// the coefficient zero.
    #[verifier::type_invariant]
    pub closed spec fn wf(self) -> bool {
        &&& self.constant@.wf()
        &&& strictly_sorted(self.names())
        &&& no_zero(self.values())
    }

    /// The view of a well-formed function is a well-formed model.
    pub proof fn lemma_view_wf(self)
        requires
            self.wf(),
        ensures
            self@.wf(),
    {
        self.lemma_names();
    }

    /// The kept names are the sorted listing of the variables of the view.
    proof fn lemma_names(self)
        requires
            self.wf(),
        ensures
            self@.wf(),
            self.names().no_duplicates(),
            self@.coefficients.dom() == self.names().to_set(),
            sorted_names(self@.coefficients.dom()) == self.names(),
            forall|i: int|
                0 <= i < self.names().len() ==> #[trigger] self@.coefficients.dom().contains(
                    self.names()[i],
                ) && self@.coefficients[self.names()[i]] == self.values()[i],
    {
        let names = self.names();
        let values = self.values();
        lemma_sorted_no_duplicates(names);
        assert(self@.coefficients.dom() =~= names.to_set());
        vstd::seq_lib::seq_to_set_is_finite(names);
        lemma_sorted_names(names);
        assert forall|i: int| 0 <= i < names.len() implies #[trigger] self@.coefficients.dom().contains(
            names[i],
        ) && self@.coefficients[names[i]] == values[i] by {
            lemma_listed_at(names, values, i);
        }
        assert forall|n: Seq<char>| #[trigger]
            self@.coefficients.dom().contains(n) implies self@.coefficients[n].wf()
            && !self@.coefficients[n].is_zero() by {
            let k = choose|k: int| 0 <= k < names.len() && names[k] == n;
            lemma_listed_at(names, values, k);
            assert(values[k].wf());
        }
    }

    /// Where `var` stands among the kept names: the index of its term if it
    /// has one, else the index at which its term would be inserted.
    fn position(&self, var: &str) -> (r: (usize, bool))
        ensures
            r.0 <= self.terms@.len(),
            forall|j: int| 0 <= j < r.0 ==> name_lt(#[trigger] self.names()[j], var@),
            r.1 ==> r.0 < self.terms@.len() && self.names()[r.0 as int] == var@,
            !r.1 && r.0 < self.terms@.len() ==> name_lt(var@, self.names()[r.0 as int]),
    {
        let mut i: usize = 0;
        while i < self.terms.len()
            invariant
                i <= self.terms@.len(),
                forall|j: int| 0 <= j < i ==> name_lt(#[trigger] self.names()[j], var@),
            decreases self.terms@.len() - i,
        {
            assert(self.names()[i as int] == self.terms@[i as int].name@);
            match compare_names(self.terms[i].name.as_str(), var) {
                NameOrder::Before => {
                    i = i + 1;
                },
                NameOrder::Same => {
                    return (i, true);
                },
                NameOrder::After => {
                    return (i, false);
                },
            }
        }
        (i, false)
    }

    /// The function that is zero everywhere.
    pub fn zero() -> (r: LinearFunction)
        ensures
            r@ == LinearModel::zero(),
    {
        let constant = Scalar::zero();
        proof {
            lemma_integer(0);
        }
        let r = LinearFunction { constant, terms: Vec::new() };
        proof {
            assert(r@.coefficients =~= Map::empty());
        }
        r
    }

    /// The constant term.
    pub fn constant(&self) -> (c: Scalar)
        ensures
            c@ == self@.constant,
    {
        self.constant
    }

    /// Replaces the constant term.
    pub fn set_constant(&mut self, value: Scalar)
        ensures
            final(self)@ == old(self)@.with_constant(value@),
    {
        proof {
            use_type_invariant(&*self);
            use_type_invariant(&value);
        }
        self.constant = value;
    }

    /// The coefficient of `var`; zero for a variable that the function
    /// does not hold.
    pub fn coefficient(&self, var: &str) -> (c: Scalar)
        ensures
            c@ == self@.coefficient(var@),
    {
        proof {
            use_type_invariant(self);
            self.lemma_names();
        }
        let (i, found) = self.position(var);
        if found {
            self.terms[i].coefficient
        } else {
            proof {
                lemma_absent(self.names(), var@, i as int);
            }
            Scalar::zero()
        }
    }

    /// Whether the function holds `var`, that is whether its coefficient is
    /// other than zero.
    pub fn contains(&self, var: &str) -> (b: bool)
        ensures
            b == self@.coefficients.dom().contains(var@),
    {
        proof {
            use_type_invariant(self);
            self.lemma_names();
        }
        let (i, found) = self.position(var);
        proof {
            if !found {
                lemma_absent(self.names(), var@, i as int);
            }
        }
        found
    }

    /// Sets the coefficient of `var`. The value zero removes the variable.
    pub fn set_coefficient(&mut self, var: Variable, value: Scalar)
        ensures
            final(self)@ == old(self)@.with_coefficient(var@, value@),
    {
        proof {
            use_type_invariant(&*self);
            use_type_invariant(&value);
            self.lemma_names();
        }
        let ghost names = self.names();
        let ghost values = self.values();
        let (i, found) = self.position(var.as_str());
        let mut terms: Vec<Term> = Vec::new();
        proof {
            lemma_integer(0);
        }
        core::mem::swap(&mut terms, &mut self.terms);
        if found {
            if value.is_zero() {
                terms.remove(i);
                proof {
                    lemma_listed_remove(names, values, i as int);
                    assert(names_of(terms@) =~= names.remove(i as int));
                    assert(values_of(terms@) =~= values.remove(i as int));
                    lemma_sorted_remove(names, i as int);
                    lemma_no_zero_remove(values, i as int);
                }
            } else {
                terms[i] = Term { name: var, coefficient: value };
                proof {
                    lemma_listed_update(names, values, i as int, value@);
                    assert(names_of(terms@) =~= names);
                    assert(values_of(terms@) =~= values.update(i as int, value@));
                }
            }
        } else {
            proof {
                lemma_absent(names, var@, i as int);
            }
            if !value.is_zero() {
                terms.insert(i, Term { name: var, coefficient: value });
                proof {
                    assert(names_of(terms@) =~= names.insert(i as int, var@));
                    assert(values_of(terms@) =~= values.insert(i as int, value@));
                    lemma_sorted_no_duplicates(names_of(terms@));
                    lemma_listed_insert(names, values, i as int, var@, value@);
                }
            } else {
                proof {
                    assert(names_of(terms@) =~= names);
                    assert(values_of(terms@) =~= values);
                    assert(old(self)@.coefficients.remove(var@) =~= old(self)@.coefficients);
                }
            }
        }
        self.terms = terms;
    }
}

/// Removing a name keeps a sequence sorted.
proof fn lemma_sorted_remove(names: Seq<Seq<char>>, i: int)
    requires
        strictly_sorted(names),
        0 <= i < names.len(),
    ensures
        strictly_sorted(names.remove(i)),
{
    let names2 = names.remove(i);
    assert forall|a: int, b: int| 0 <= a < b < names2.len() implies name_lt(
        #[trigger] names2[a],
        #[trigger] names2[b],
    ) by {
        let a1 = if a < i {
            a
        } else {
            a + 1
        };
        let b1 = if b < i {
            b
        } else {
            b + 1
        };
        assert(name_lt(names[a1], names[b1]));
    }
}

/// Removing a coefficient leaves none that is zero.
proof fn lemma_no_zero_remove(values: Seq<Rational>, i: int)
    requires
        no_zero(values),
        0 <= i < values.len(),
    ensures
        no_zero(values.remove(i)),
{
    let values2 = values.remove(i);
    assert forall|k: int| 0 <= k < values2.len() implies (#[trigger] values2[k]).wf()
        && !values2[k].is_zero() by {
        let k1 = if k < i {
            k
        } else {
            k + 1
        };
        assert(values2[k] == values[k1]);
    }
}

/// The pairs of names and values that a list of pairs of variables and
/// coefficients stands for.
pub open spec fn pairs_view(pairs: Seq<(Variable, Coefficient)>) -> Seq<(Seq<char>, Rational)> {
    Seq::new(pairs.len(), |i: int| (pairs[i].0@, pairs[i].1@))
}

impl Default for LinearFunction {
    fn default() -> (r: LinearFunction)
        ensures
            r@ == LinearModel::zero(),
    {
        LinearFunction::zero()
    }
}

impl Clone for LinearFunction {
    fn clone(&self) -> (r: Self)
        ensures
            r@ == self@,
    {
        proof {
            use_type_invariant(self);
        }
        let mut terms: Vec<Term> = Vec::new();
        let mut i: usize = 0;
        while i < self.terms.len()
            invariant
                i <= self.terms@.len(),
                terms@.len() == i,
                forall|j: int|
                    0 <= j < i ==> (#[trigger] terms@[j]).name@ == self.terms@[j].name@
                        && terms@[j].coefficient == self.terms@[j].coefficient,
            decreases self.terms@.len() - i,
        {
            terms.push(Term { name: self.terms[i].name.clone(), coefficient: self.terms[i].coefficient });
            i = i + 1;
        }
        proof {
            assert(names_of(terms@) =~= self.names());
            assert(values_of(terms@) =~= self.values());
        }
        LinearFunction { constant: self.constant, terms }
    }
}

/// How two functions are combined term by term.
#[derive(Clone, Copy, PartialEq, Eq, Structural)]
enum Combination {
    Sum,
    Difference,
}

/// What is done to every coefficient of a function.
#[derive(Clone, Copy, PartialEq, Eq, Structural)]
enum Scaling {
    Negate,
    Times,
    Over,
}

spec fn combine(how: Combination, a: Rational, b: Rational) -> Rational {
    match how {
        Combination::Sum => a.add(b),
        Combination::Difference => a.sub(b),
    }
}

spec fn scale(how: Scaling, a: Rational, k: Rational) -> Rational {
    match how {
        Scaling::Negate => a.neg(),
        Scaling::Times => a.mul(k),
        Scaling::Over => a.div(k),
    }
}

spec fn combined_model(how: Combination, a: LinearModel, b: LinearModel) -> LinearModel {
    match how {
        Combination::Sum => a.plus(b),
        Combination::Difference => a.minus(b),
    }
}

spec fn scaled_model(how: Scaling, a: LinearModel, k: Rational) -> LinearModel {
    match how {
        Scaling::Negate => a.negated(),
        Scaling::Times => a.scaled_by(k),
        Scaling::Over => a.divided_by(k),
    }
}

fn combine_scalars(how: Combination, a: &Scalar, b: &Scalar) -> (r: Scalar)
    ensures
        r@ == combine(how, a@, b@),
{
    match how {
        Combination::Sum => a.add(b),
        Combination::Difference => a.sub(b),
    }
}

fn scale_scalar(how: Scaling, a: &Scalar, k: &Scalar) -> (r: Scalar)
    ensures
        r@ == scale(how, a@, k@),
{
    match how {
        Scaling::Negate => a.neg(),
        Scaling::Times => a.mul(k),
        Scaling::Over => a.div(k),
    }
}

impl LinearFunction {
    /// The function with the given constant and coefficients. Where a
    /// variable occurs more than once, its last coefficient counts.
    pub fn new(constant: Coefficient, coefficients: Vec<(Variable, Coefficient)>) -> (r:
        LinearFunction)
        ensures
            r@ == LinearModel::constant_only(constant@).assign_all(pairs_view(coefficients@)),
    {
        let mut r = LinearFunction::zero();
        r.set_constant(constant);
        let ghost pairs = pairs_view(coefficients@);
        let mut i: usize = 0;
        while i < coefficients.len()
            invariant
                i <= coefficients@.len(),
                pairs == pairs_view(coefficients@),
                r@ == LinearModel::constant_only(constant@).assign_all(pairs.take(i as int)),
            decreases coefficients@.len() - i,
        {
            let name = coefficients[i].0.clone();
            r.set_coefficient(name, coefficients[i].1);
            proof {
                assert(pairs.take(i + 1).drop_last() =~= pairs.take(i as int));
                assert(pairs.take(i + 1).last() == pairs[i as int]);
            }
            i = i + 1;
        }
        proof {
            assert(pairs.take(i as int) =~= pairs);
        }
        r
    }

    /// The function that is the variable `var`.
    pub fn single_variable(var: Variable) -> (r: LinearFunction)
        ensures
            r@ == LinearModel::single(var@, Rational::one()),
    {
        let mut r = LinearFunction::zero();
        r.set_coefficient(var, Scalar::one());
        r
    }

    /// The function `coeff * var`.
    pub fn single_variable_with_coeff(var: Variable, coeff: Coefficient) -> (r: LinearFunction)
        ensures
            r@ == LinearModel::single(var@, coeff@),
    {
        let mut r = LinearFunction::zero();
        r.set_coefficient(var, coeff);
        r
    }

    /// Whether two functions are the same function.
    pub fn equals(&self, other: &LinearFunction) -> (b: bool)
        ensures
            b == (self@ == other@),
    {
        proof {
            use_type_invariant(self);
            use_type_invariant(other);
            self.lemma_names();
            other.lemma_names();
            Scalar::lemma_view_injective(self.constant, other.constant);
        }
        if self.constant != other.constant {
            return false;
        }
        if self.terms.len() != other.terms.len() {
            return false;
        }
        let mut i: usize = 0;
        while i < self.terms.len()
            invariant
                i <= self.terms@.len(),
                self.terms@.len() == other.terms@.len(),
                self.wf(),
                other.wf(),
                sorted_names(self@.coefficients.dom()) == self.names(),
                sorted_names(other@.coefficients.dom()) == other.names(),
                forall|j: int|
                    0 <= j < i ==> (#[trigger] self.names()[j]) == other.names()[j]
                        && self.values()[j] == other.values()[j],
            decreases self.terms@.len() - i,
        {
            proof {
                self.lemma_names();
                other.lemma_names();
                Scalar::lemma_view_injective(
                    self.terms@[i as int].coefficient,
                    other.terms@[i as int].coefficient,
                );
                assert(self.names()[i as int] == self.terms@[i as int].name@);
                assert(other.names()[i as int] == other.terms@[i as int].name@);
                assert(self.values()[i as int] == self.terms@[i as int].coefficient@);
                assert(other.values()[i as int] == other.terms@[i as int].coefficient@);
            }
            if !(self.terms[i].name == other.terms[i].name) {
                return false;
            }
            if self.terms[i].coefficient != other.terms[i].coefficient {
                proof {
                    assert(self@.coefficients[self.names()[i as int]] == self.values()[i as int]);
                    assert(other@.coefficients[other.names()[i as int]] == other.values()[i as int]);
                }
                return false;
            }
            i = i + 1;
        }
        proof {
            assert(self.names() =~= other.names());
            assert forall|j: int| 0 <= j < self.values().len() implies self.values()[j]
                == other.values()[j] by {
                assert(self.names()[j] == other.names()[j]);
            }
            assert(self.values() =~= other.values());
        }
        true
    }

    /// The sum or the difference of two functions.
    fn combined(&self, other: &LinearFunction, how: Combination) -> (r: LinearFunction)
        ensures
            r@ == combined_model(how, self@, other@),
    {
        proof {
            use_type_invariant(self);
            use_type_invariant(other);
            self.lemma_names();
            other.lemma_names();
        }
        let mut r = self.clone();
        r.set_constant(combine_scalars(how, &self.constant, &other.constant));
        let ghost names = other.names();
        let mut i: usize = 0;
        while i < other.terms.len()
            invariant
                i <= other.terms@.len(),
                other.wf(),
                self@.wf(),
                names == other.names(),
                names.no_duplicates(),
                r@.constant == combine(how, self@.constant, other@.constant),
                forall|n: Seq<char>| #[trigger]
                    r@.coefficient(n) == (if names.take(i as int).contains(n) {
                        combine(how, self@.coefficient(n), other@.coefficient(n))
                    } else {
                        self@.coefficient(n)
                    }),
            decreases other.terms@.len() - i,
        {
            proof {
                use_type_invariant(&r);
                r.lemma_names();
                other.lemma_names();
                assert(names[i as int] == other.terms@[i as int].name@);
                assert(other.values()[i as int] == other.terms@[i as int].coefficient@);
                assert(other@.coefficients.dom().contains(names[i as int]));
            }
            let name = other.terms[i].name.clone();
            let ghost before = r@;
            let c = combine_scalars(how, &r.coefficient(name.as_str()), &other.terms[i].coefficient);
            r.set_coefficient(name, c);
            proof {
                use_type_invariant(&c);
                lemma_with_coefficient(before, names[i as int], c@);
                assert(!names.take(i as int).contains(names[i as int])) by {
                    let prefix = names.take(i as int);
                    if prefix.contains(names[i as int]) {
                        let k = choose|k: int| 0 <= k < prefix.len() && prefix[k] == names[i as int];
                        assert(names[k] == names[i as int]);
                    }
                }
                assert forall|n: Seq<char>| #[trigger]
                    r@.coefficient(n) == (if names.take(i + 1).contains(n) {
                        combine(how, self@.coefficient(n), other@.coefficient(n))
                    } else {
                        self@.coefficient(n)
                    }) by {
                    lemma_take_contains(names, i as int, n);
                    if n != names[i as int] {
                        assert(r@.coefficient(n) == before.coefficient(n));
                    }
                }
            }
            i = i + 1;
        }
        proof {
            use_type_invariant(&r);
            r.lemma_names();
            assert(names.take(i as int) =~= names);
            let target = combined_model(how, self@, other@);
            match how {
                Combination::Sum => {
                    crate::linear_model::lemma_plus(self@, other@);
                },
                Combination::Difference => {
                    crate::linear_model::lemma_minus(self@, other@);
                },
            }
            assert forall|n: Seq<char>| r@.coefficient(n) == target.coefficient(n) by {
                crate::linear_model::lemma_coefficient_wf(self@, n);
                if !names.contains(n) {
                    lemma_integer(0);
                    crate::rational::lemma_add_zero(self@.coefficient(n));
                    assert(Rational::zero().neg() == Rational::zero());
                }
            }
            crate::linear_model::lemma_extensional(r@, target);
        }
        r
    }

    /// The function with every coefficient and the constant negated,
    /// multiplied or divided.
    fn scaled(&self, how: Scaling, k: &Scalar) -> (r: LinearFunction)
        ensures
            r@ == scaled_model(how, self@, k@),
    {
        proof {
            use_type_invariant(self);
            self.lemma_names();
        }
        let mut r = LinearFunction::zero();
        r.set_constant(scale_scalar(how, &self.constant, k));
        let ghost names = self.names();
        let mut i: usize = 0;
        while i < self.terms.len()
            invariant
                i <= self.terms@.len(),
                self.wf(),
                names == self.names(),
                names.no_duplicates(),
                r@.constant == scale(how, self@.constant, k@),
                forall|n: Seq<char>| #[trigger]
                    r@.coefficient(n) == (if names.take(i as int).contains(n) {
                        scale(how, self@.coefficient(n), k@)
                    } else {
                        Rational::zero()
                    }),
            decreases self.terms@.len() - i,
        {
            proof {
                use_type_invariant(&r);
                r.lemma_names();
                self.lemma_names();
                assert(names[i as int] == self.terms@[i as int].name@);
                assert(self.values()[i as int] == self.terms@[i as int].coefficient@);
                assert(self@.coefficients.dom().contains(names[i as int]));
            }
            let name = self.terms[i].name.clone();
            let ghost before = r@;
            let c = scale_scalar(how, &self.terms[i].coefficient, k);
            r.set_coefficient(name, c);
            proof {
                use_type_invariant(&c);
                lemma_with_coefficient(before, names[i as int], c@);
                assert forall|n: Seq<char>| #[trigger]
                    r@.coefficient(n) == (if names.take(i + 1).contains(n) {
                        scale(how, self@.coefficient(n), k@)
                    } else {
                        Rational::zero()
                    }) by {
                    lemma_take_contains(names, i as int, n);
                    if n != names[i as int] {
                        assert(r@.coefficient(n) == before.coefficient(n));
                    }
                }
            }
            i = i + 1;
        }
        proof {
            use_type_invariant(&r);
            r.lemma_names();
            assert(names.take(i as int) =~= names);
            let target = scaled_model(how, self@, k@);
            match how {
                Scaling::Negate => {
                    crate::linear_model::lemma_negated(self@);
                },
                Scaling::Times => {
                    crate::linear_model::lemma_scaled_by(self@, k@);
                },
                Scaling::Over => {
                    crate::linear_model::lemma_divided_by(self@, k@);
                },
            }
            assert forall|n: Seq<char>| r@.coefficient(n) == target.coefficient(n) by {
                if !names.contains(n) {
                    assert(Rational::zero().neg() == Rational::zero());
                }
            }
            crate::linear_model::lemma_extensional(r@, target);
        }
        r
    }

    /// The sum of two functions.
    pub fn plus(&self, other: &LinearFunction) -> (r: LinearFunction)
        ensures
            r@ == self@.plus(other@),
    {
        self.combined(other, Combination::Sum)
    }

    /// The difference of two functions.
    pub fn minus(&self, other: &LinearFunction) -> (r: LinearFunction)
        ensures
            r@ == self@.minus(other@),
    {
        self.combined(other, Combination::Difference)
    }

    /// The function times `-1`.
    pub fn negated(&self) -> (r: LinearFunction)
        ensures
            r@ == self@.negated(),
    {
        self.scaled(Scaling::Negate, &Scalar::one())
    }

    /// The function times `factor`.
    pub fn scaled_by(&self, factor: &Coefficient) -> (r: LinearFunction)
        ensures
            r@ == self@.scaled_by(factor@),
    {
        self.scaled(Scaling::Times, factor)
    }

    /// The function divided by `divisor`. Division by zero leaves the
    /// undefined value in the constant and in every coefficient.
    pub fn divided_by(&self, divisor: &Coefficient) -> (r: LinearFunction)
        ensures
            r@ == self@.divided_by(divisor@),
    {
        self.scaled(Scaling::Over, divisor)
    }

    /// Adds `other` to the function.
    pub fn add_in_place(&mut self, other: &LinearFunction)
        ensures
            final(self)@ == old(self)@.plus(other@),
    {
        let r = self.plus(other);
        *self = r;
    }

    /// Subtracts `other` from the function.
    pub fn sub_in_place(&mut self, other: &LinearFunction)
        ensures
            final(self)@ == old(self)@.minus(other@),
    {
        let r = self.minus(other);
        *self = r;
    }

    /// Multiplies the function by `factor`.
    pub fn scale_in_place(&mut self, factor: &Coefficient)
        ensures
            final(self)@ == old(self)@.scaled_by(factor@),
    {
        let r = self.scaled_by(factor);
        *self = r;
    }

    /// Divides the function by `divisor`.
    pub fn divide_in_place(&mut self, divisor: &Coefficient)
        ensures
            final(self)@ == old(self)@.divided_by(divisor@),
    {
        let r = self.divided_by(divisor);
        *self = r;
    }

    /// Negates the function.
    pub fn negate_in_place(&mut self)
        ensures
            final(self)@ == old(self)@.negated(),
    {
        let r = self.negated();
        *self = r;
    }

    /// Puts `value` in the place of the variable `var`.
    pub fn replace(&mut self, var: &str, value: &LinearFunction)
        ensures
            final(self)@ == old(self)@.substitute(var@, value@),
    {
        if self.contains(var) {
            let c = self.coefficient(var);
            self.set_coefficient(String::from_str(var), Scalar::zero());
            let scaled = value.scaled_by(&c);
            let r = self.plus(&scaled);
            *self = r;
        }
    }

    /// Divides the function by its coefficient of `var`, so that this
    /// coefficient becomes one. Does nothing where the function does not
    /// hold `var`.
    pub fn scale_to_unit_coefficient(&mut self, var: &str)
        ensures
            final(self)@ == old(self)@.scale_to_unit_coefficient(var@),
    {
        if self.contains(var) {
            let c = self.coefficient(var);
            let r = self.divided_by(&c);
            *self = r;
        }
    }

    /// Solves the function, taken as an equation with zero, for `var`:
    /// gives the function divided by minus the coefficient of `var`, with
    /// `-1` as the coefficient of `var`, and that coefficient. Gives the
    /// function itself and zero where it does not hold `var`.
    pub fn normalize(&self, var: Variable) -> (r: (LinearFunction, Coefficient))
        ensures
            r.0@ == self@.normalize(var@),
            r.1@ == self@.coefficient(var@),
    {
        let c = self.coefficient(var.as_str());
        if self.contains(var.as_str()) {
            let divided = self.divided_by(&c);
            let mut solved = divided.negated();
            solved.set_coefficient(var, Scalar::one().neg());
            (solved, c)
        } else {
            (self.clone(), c)
        }
    }
}

/// What a prefix that is one longer holds.
proof fn lemma_take_contains(names: Seq<Seq<char>>, i: int, n: Seq<char>)
    requires
        0 <= i < names.len(),
    ensures
        names.take(i + 1).contains(n) <==> (n == names[i] || names.take(i).contains(n)),
{
    let longer = names.take(i + 1);
    let shorter = names.take(i);
    if longer.contains(n) {
        let k = choose|k: int| 0 <= k < longer.len() && longer[k] == n;
        if k < i {
            assert(shorter[k] == n);
        }
    }
    if shorter.contains(n) {
        let k = choose|k: int| 0 <= k < shorter.len() && shorter[k] == n;
        assert(longer[k] == n);
    }
    if n == names[i] {
        assert(longer[i] == n);
    }
}

/// The value that a valuation gives to a variable.
fn value_of(valuation: &Vec<(Variable, Coefficient)>, name: &str) -> (r: Scalar)
    ensures
        r@ == value_in(pairs_view(valuation@), name@),
{
    let ghost pairs = pairs_view(valuation@);
    let mut i: usize = valuation.len();
    proof {
        assert(pairs.take(i as int) =~= pairs);
    }
    while i > 0
        invariant
            i <= valuation@.len(),
            pairs == pairs_view(valuation@),
            value_in(pairs, name@) == value_in(pairs.take(i as int), name@),
        decreases i,
    {
        i = i - 1;
        proof {
            assert(pairs.take(i + 1).drop_last() =~= pairs.take(i as int));
            assert(pairs.take(i + 1).last() == pairs[i as int]);
        }
        if compare_names(valuation[i].0.as_str(), name) == NameOrder::Same {
            return valuation[i].1;
        }
    }
    Scalar::zero()
}

impl LinearFunction {
    /// The value of the function where each variable has the value that
    /// `valuation` gives it, and zero where it gives none. Where a variable
    /// occurs more than once in `valuation`, its last value counts.
    pub fn apply(&self, valuation: &Vec<(Variable, Coefficient)>) -> (r: Coefficient)
        ensures
            r@ == self@.evaluate(pairs_view(valuation@)),
    {
        proof {
            use_type_invariant(self);
            self.lemma_names();
        }
        let ghost names = self.names();
        let ghost pairs = pairs_view(valuation@);
        let mut sum = self.constant;
        let mut i: usize = 0;
        while i < self.terms.len()
            invariant
                i <= self.terms@.len(),
                self.wf(),
                names == self.names(),
                pairs == pairs_view(valuation@),
                sum@ == self@.partial_sum(names.take(i as int), pairs),
            decreases self.terms@.len() - i,
        {
            proof {
                self.lemma_names();
                assert(names[i as int] == self.terms@[i as int].name@);
                assert(self.values()[i as int] == self.terms@[i as int].coefficient@);
                assert(self@.coefficients.dom().contains(names[i as int]));
                assert(names.take(i + 1).drop_last() =~= names.take(i as int));
                assert(names.take(i + 1).last() == names[i as int]);
            }
            let value = value_of(valuation, self.terms[i].name.as_str());
            sum = sum.add(&self.terms[i].coefficient.mul(&value));
            i = i + 1;
        }
        proof {
            assert(names.take(i as int) =~= names);
        }
        sum
    }

    /// Whether no coefficient is greater than zero.
    pub fn only_negative_coefficients(&self) -> (b: bool)
        ensures
            b == self@.no_positive_coefficient(),
    {
        proof {
            use_type_invariant(self);
            self.lemma_names();
        }
        let mut i: usize = 0;
        while i < self.terms.len()
            invariant
                i <= self.terms@.len(),
                self.wf(),
                forall|j: int| 0 <= j < i ==> !(#[trigger] self.values()[j]).is_positive(),
            decreases self.terms@.len() - i,
        {
            proof {
                self.lemma_names();
                assert(self.values()[i as int] == self.terms@[i as int].coefficient@);
                assert(self@.coefficients.dom().contains(self.names()[i as int]));
            }
            if self.terms[i].coefficient.is_positive() {
                return false;
            }
            i = i + 1;
        }
        proof {
            self.lemma_names();
            assert forall|n: Seq<char>| #[trigger]
                self@.coefficients.dom().contains(n) implies !self@.coefficients[n].is_positive() by {
                let k = choose|k: int| 0 <= k < self.names().len() && self.names()[k] == n;
                assert(self@.coefficients.dom().contains(self.names()[k]));
                assert(!self.values()[k].is_positive());
            }
        }
        true
    }

    /// The variable with the greatest coefficient, and that coefficient.
    /// Of several variables with the greatest coefficient it is the first
    /// in lexicographic order. An undefined coefficient ranks below every
    /// defined one.
    pub fn max_coefficient(&self) -> (r: (Variable, Coefficient))
        requires
            self@.coefficients.dom().len() > 0,
        ensures
            self@.is_greatest(r.0@),
            r.1@ == self@.coefficients[r.0@],
    {
        proof {
            use_type_invariant(self);
            self.lemma_names();
            self.names().unique_seq_to_set();
        }
        let mut best: usize = 0;
        let mut i: usize = 1;
        while i < self.terms.len()
            invariant
                best < i <= self.terms@.len(),
                self.wf(),
                forall|j: int|
                    0 <= j < i ==> !self.values()[best as int].ranks_below(#[trigger] self.values()[j]),
                forall|j: int|
                    0 <= j < best ==> (#[trigger] self.values()[j]).ranks_below(
                        self.values()[best as int],
                    ),
            decreases self.terms@.len() - i,
        {
            proof {
                assert(self.values()[i as int] == self.terms@[i as int].coefficient@);
                assert(self.values()[best as int] == self.terms@[best as int].coefficient@);
            }
            if self.terms[best].coefficient.ranks_below(&self.terms[i].coefficient) {
                proof {
                    let old_best = self.values()[best as int];
                    let new_best = self.values()[i as int];
                    assert forall|j: int| 0 <= j < i + 1 implies !new_best.ranks_below(
                        #[trigger] self.values()[j],
                    ) by {
                        crate::rational::lemma_ranking(old_best, new_best, self.values()[j]);
                        crate::rational::lemma_ranking(new_best, new_best, new_best);
                        assert(self.values()[j].wf() && old_best.wf() && new_best.wf());
                    }
                    assert forall|j: int| 0 <= j < i implies (#[trigger] self.values()[j]).ranks_below(
                        new_best,
                    ) by {
                        crate::rational::lemma_ranking(self.values()[j], old_best, new_best);
                        assert(self.values()[j].wf() && old_best.wf() && new_best.wf());
                        if j != best {
                            assert(!old_best.ranks_below(self.values()[j]));
                            lemma_ranks_through(self.values()[j], old_best, new_best);
                        }
                    }
                }
                best = i;
            }
            i = i + 1;
        }
        proof {
            self.lemma_names();
            let name = self.names()[best as int];
            assert(name == self.terms@[best as int].name@);
            assert(self.values()[best as int] == self.terms@[best as int].coefficient@);
            assert(self@.coefficients.dom().contains(name));
            assert forall|m: Seq<char>| #[trigger]
                self@.coefficients.dom().contains(m) implies !self@.coefficients[name].ranks_below(
                self@.coefficients[m],
            ) && (!self@.coefficients[m].ranks_below(self@.coefficients[name]) ==> crate::name::name_le(
                name,
                m,
            )) by {
                let k = choose|k: int| 0 <= k < self.names().len() && self.names()[k] == m;
                assert(self@.coefficients.dom().contains(self.names()[k]));
                assert(!self.values()[best as int].ranks_below(self.values()[k]));
                if k < best {
                    assert(self.values()[k].ranks_below(self.values()[best as int]));
                } else if k > best {
                    assert(name_lt(self.names()[best as int], self.names()[k]));
                }
            }
        }
        (self.terms[best].name.clone(), self.terms[best].coefficient)
    }

    /// The variable that enters the basis, where the function is the
    /// objective: one with a coefficient greater than zero, or none where
    /// there is no such coefficient. With `use_bland_rule` it is the first
    /// such variable in lexicographic order; without, it is the variable
    /// with the greatest coefficient, the first such in lexicographic order.
    pub fn first_positive_coefficient(&self, use_bland_rule: bool) -> (r: Option<Variable>)
        ensures
            match r {
                Some(v) => if use_bland_rule {
                    self@.is_first_positive(v@)
                } else {
                    self@.is_greatest(v@) && self@.coefficient(v@).is_positive()
                },
                None => self@.no_positive_coefficient(),
            },
    {
        proof {
            use_type_invariant(self);
            self.lemma_names();
            self.names().unique_seq_to_set();
        }
        if self.terms.len() == 0 {
            proof {
                assert(self@.coefficients.dom() =~= Set::empty());
            }
            return None;
        }
        if !use_bland_rule {
            let (name, value) = self.max_coefficient();
            if value.is_positive() {
                return Some(name);
            } else {
                proof {
                    assert forall|n: Seq<char>| #[trigger]
                        self@.coefficients.dom().contains(n) implies !self@.coefficients[n].is_positive() by {
                        lemma_not_positive_below(self@.coefficients[name@], self@.coefficients[n]);
                    }
                }
                return None;
            }
        }
        let mut i: usize = 0;
        while i < self.terms.len()
            invariant
                i <= self.terms@.len(),
                self.wf(),
                use_bland_rule,
                forall|j: int| 0 <= j < i ==> !(#[trigger] self.values()[j]).is_positive(),
            decreases self.terms@.len() - i,
        {
            proof {
                self.lemma_names();
                assert(self.values()[i as int] == self.terms@[i as int].coefficient@);
                assert(self.names()[i as int] == self.terms@[i as int].name@);
                assert(self@.coefficients.dom().contains(self.names()[i as int]));
            }
            if self.terms[i].coefficient.is_positive() {
                proof {
                    let name = self.names()[i as int];
                    assert(self@.coefficients[name] == self.values()[i as int]);
                    assert(self@.coefficient(name).is_positive());
                    assert forall|m: Seq<char>| #[trigger]
                        self@.coefficient(m).is_positive() implies crate::name::name_le(name, m) by {
                        assert(self@.coefficients.dom().contains(m));
                        let k = choose|k: int| 0 <= k < self.names().len() && self.names()[k] == m;
                        assert(self@.coefficients.dom().contains(self.names()[k]));
                        if k < i {
                            assert(!self.values()[k].is_positive());
                        } else if k > i {
                            assert(name_lt(self.names()[i as int], self.names()[k]));
                        }
                    }
                }
                return Some(self.terms[i].name.clone());
            }
            i = i + 1;
        }
        proof {
            self.lemma_names();
            assert forall|n: Seq<char>| #[trigger]
                self@.coefficients.dom().contains(n) implies !self@.coefficients[n].is_positive() by {
                let k = choose|k: int| 0 <= k < self.names().len() && self.names()[k] == n;
                assert(self@.coefficients.dom().contains(self.names()[k]));
                assert(!self.values()[k].is_positive());
            }
        }
        None
    }

    /// The variables of the function, in lexicographic order.
    pub fn variables(&self) -> (r: Vec<Variable>)
        ensures
            r.deep_view() == sorted_names(self@.variables()),
    {
        proof {
            use_type_invariant(self);
            self.lemma_names();
        }
        let mut r: Vec<Variable> = Vec::new();
        let mut i: usize = 0;
        while i < self.terms.len()
            invariant
                i <= self.terms@.len(),
                r@.len() == i,
                forall|j: int| 0 <= j < i ==> (#[trigger] r@[j])@ == self.terms@[j].name@,
            decreases self.terms@.len() - i,
        {
            r.push(self.terms[i].name.clone());
            i = i + 1;
        }
        proof {
            assert(r.deep_view() =~= self.names());
        }
        r
    }

    /// The variables of the function that are not slack variables, in
    /// lexicographic order.
    pub fn non_gap_variables(&self) -> (r: Vec<Variable>)
        ensures
            r.deep_view() == sorted_names(self@.structural_variables()),
    {
        proof {
            use_type_invariant(self);
            self.lemma_names();
        }
        let ghost names = self.names();
        let mut r: Vec<Variable> = Vec::new();
        let mut i: usize = 0;
        while i < self.terms.len()
            invariant
                i <= self.terms@.len(),
                self.wf(),
                names == self.names(),
                strictly_sorted(r.deep_view()),
                forall|a: int, k: int|
                    0 <= a < r@.len() && i <= k < names.len() ==> name_lt(
                        #[trigger] r.deep_view()[a],
                        #[trigger] names[k],
                    ),
                forall|x: Seq<char>| #[trigger]
                    r.deep_view().contains(x) <==> names.take(i as int).contains(x)
                        && !crate::name::is_gap_name(x),
            decreases self.terms@.len() - i,
        {
            proof {
                assert(names[i as int] == self.terms@[i as int].name@);
            }
            let ghost before = r.deep_view();
            if !crate::name::is_gap_variable(self.terms[i].name.as_str()) {
                r.push(self.terms[i].name.clone());
                proof {
                    let after = r.deep_view();
                    assert(after =~= before.push(names[i as int]));
                    assert forall|a: int, b: int| 0 <= a < b < after.len() implies name_lt(
                        #[trigger] after[a],
                        #[trigger] after[b],
                    ) by {
                        if b < before.len() {
                            assert(name_lt(before[a], before[b]));
                        } else {
                            assert(name_lt(before[a], names[i as int]));
                        }
                    }
                    assert forall|a: int, k: int|
                        0 <= a < after.len() && i + 1 <= k < names.len() implies name_lt(
                        #[trigger] after[a],
                        #[trigger] names[k],
                    ) by {
                        if a < before.len() {
                            assert(name_lt(before[a], names[k]));
                        } else {
                            assert(name_lt(names[i as int], names[k]));
                        }
                    }
                    assert forall|x: Seq<char>| #[trigger]
                        after.contains(x) <==> names.take(i + 1).contains(x)
                            && !crate::name::is_gap_name(x) by {
                        lemma_take_contains(names, i as int, x);
                        if after.contains(x) {
                            let a = choose|a: int| 0 <= a < after.len() && after[a] == x;
                            if a < before.len() {
                                assert(before[a] == x);
                                assert(before.contains(x));
                            }
                        }
                        if before.contains(x) {
                            let a = choose|a: int| 0 <= a < before.len() && before[a] == x;
                            assert(after[a] == x);
                        }
                        if x == names[i as int] {
                            assert(after[before.len() as int] == x);
                        }
                    }
                }
            } else {
                proof {
                    assert forall|x: Seq<char>| #[trigger]
                        before.contains(x) <==> names.take(i + 1).contains(x)
                            && !crate::name::is_gap_name(x) by {
                        lemma_take_contains(names, i as int, x);
                    }
                }
            }
            i = i + 1;
        }
        proof {
            self.lemma_names();
            assert(names.take(i as int) =~= names);
            assert(r.deep_view().to_set() =~= self@.structural_variables());
            lemma_sorted_names(r.deep_view());
        }
        r
    }

    /// The kept terms are one variable with the coefficient one, and the
    /// constant is zero.
    spec fn unit_shape(self) -> bool {
        self.constant@.is_zero() && self.terms@.len() == 1 && self.terms@[0].coefficient@
            == Rational::one()
    }

    proof fn lemma_unit_shape(self)
        requires
            self.wf(),
        ensures
            self.unit_shape() <==> self@.is_unit_variable(),
            self.unit_shape() ==> self@.coefficients.dom().contains(self.terms@[0].name@),
    {
        self.lemma_names();
        self.names().unique_seq_to_set();
        lemma_integer(1);
        lemma_integer(0);
        if self.unit_shape() {
            let n = self.names()[0];
            assert(n == self.terms@[0].name@);
            assert(self.values()[0] == self.terms@[0].coefficient@);
            assert(self@.coefficients.dom().contains(n));
            lemma_zero_unique(self.constant@);
            assert(self@.coefficients =~= Map::empty().insert(n, Rational::one())) by {
                assert forall|m: Seq<char>| self@.coefficients.dom().contains(m) implies m == n by {
                    let k = choose|k: int| 0 <= k < self.names().len() && self.names()[k] == m;
                }
            }
        }
        if self@.is_unit_variable() {
            let n = choose|n: Seq<char>| #[trigger]
                self@.coefficients.dom().contains(n) && self@.coefficients =~= Map::empty().insert(
                    n,
                    Rational::one(),
                );
            assert(self@.coefficients.dom() =~= set![n]);
            assert(self.names().len() == 1);
            assert(self.names()[0] == n) by {
                assert(self@.coefficients.dom().contains(self.names()[0]));
            }
            assert(self.values()[0] == self.terms@[0].coefficient@);
            assert(self@.coefficients[self.names()[0]] == self.values()[0]);
        }
    }

    /// Whether the kept terms are one variable with the coefficient one
    /// and the constant is zero.
    fn is_unit(&self) -> (b: bool)
        ensures
            b == self.unit_shape(),
    {
        proof {
            lemma_integer(1);
        }
        self.constant.is_zero() && self.terms.len() == 1 && self.terms[0].coefficient.numerator()
            == 1 && self.terms[0].coefficient.denominator() == 1
    }

    /// Whether the function is one variable with the coefficient one.
    pub fn is_one_normalized_var(&self) -> (b: bool)
        ensures
            b == self@.is_unit_variable(),
    {
        proof {
            use_type_invariant(self);
            self.lemma_unit_shape();
        }
        self.is_unit()
    }

    /// The variable, where the function is one variable with the
    /// coefficient one.
    pub fn name_single_variable(&self) -> (r: Option<Variable>)
        ensures
            match r {
                Some(v) => self@.is_unit_variable() && self@.coefficients.dom().contains(v@),
                None => !self@.is_unit_variable(),
            },
    {
        proof {
            use_type_invariant(self);
            self.lemma_unit_shape();
        }
        if self.is_unit() {
            Some(self.terms[0].name.clone())
        } else {
            None
        }
    }
}

} // verus!
