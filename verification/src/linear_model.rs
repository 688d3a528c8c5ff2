//! The mathematical model of a linear function: a constant and a finite
//! map from variable names to coefficients, none of them zero. A name that
//! the map does not hold has the coefficient zero.

use crate::name::{
    is_gap_name, lemma_name_lt_asymmetric, lemma_name_lt_transitive, name_le, name_lt,
};
use crate::rational::{
    lemma_add_zero, lemma_fraction_wf, lemma_integer, lemma_neg, lemma_ranking, lemma_zero_unique,
    Rational,
};
use vstd::prelude::*;
use vstd::set_lib::lemma_len_subset;

verus! {

/// A linear function as a mathematical value.
pub struct LinearModel {
    pub constant: Rational,
    pub coefficients: Map<Seq<char>, Rational>,
}

impl LinearModel {
    /// The constant and the coefficients are well formed, and the map
    /// holds finitely many names, none with the coefficient zero.
    pub open spec fn wf(self) -> bool {
        &&& self.constant.wf()
        &&& self.coefficients.dom().finite()
        &&& forall|n: Seq<char>| #[trigger]
            self.coefficients.dom().contains(n) ==> self.coefficients[n].wf()
                && !self.coefficients[n].is_zero()
    }

    /// The names with a coefficient other than zero.
    pub open spec fn variables(self) -> Set<Seq<char>> {
        self.coefficients.dom()
    }

    /// The coefficient of a name; zero where the map does not hold it.
    pub open spec fn coefficient(self, name: Seq<char>) -> Rational {
        if self.coefficients.dom().contains(name) {
            self.coefficients[name]
        } else {
            Rational::zero()
        }
    }

    /// No part of the function is the undefined value.
    pub open spec fn defined(self) -> bool {
        &&& self.constant.defined()
        &&& forall|n: Seq<char>| #[trigger]
            self.coefficients.dom().contains(n) ==> self.coefficients[n].defined()
    }

    /// The function with the given constant whose coefficient at each name
    /// of `support` is `f` of that name, and zero elsewhere.
    pub open spec fn build(
        constant: Rational,
        support: Set<Seq<char>>,
        f: spec_fn(Seq<char>) -> Rational,
    ) -> LinearModel {
        LinearModel {
            constant,
            coefficients: Map::new(
                |n: Seq<char>| support.contains(n) && !f(n).is_zero(),
                |n: Seq<char>| f(n),
            ),
        }
    }

    pub open spec fn zero() -> LinearModel {
        LinearModel { constant: Rational::zero(), coefficients: Map::empty() }
    }

    pub open spec fn constant_only(constant: Rational) -> LinearModel {
        LinearModel { constant, coefficients: Map::empty() }
    }

    /// The same function but for the coefficient of `name`, which becomes
    /// `value`.
    pub open spec fn with_coefficient(self, name: Seq<char>, value: Rational) -> LinearModel {
        LinearModel {
            constant: self.constant,
            coefficients: if value.is_zero() {
                self.coefficients.remove(name)
            } else {
                self.coefficients.insert(name, value)
            },
        }
    }

    pub open spec fn with_constant(self, constant: Rational) -> LinearModel {
        LinearModel { constant, coefficients: self.coefficients }
    }

    /// The function `value * name`.
    pub open spec fn single(name: Seq<char>, value: Rational) -> LinearModel {
        Self::zero().with_coefficient(name, value)
    }

    /// The function that `pairs` describe over the constant and the
    /// coefficients of `self`: each pair sets the coefficient of its name,
    /// a later pair replacing an earlier one of the same name.
    pub open spec fn assign_all(self, pairs: Seq<(Seq<char>, Rational)>) -> LinearModel
        decreases pairs.len(),
    {
        if pairs.len() == 0 {
            self
        } else {
            self.assign_all(pairs.drop_last()).with_coefficient(pairs.last().0, pairs.last().1)
        }
    }

    pub open spec fn plus(self, other: LinearModel) -> LinearModel {
        Self::build(
            self.constant.add(other.constant),
            self.coefficients.dom().union(other.coefficients.dom()),
            |n: Seq<char>| self.coefficient(n).add(other.coefficient(n)),
        )
    }

    pub open spec fn minus(self, other: LinearModel) -> LinearModel {
        Self::build(
            self.constant.sub(other.constant),
            self.coefficients.dom().union(other.coefficients.dom()),
            |n: Seq<char>| self.coefficient(n).sub(other.coefficient(n)),
        )
    }

    pub open spec fn negated(self) -> LinearModel {
        Self::build(
            self.constant.neg(),
            self.coefficients.dom(),
            |n: Seq<char>| self.coefficient(n).neg(),
        )
    }

    pub open spec fn scaled_by(self, factor: Rational) -> LinearModel {
        Self::build(
            self.constant.mul(factor),
            self.coefficients.dom(),
            |n: Seq<char>| self.coefficient(n).mul(factor),
        )
    }

    pub open spec fn divided_by(self, divisor: Rational) -> LinearModel {
        Self::build(
            self.constant.div(divisor),
            self.coefficients.dom(),
            |n: Seq<char>| self.coefficient(n).div(divisor),
        )
    }

    /// The function with `replacement` put in the place of the variable
    /// `name`: the term of `name` leaves, and its coefficient times
    /// `replacement` is added. The function itself where `name` has the
    /// coefficient zero.
    pub open spec fn substitute(self, name: Seq<char>, replacement: LinearModel) -> LinearModel {
        if self.coefficients.dom().contains(name) {
            self.with_coefficient(name, Rational::zero()).plus(
                replacement.scaled_by(self.coefficients[name]),
            )
        } else {
            self
        }
    }

    /// The function divided by its coefficient of `name`, which then is
    /// one; the function itself where that coefficient is zero.
    pub open spec fn scale_to_unit_coefficient(self, name: Seq<char>) -> LinearModel {
        if self.coefficients.dom().contains(name) {
            self.divided_by(self.coefficients[name])
        } else {
            self
        }
    }

    /// The function solved for `name`: where `self` is
    /// `c * name + rest`, the function `-rest / c - name`, which is zero
    /// exactly where `self` is. The function itself where `c` is zero.
    pub open spec fn normalize(self, name: Seq<char>) -> LinearModel {
        if self.coefficients.dom().contains(name) {
            self.divided_by(self.coefficients[name]).negated().with_coefficient(
                name,
                Rational::one().neg(),
            )
        } else {
            self
        }
    }

    /// The variables that are not slack variables.
    pub open spec fn structural_variables(self) -> Set<Seq<char>> {
        Set::new(|n: Seq<char>| self.coefficients.dom().contains(n) && !is_gap_name(n))
    }

    /// The constant plus, for each of `names` in turn, its coefficient
    /// times its value.
    pub open spec fn partial_sum(
        self,
        names: Seq<Seq<char>>,
        valuation: Seq<(Seq<char>, Rational)>,
    ) -> Rational
        decreases names.len(),
    {
        if names.len() == 0 {
            self.constant
        } else {
            self.partial_sum(names.drop_last(), valuation).add(
                self.coefficient(names.last()).mul(value_in(valuation, names.last())),
            )
        }
    }

    /// The value of the function where each variable has the value that
    /// `valuation` gives it: the constant plus the terms, added in the
    /// lexicographic order of their variables.
    pub open spec fn evaluate(self, valuation: Seq<(Seq<char>, Rational)>) -> Rational {
        self.partial_sum(sorted_names(self.coefficients.dom()), valuation)
    }

    /// The function is one variable with the coefficient one.
    pub open spec fn is_unit_variable(self) -> bool {
        &&& self.constant == Rational::zero()
        &&& exists|n: Seq<char>| #[trigger]
            self.coefficients.dom().contains(n) && self.coefficients =~= Map::empty().insert(
                n,
                Rational::one(),
            )
    }

    /// No coefficient is greater than zero.
    pub open spec fn no_positive_coefficient(self) -> bool {
        forall|n: Seq<char>| #[trigger]
            self.coefficients.dom().contains(n) ==> !self.coefficients[n].is_positive()
    }

    /// `name` is the first, in lexicographic order, of the names with a
    /// coefficient greater than zero.
    pub open spec fn is_first_positive(self, name: Seq<char>) -> bool {
        &&& self.coefficient(name).is_positive()
        &&& forall|m: Seq<char>| #[trigger]
            self.coefficient(m).is_positive() ==> name_le(name, m)
    }

    /// `name` is the variable that enters the basis where the function is
    /// the objective: by Bland's rule the first variable with a
    /// coefficient greater than zero, else the first of those with the
    /// greatest coefficient, where that is greater than zero.
    pub open spec fn is_entering(self, use_bland_rule: bool, name: Seq<char>) -> bool {
        if use_bland_rule {
            self.is_first_positive(name)
        } else {
            self.is_greatest(name) && self.coefficient(name).is_positive()
        }
    }

    /// The variable that enters the basis, if there is one.
    pub open spec fn entering_variable(self, use_bland_rule: bool) -> Option<Seq<char>> {
        if exists|n: Seq<char>| self.is_entering(use_bland_rule, n) {
            Some(choose|n: Seq<char>| self.is_entering(use_bland_rule, n))
        } else {
            None
        }
    }

    /// `name` has a coefficient that none ranks above, and is the first,
    /// in lexicographic order, of the names with such a coefficient.
    pub open spec fn is_greatest(self, name: Seq<char>) -> bool {
        &&& self.coefficients.dom().contains(name)
        &&& forall|m: Seq<char>| #[trigger]
            self.coefficients.dom().contains(m) ==> !self.coefficients[name].ranks_below(
                self.coefficients[m],
            )
        &&& forall|m: Seq<char>| #[trigger]
            self.coefficients.dom().contains(m) && !self.coefficients[m].ranks_below(
                self.coefficients[name],
            ) ==> name_le(name, m)
    }
}

/// The value that a valuation gives to a name: that of the last pair with
/// the name, and zero where there is none.
pub open spec fn value_in(valuation: Seq<(Seq<char>, Rational)>, name: Seq<char>) -> Rational
    decreases valuation.len(),
{
    if valuation.len() == 0 {
        Rational::zero()
    } else if valuation.last().0 == name {
        valuation.last().1
    } else {
        value_in(valuation.drop_last(), name)
    }
}

/// At most one variable enters the basis, and none where no coefficient is
/// greater than zero.
pub proof fn lemma_entering_unique(m: LinearModel, use_bland_rule: bool, a: Seq<char>, b: Seq<char>)
    requires
        m.is_entering(use_bland_rule, a),
    ensures
        m.is_entering(use_bland_rule, b) ==> a == b,
        m.entering_variable(use_bland_rule) == Some(a),
        !m.no_positive_coefficient(),
{
    assert(m.coefficients.dom().contains(a));
    if m.is_entering(use_bland_rule, b) {
        lemma_name_lt_asymmetric(a, b);
        assert(m.coefficients.dom().contains(b));
        if use_bland_rule {
            assert(name_le(a, b));
            assert(name_le(b, a));
        } else {
            assert(name_le(a, b));
            assert(name_le(b, a));
        }
    }
    let c = choose|n: Seq<char>| m.is_entering(use_bland_rule, n);
    assert(m.is_entering(use_bland_rule, c));
    lemma_name_lt_asymmetric(a, c);
    assert(m.coefficients.dom().contains(c));
    assert(name_le(a, c));
    assert(name_le(c, a));
}

/// Where no coefficient is greater than zero, no variable enters.
pub proof fn lemma_entering_none(m: LinearModel, use_bland_rule: bool)
    requires
        m.no_positive_coefficient(),
    ensures
        m.entering_variable(use_bland_rule) is None,
{
    assert forall|n: Seq<char>| !m.is_entering(use_bland_rule, n) by {
        if m.is_entering(use_bland_rule, n) {
            assert(m.coefficients.dom().contains(n));
        }
    }
}

/// Among finitely many names of a function, one has a coefficient that
/// none of the others ranks above.
proof fn lemma_greatest_among(m: LinearModel, s: Set<Seq<char>>)
    requires
        m.wf(),
        s.finite(),
        s.len() > 0,
        s.subset_of(m.coefficients.dom()),
    ensures
        exists|a: Seq<char>|
            s.contains(a) && forall|b: Seq<char>| #[trigger]
                s.contains(b) ==> !m.coefficients[a].ranks_below(m.coefficients[b]),
    decreases s.len(),
{
    let x = s.choose();
    let rest = s.remove(x);
    assert(m.coefficients.dom().contains(x));
    lemma_ranking(m.coefficients[x], m.coefficients[x], m.coefficients[x]);
    if rest.len() == 0 {
        assert forall|b: Seq<char>| #[trigger] s.contains(b) implies !m.coefficients[x].ranks_below(
            m.coefficients[b],
        ) by {
            if b != x {
                assert(rest.contains(b));
            }
        }
    } else {
        lemma_greatest_among(m, rest);
        let a = choose|a: Seq<char>|
            rest.contains(a) && forall|b: Seq<char>| #[trigger]
                rest.contains(b) ==> !m.coefficients[a].ranks_below(m.coefficients[b]);
        assert(m.coefficients.dom().contains(a));
        if m.coefficients[a].ranks_below(m.coefficients[x]) {
            assert forall|b: Seq<char>| #[trigger]
                s.contains(b) implies !m.coefficients[x].ranks_below(m.coefficients[b]) by {
                if b != x {
                    assert(rest.contains(b));
                    assert(m.coefficients.dom().contains(b));
                    lemma_ranking(m.coefficients[a], m.coefficients[x], m.coefficients[b]);
                }
            }
        } else {
            assert forall|b: Seq<char>| #[trigger]
                s.contains(b) implies !m.coefficients[a].ranks_below(m.coefficients[b]) by {
                if b != x {
                    assert(rest.contains(b));
                }
            }
            assert(s.contains(a));
        }
    }
}

/// A function with a coefficient greater than zero has an entering
/// variable by either rule.
pub proof fn lemma_entering_exists(m: LinearModel, use_bland_rule: bool)
    requires
        m.wf(),
        !m.no_positive_coefficient(),
    ensures
        m.entering_variable(use_bland_rule) is Some,
{
    let p = choose|p: Seq<char>| #[trigger]
        m.coefficients.dom().contains(p) && m.coefficients[p].is_positive();
    if use_bland_rule {
        let positive = Set::new(
            |n: Seq<char>| m.coefficients.dom().contains(n) && m.coefficients[n].is_positive(),
        );
        assert(positive.subset_of(m.coefficients.dom()));
        lemma_len_subset(positive, m.coefficients.dom());
        assert(positive.contains(p));
        lemma_least_exists(positive);
        let n = choose|n: Seq<char>| is_least(positive, n);
        assert(m.is_first_positive(n)) by {
            assert forall|x: Seq<char>| #[trigger]
                m.coefficient(x).is_positive() implies name_le(n, x) by {
                assert(positive.contains(x));
            }
        }
        assert(m.is_entering(use_bland_rule, n));
    } else {
        lemma_greatest_among(m, m.coefficients.dom());
        let greatest = Set::new(
            |a: Seq<char>|
                m.coefficients.dom().contains(a) && forall|b: Seq<char>| #[trigger]
                    m.coefficients.dom().contains(b) ==> !m.coefficients[a].ranks_below(
                        m.coefficients[b],
                    ),
        );
        assert(greatest.subset_of(m.coefficients.dom()));
        lemma_len_subset(greatest, m.coefficients.dom());
        let a = choose|a: Seq<char>|
            m.coefficients.dom().contains(a) && forall|b: Seq<char>| #[trigger]
                m.coefficients.dom().contains(b) ==> !m.coefficients[a].ranks_below(
                    m.coefficients[b],
                );
        assert(greatest.contains(a));
        lemma_least_exists(greatest);
        let n = choose|n: Seq<char>| is_least(greatest, n);
        assert(greatest.contains(n));
        assert(m.is_greatest(n)) by {
            assert forall|b: Seq<char>| #[trigger]
                m.coefficients.dom().contains(b) && !m.coefficients[b].ranks_below(
                    m.coefficients[n],
                ) implies name_le(n, b) by {
                assert forall|c: Seq<char>| #[trigger]
                    m.coefficients.dom().contains(c) implies !m.coefficients[b].ranks_below(
                    m.coefficients[c],
                ) by {
                    lemma_ranking(m.coefficients[b], m.coefficients[n], m.coefficients[c]);
                }
                assert(greatest.contains(b));
            }
        }
        lemma_not_positive_below_contrary(m.coefficients[n], m.coefficients[p]);
        assert(m.is_entering(use_bland_rule, n));
    }
}

/// A value that does not rank below one that is greater than zero is
/// greater than zero.
proof fn lemma_not_positive_below_contrary(greatest: Rational, other: Rational)
    requires
        greatest.wf(),
        other.wf(),
        other.is_positive(),
        !greatest.ranks_below(other),
    ensures
        greatest.is_positive(),
{
    if !greatest.is_positive() {
        crate::rational::lemma_not_positive_below(greatest, other);
    }
}

/// `n` is in `s` and comes before every other name of `s`.
pub open spec fn is_least(s: Set<Seq<char>>, n: Seq<char>) -> bool {
    s.contains(n) && forall|m: Seq<char>| #[trigger] s.contains(m) ==> name_le(n, m)
}

/// The names of a finite set in lexicographic order.
pub open spec fn sorted_names(s: Set<Seq<char>>) -> Seq<Seq<char>>
    decreases s.len(),
    when s.finite()
{
    let n = choose|n: Seq<char>| is_least(s, n);
    if s.len() == 0 || !s.contains(n) {
        Seq::empty()
    } else {
        seq![n] + sorted_names(s.remove(n))
    }
}

/// Each name comes strictly before every later one.
pub open spec fn strictly_sorted(names: Seq<Seq<char>>) -> bool {
    forall|i: int, j: int| 0 <= i < j < names.len() ==> name_lt(#[trigger] names[i], #[trigger] names[j])
}

/// A strictly sorted sequence holds no name twice.
pub proof fn lemma_sorted_no_duplicates(names: Seq<Seq<char>>)
    requires
        strictly_sorted(names),
    ensures
        names.no_duplicates(),
{
    assert forall|i: int, j: int| 0 <= i < names.len() && 0 <= j < names.len() && i != j implies names[i]
        != names[j] by {
        lemma_name_lt_asymmetric(names[i], names[j]);
        if i < j {
            assert(name_lt(names[i], names[j]));
        } else {
            assert(name_lt(names[j], names[i]));
        }
    }
}

/// A name that falls between two neighbours of a sorted sequence is not in
/// it.
pub proof fn lemma_absent(names: Seq<Seq<char>>, name: Seq<char>, i: int)
    requires
        strictly_sorted(names),
        0 <= i <= names.len(),
        forall|j: int| 0 <= j < i ==> name_lt(#[trigger] names[j], name),
        i < names.len() ==> name_lt(name, names[i]),
    ensures
        !names.contains(name),
        strictly_sorted(names.insert(i, name)),
{
    assert forall|j: int| i <= j < names.len() implies name_lt(name, #[trigger] names[j]) by {
        if j > i {
            assert(name_lt(names[i], names[j]));
            lemma_name_lt_transitive(name, names[i], names[j]);
        }
    }
    assert forall|j: int| 0 <= j < names.len() implies names[j] != name by {
        lemma_name_lt_asymmetric(names[j], name);
        if j < i {
            assert(name_lt(names[j], name));
        } else {
            assert(name_lt(name, names[j]));
        }
    }
    let names2 = names.insert(i, name);
    assert forall|a: int, b: int| 0 <= a < b < names2.len() implies name_lt(
        #[trigger] names2[a],
        #[trigger] names2[b],
    ) by {
        if b < i {
            assert(name_lt(names[a], names[b]));
        } else if b == i {
            assert(name_lt(names[a], name));
        } else if a < i {
            assert(name_lt(names[a], names[b - 1]));
        } else if a == i {
            assert(name_lt(name, names[b - 1]));
        } else {
            assert(name_lt(names[a - 1], names[b - 1]));
        }
    }
}

/// A strictly sorted sequence is the sorted listing of its set of names.
pub proof fn lemma_sorted_names(names: Seq<Seq<char>>)
    requires
        strictly_sorted(names),
    ensures
        sorted_names(names.to_set()) == names,
    decreases names.len(),
{
    let s = names.to_set();
    vstd::seq_lib::seq_to_set_is_finite(names);
    lemma_sorted_no_duplicates(names);
    names.unique_seq_to_set();
    if names.len() == 0 {
        assert(sorted_names(s) =~= names);
    } else {
        let first = names[0];
        assert(s.contains(first));
        assert(is_least(s, first)) by {
            assert forall|m: Seq<char>| #[trigger] s.contains(m) implies name_le(first, m) by {
                let k = choose|k: int| 0 <= k < names.len() && names[k] == m;
                if k > 0 {
                    assert(name_lt(names[0], names[k]));
                }
            }
        }
        let n = choose|n: Seq<char>| is_least(s, n);
        assert(is_least(s, n));
        assert(n == first) by {
            lemma_name_lt_asymmetric(n, first);
            assert(name_le(n, first));
            assert(name_le(first, n));
        }
        let rest = names.skip(1);
        assert(strictly_sorted(rest)) by {
            assert forall|i: int, j: int| 0 <= i < j < rest.len() implies name_lt(
                #[trigger] rest[i],
                #[trigger] rest[j],
            ) by {
                assert(name_lt(names[i + 1], names[j + 1]));
            }
        }
        assert(rest.to_set() =~= s.remove(first)) by {
            assert forall|m: Seq<char>| rest.to_set().contains(m) <==> s.remove(first).contains(
                m,
            ) by {
                if rest.to_set().contains(m) {
                    let k = choose|k: int| 0 <= k < rest.len() && rest[k] == m;
                    assert(names[k + 1] == m);
                    assert(names[0] != names[k + 1]);
                }
                if s.remove(first).contains(m) {
                    let k = choose|k: int| 0 <= k < names.len() && names[k] == m;
                    assert(k != 0);
                    assert(rest[k - 1] == m);
                }
            }
        }
        lemma_sorted_names(rest);
        assert(names =~= seq![first] + rest);
    }
}

/// The sorted listing of a finite set is strictly sorted and holds
/// exactly the names of the set.
pub proof fn lemma_sorted_names_of(s: Set<Seq<char>>)
    requires
        s.finite(),
    ensures
        strictly_sorted(sorted_names(s)),
        sorted_names(s).to_set() == s,
        sorted_names(s).len() == s.len(),
    decreases s.len(),
{
    if s.len() == 0 {
        assert(s =~= Set::empty());
        assert(sorted_names(s).to_set() =~= s);
    } else {
        lemma_least_exists(s);
        let n = choose|n: Seq<char>| is_least(s, n);
        let rest = s.remove(n);
        lemma_sorted_names_of(rest);
        let tail = sorted_names(rest);
        let all = sorted_names(s);
        assert(all == seq![n] + tail);
        assert forall|i: int, j: int| 0 <= i < j < all.len() implies name_lt(
            #[trigger] all[i],
            #[trigger] all[j],
        ) by {
            if i == 0 {
                assert(tail[j - 1] == all[j]);
                assert(tail.to_set().contains(tail[j - 1]));
                assert(s.contains(all[j]));
                assert(name_le(n, all[j]));
            } else {
                assert(name_lt(tail[i - 1], tail[j - 1]));
            }
        }
        assert(all.to_set() =~= s) by {
            assert forall|m: Seq<char>| all.to_set().contains(m) <==> s.contains(m) by {
                if all.to_set().contains(m) {
                    let k = choose|k: int| 0 <= k < all.len() && all[k] == m;
                    if k > 0 {
                        assert(tail[k - 1] == m);
                        assert(tail.to_set().contains(m));
                    }
                }
                if s.contains(m) {
                    if m == n {
                        assert(all[0] == m);
                    } else {
                        assert(rest.contains(m));
                        assert(tail.to_set().contains(m));
                        let k = choose|k: int| 0 <= k < tail.len() && tail[k] == m;
                        assert(all[k + 1] == m);
                    }
                }
            }
        }
    }
}

/// A finite set of names that is not empty has a least name.
pub proof fn lemma_least_exists(s: Set<Seq<char>>)
    requires
        s.finite(),
        s.len() > 0,
    ensures
        exists|n: Seq<char>| is_least(s, n),
    decreases s.len(),
{
    let a = s.choose();
    let rest = s.remove(a);
    if rest.len() == 0 {
        assert forall|m: Seq<char>| #[trigger] s.contains(m) implies name_le(a, m) by {
            if m != a {
                assert(rest.contains(m));
            }
        }
        assert(is_least(s, a));
    } else {
        lemma_least_exists(rest);
        let b = choose|b: Seq<char>| is_least(rest, b);
        crate::name::lemma_name_lt_total(a, b);
        if name_lt(a, b) {
            assert forall|m: Seq<char>| #[trigger] s.contains(m) implies name_le(a, m) by {
                if m != a {
                    assert(rest.contains(m));
                    assert(name_le(b, m));
                    if b != m {
                        lemma_name_lt_transitive(a, b, m);
                    }
                }
            }
            assert(is_least(s, a));
        } else {
            assert forall|m: Seq<char>| #[trigger] s.contains(m) implies name_le(b, m) by {
                if m != a {
                    assert(rest.contains(m));
                }
            }
            assert(is_least(s, b));
        }
    }
}

/// The coefficient of every name is well formed.
pub proof fn lemma_coefficient_wf(m: LinearModel, n: Seq<char>)
    requires
        m.wf(),
    ensures
        m.coefficient(n).wf(),
        m.coefficients.dom().contains(n) <==> !m.coefficient(n).is_zero(),
{
    lemma_integer(0);
}

/// Two well-formed functions with the same constant and the same
/// coefficient at every name are the same function.
pub proof fn lemma_extensional(a: LinearModel, b: LinearModel)
    requires
        a.wf(),
        b.wf(),
        a.constant == b.constant,
        forall|n: Seq<char>| a.coefficient(n) == b.coefficient(n),
    ensures
        a == b,
{
    assert forall|n: Seq<char>| a.coefficients.dom().contains(n) <==> b.coefficients.dom().contains(
        n,
    ) by {
        lemma_coefficient_wf(a, n);
        lemma_coefficient_wf(b, n);
        assert(a.coefficient(n) == b.coefficient(n));
    }
    assert forall|n: Seq<char>| a.coefficients.dom().contains(n) implies a.coefficients[n]
        == b.coefficients[n] by {
        assert(a.coefficient(n) == b.coefficient(n));
    }
    assert(a.coefficients =~= b.coefficients);
}

/// What a built function holds, where `f` gives well-formed values on the
/// support.
pub proof fn lemma_build(
    constant: Rational,
    support: Set<Seq<char>>,
    f: spec_fn(Seq<char>) -> Rational,
)
    requires
        constant.wf(),
        support.finite(),
        forall|n: Seq<char>| support.contains(n) ==> (#[trigger] f(n)).wf(),
    ensures
        LinearModel::build(constant, support, f).wf(),
        LinearModel::build(constant, support, f).constant == constant,
        forall|n: Seq<char>|
            support.contains(n) ==> #[trigger] LinearModel::build(constant, support, f).coefficient(n)
                == f(n),
        forall|n: Seq<char>|
            !support.contains(n) ==> #[trigger] LinearModel::build(constant, support, f).coefficient(
                n,
            ) == Rational::zero(),
{
    let m = LinearModel::build(constant, support, f);
    assert(m.coefficients.dom().subset_of(support));
    lemma_len_subset(m.coefficients.dom(), support);
    assert forall|n: Seq<char>| support.contains(n) implies #[trigger] m.coefficient(n) == f(n) by {
        assert(f(n).wf());
        if f(n).is_zero() {
            lemma_zero_unique(f(n));
        }
    }
}

/// What a function holds after one coefficient was set.
pub proof fn lemma_with_coefficient(m: LinearModel, name: Seq<char>, value: Rational)
    requires
        m.wf(),
        value.wf(),
    ensures
        m.with_coefficient(name, value).wf(),
        m.with_coefficient(name, value).constant == m.constant,
        m.with_coefficient(name, value).coefficient(name) == value,
        forall|n: Seq<char>|
            n != name ==> #[trigger] m.with_coefficient(name, value).coefficient(n) == m.coefficient(
                n,
            ),
{
    if value.is_zero() {
        lemma_zero_unique(value);
    }
}

/// The sum holds at each name the sum of the coefficients.
pub proof fn lemma_plus(a: LinearModel, b: LinearModel)
    requires
        a.wf(),
        b.wf(),
    ensures
        a.plus(b).wf(),
        a.plus(b).constant == a.constant.add(b.constant),
        forall|n: Seq<char>| #[trigger]
            a.plus(b).coefficient(n) == a.coefficient(n).add(b.coefficient(n)),
{
    let f = |n: Seq<char>| a.coefficient(n).add(b.coefficient(n));
    let support = a.coefficients.dom().union(b.coefficients.dom());
    lemma_fraction_wf(
        a.constant.num * b.constant.den + b.constant.num * a.constant.den,
        a.constant.den * b.constant.den,
    );
    assert forall|n: Seq<char>| (#[trigger] f(n)).wf() by {
        lemma_fraction_wf(
            a.coefficient(n).num * b.coefficient(n).den + b.coefficient(n).num * a.coefficient(
                n,
            ).den,
            a.coefficient(n).den * b.coefficient(n).den,
        );
    }
    lemma_build(a.constant.add(b.constant), support, f);
    assert forall|n: Seq<char>| #[trigger]
        a.plus(b).coefficient(n) == a.coefficient(n).add(b.coefficient(n)) by {
        if !support.contains(n) {
            lemma_integer(0);
            lemma_add_zero(Rational::zero());
        } else {
            assert(a.plus(b).coefficient(n) == f(n));
        }
    }
}

/// The difference holds at each name the difference of the coefficients.
pub proof fn lemma_minus(a: LinearModel, b: LinearModel)
    requires
        a.wf(),
        b.wf(),
    ensures
        a.minus(b).wf(),
        a.minus(b).constant == a.constant.sub(b.constant),
        forall|n: Seq<char>| #[trigger]
            a.minus(b).coefficient(n) == a.coefficient(n).sub(b.coefficient(n)),
{
    let f = |n: Seq<char>| a.coefficient(n).sub(b.coefficient(n));
    let support = a.coefficients.dom().union(b.coefficients.dom());
    lemma_fraction_wf(
        a.constant.num * b.constant.neg().den + b.constant.neg().num * a.constant.den,
        a.constant.den * b.constant.neg().den,
    );
    assert forall|n: Seq<char>| (#[trigger] f(n)).wf() by {
        lemma_fraction_wf(
            a.coefficient(n).num * b.coefficient(n).neg().den + b.coefficient(n).neg().num
                * a.coefficient(n).den,
            a.coefficient(n).den * b.coefficient(n).neg().den,
        );
    }
    lemma_build(a.constant.sub(b.constant), support, f);
    assert forall|n: Seq<char>| #[trigger]
        a.minus(b).coefficient(n) == a.coefficient(n).sub(b.coefficient(n)) by {
        if !support.contains(n) {
            lemma_integer(0);
            lemma_add_zero(Rational::zero());
        } else {
            assert(a.minus(b).coefficient(n) == f(n));
        }
    }
}

/// The negated function holds at each name the negated coefficient.
pub proof fn lemma_negated(a: LinearModel)
    requires
        a.wf(),
    ensures
        a.negated().wf(),
        a.negated().constant == a.constant.neg(),
        forall|n: Seq<char>| #[trigger] a.negated().coefficient(n) == a.coefficient(n).neg(),
{
    let f = |n: Seq<char>| a.coefficient(n).neg();
    lemma_neg(a.constant);
    assert forall|n: Seq<char>| (#[trigger] f(n)).wf() by {
        lemma_integer(0);
        lemma_neg(a.coefficient(n));
    }
    lemma_build(a.constant.neg(), a.coefficients.dom(), f);
    assert forall|n: Seq<char>| #[trigger]
        a.negated().coefficient(n) == a.coefficient(n).neg() by {
        if a.coefficients.dom().contains(n) {
            assert(a.negated().coefficient(n) == f(n));
        }
    }
}

/// The scaled function holds at each name of `a` the scaled coefficient,
/// and zero elsewhere.
pub proof fn lemma_scaled_by(a: LinearModel, factor: Rational)
    requires
        a.wf(),
    ensures
        a.scaled_by(factor).wf(),
        a.scaled_by(factor).constant == a.constant.mul(factor),
        forall|n: Seq<char>|
            a.coefficients.dom().contains(n) ==> #[trigger] a.scaled_by(factor).coefficient(n)
                == a.coefficient(n).mul(factor),
        forall|n: Seq<char>|
            !a.coefficients.dom().contains(n) ==> #[trigger] a.scaled_by(factor).coefficient(n)
                == Rational::zero(),
{
    let f = |n: Seq<char>| a.coefficient(n).mul(factor);
    lemma_fraction_wf(a.constant.num * factor.num, a.constant.den * factor.den);
    assert forall|n: Seq<char>| (#[trigger] f(n)).wf() by {
        lemma_fraction_wf(a.coefficient(n).num * factor.num, a.coefficient(n).den * factor.den);
    }
    lemma_build(a.constant.mul(factor), a.coefficients.dom(), f);
    assert forall|n: Seq<char>|
        a.coefficients.dom().contains(n) implies #[trigger] a.scaled_by(factor).coefficient(n)
        == a.coefficient(n).mul(factor) by {
        assert(a.scaled_by(factor).coefficient(n) == f(n));
    }
}

/// The divided function holds at each name of `a` the divided
/// coefficient, and zero elsewhere.
pub proof fn lemma_divided_by(a: LinearModel, divisor: Rational)
    requires
        a.wf(),
    ensures
        a.divided_by(divisor).wf(),
        a.divided_by(divisor).constant == a.constant.div(divisor),
        forall|n: Seq<char>|
            a.coefficients.dom().contains(n) ==> #[trigger] a.divided_by(divisor).coefficient(n)
                == a.coefficient(n).div(divisor),
        forall|n: Seq<char>|
            !a.coefficients.dom().contains(n) ==> #[trigger] a.divided_by(divisor).coefficient(n)
                == Rational::zero(),
{
    let f = |n: Seq<char>| a.coefficient(n).div(divisor);
    lemma_div_wf(a.constant, divisor);
    assert forall|n: Seq<char>| (#[trigger] f(n)).wf() by {
        lemma_div_wf(a.coefficient(n), divisor);
    }
    lemma_build(a.constant.div(divisor), a.coefficients.dom(), f);
    assert forall|n: Seq<char>|
        a.coefficients.dom().contains(n) implies #[trigger] a.divided_by(divisor).coefficient(n)
        == a.coefficient(n).div(divisor) by {
        assert(a.divided_by(divisor).coefficient(n) == f(n));
    }
}

/// A substitution leaves a well-formed function.
pub proof fn lemma_substitute_wf(m: LinearModel, name: Seq<char>, replacement: LinearModel)
    requires
        m.wf(),
        replacement.wf(),
    ensures
        m.substitute(name, replacement).wf(),
{
    if m.coefficients.dom().contains(name) {
        lemma_integer(0);
        lemma_with_coefficient(m, name, Rational::zero());
        lemma_scaled_by(replacement, m.coefficients[name]);
        lemma_plus(
            m.with_coefficient(name, Rational::zero()),
            replacement.scaled_by(m.coefficients[name]),
        );
    }
}

/// A quotient is well formed.
pub proof fn lemma_div_wf(a: Rational, b: Rational)
    ensures
        a.div(b).wf(),
{
    lemma_fraction_wf(a.num * b.den, a.den * b.num);
    lemma_fraction_wf(-(a.num * b.den), -(a.den * b.num));
}

} // verus!
