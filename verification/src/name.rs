//! Variable names: their lexicographic order, and the reserved names of
//! the slack variables.

use crate::linear_model::{lemma_absent, strictly_sorted};
use vstd::prelude::*;
use vstd::string::StrSliceExecFns;
use vstd::string::StringExecFns;

verus! {

/// The name of a variable.
pub type Variable = String;

/// The character that starts the name of every slack variable. No name
/// read from text starts with it, since those are made of letters.
pub const GAP_VARIABLE_IDENTIFIER: char = '_';

/// `a` and `b` hold the same characters before position `k`.
pub open spec fn agree_before(a: Seq<char>, b: Seq<char>, k: int) -> bool {
    &&& 0 <= k <= a.len()
    &&& k <= b.len()
    &&& forall|j: int| 0 <= j < k ==> a[j] == b[j]
}

/// `a` comes strictly before `b` in lexicographic order: at the first
/// position where they differ `a` has ended or holds the smaller character.
pub open spec fn name_lt(a: Seq<char>, b: Seq<char>) -> bool {
    exists|k: int| #[trigger]
        agree_before(a, b, k) && k < b.len() && (k == a.len() || a[k] < b[k])
}

/// `a` comes before `b` or is `b`.
pub open spec fn name_le(a: Seq<char>, b: Seq<char>) -> bool {
    a == b || name_lt(a, b)
}

/// No name comes before itself, and no two names come before each other.
pub proof fn lemma_name_lt_asymmetric(a: Seq<char>, b: Seq<char>)
    ensures
        !(name_lt(a, b) && name_lt(b, a)),
        !name_lt(a, a),
{
    if name_lt(a, b) && name_lt(b, a) {
        let k = choose|k: int| #[trigger]
            agree_before(a, b, k) && k < b.len() && (k == a.len() || a[k] < b[k]);
        let l = choose|l: int| #[trigger]
            agree_before(b, a, l) && l < a.len() && (l == b.len() || b[l] < a[l]);
        if k < l {
            assert(b[k] == a[k]);
        } else if l < k {
            assert(a[l] == b[l]);
        }
    }
    if name_lt(a, a) {
        let k = choose|k: int| #[trigger]
            agree_before(a, a, k) && k < a.len() && (k == a.len() || a[k] < a[k]);
    }
}

/// The order is transitive.
pub proof fn lemma_name_lt_transitive(a: Seq<char>, b: Seq<char>, c: Seq<char>)
    requires
        name_lt(a, b),
        name_lt(b, c),
    ensures
        name_lt(a, c),
{
    let k = choose|k: int| #[trigger]
        agree_before(a, b, k) && k < b.len() && (k == a.len() || a[k] < b[k]);
    let l = choose|l: int| #[trigger]
        agree_before(b, c, l) && l < c.len() && (l == b.len() || b[l] < c[l]);
    let m = if k <= l {
        k
    } else {
        l
    };
    assert forall|j: int| 0 <= j < m implies a[j] == c[j] by {
        assert(a[j] == b[j]);
        assert(b[j] == c[j]);
    }
    assert(agree_before(a, c, m));
    if k < l {
        assert(b[k] == c[k]);
    } else if l < k {
        assert(a[l] == b[l]);
    }
}

/// Of two names, one comes before the other or they are the same.
pub proof fn lemma_name_lt_total(a: Seq<char>, b: Seq<char>)
    ensures
        name_lt(a, b) || a == b || name_lt(b, a),
{
    let k = first_difference(a, b, 0);
    lemma_first_difference(a, b, 0);
    assert(agree_before(a, b, k));
    assert(agree_before(b, a, k));
    if k == a.len() && k == b.len() {
        assert(a =~= b);
    } else if k < a.len() && k < b.len() {
        assert(a[k] != b[k]);
    }
}

/// The first position from `i` on at which `a` and `b` differ or one of
/// them ends.
pub open spec fn first_difference(a: Seq<char>, b: Seq<char>, i: int) -> int
    decreases a.len() - i,
{
    if 0 <= i < a.len() && i < b.len() && a[i] == b[i] {
        first_difference(a, b, i + 1)
    } else {
        i
    }
}

pub proof fn lemma_first_difference(a: Seq<char>, b: Seq<char>, i: int)
    requires
        0 <= i <= a.len(),
        i <= b.len(),
    ensures
        i <= first_difference(a, b, i) <= a.len(),
        first_difference(a, b, i) <= b.len(),
        forall|j: int| i <= j < first_difference(a, b, i) ==> a[j] == b[j],
        first_difference(a, b, i) < a.len() && first_difference(a, b, i) < b.len() ==> a[first_difference(
            a,
            b,
            i,
        )] != b[first_difference(a, b, i)],
    decreases a.len() - i,
{
    if i < a.len() && i < b.len() && a[i] == b[i] {
        lemma_first_difference(a, b, i + 1);
    }
}

/// How one name stands to another in lexicographic order.
#[derive(Clone, Copy, Debug, PartialEq, Eq, Structural)]
pub enum NameOrder {
    Before,
    Same,
    After,
}

/// Compares two names character by character.
pub fn compare_names(a: &str, b: &str) -> (r: NameOrder)
    ensures
        r == NameOrder::Before <==> name_lt(a@, b@),
        r == NameOrder::Same <==> a@ == b@,
        r == NameOrder::After <==> name_lt(b@, a@),
{
    let la: usize = a.unicode_len();
    let lb: usize = b.unicode_len();
    let mut i: usize = 0;
    proof {
        lemma_name_lt_asymmetric(a@, b@);
        lemma_name_lt_asymmetric(a@, a@);
    }
    while i < la && i < lb
        invariant
            la == a@.len(),
            lb == b@.len(),
            agree_before(a@, b@, i as int),
        decreases la - i,
    {
        let ca: char = a.get_char(i);
        let cb: char = b.get_char(i);
        if ca < cb {
            return NameOrder::Before;
        }
        if cb < ca {
            assert(agree_before(b@, a@, i as int));
            return NameOrder::After;
        }
        i = i + 1;
    }
    if i < lb {
        NameOrder::Before
    } else if i < la {
        assert(agree_before(b@, a@, i as int));
        NameOrder::After
    } else {
        assert(a@ =~= b@);
        NameOrder::Same
    }
}

/// A name is that of a slack variable when it starts with the reserved
/// character.
pub open spec fn is_gap_name(name: Seq<char>) -> bool {
    name.len() > 0 && name[0] == GAP_VARIABLE_IDENTIFIER
}

pub fn is_gap_variable(name: &str) -> (b: bool)
    ensures
        b == is_gap_name(name@),
{
    if name.unicode_len() == 0 {
        false
    } else {
        name.get_char(0) == GAP_VARIABLE_IDENTIFIER
    }
}

/// The character of a decimal digit.
pub open spec fn digit_char(d: int) -> char {
    if d == 0 {
        '0'
    } else if d == 1 {
        '1'
    } else if d == 2 {
        '2'
    } else if d == 3 {
        '3'
    } else if d == 4 {
        '4'
    } else if d == 5 {
        '5'
    } else if d == 6 {
        '6'
    } else if d == 7 {
        '7'
    } else if d == 8 {
        '8'
    } else {
        '9'
    }
}

/// The decimal digits of a natural number, without leading zeros.
pub open spec fn decimal(n: nat) -> Seq<char>
    decreases n,
{
    if n < 10 {
        seq![digit_char(n as int)]
    } else {
        decimal(n / 10).push(digit_char((n % 10) as int))
    }
}

/// The text of one decimal digit.
fn digit_text(d: u64) -> (r: &'static str)
    requires
        d < 10,
    ensures
        r@ == seq![digit_char(d as int)],
{
    proof {
        reveal_strlit("0");
        reveal_strlit("1");
        reveal_strlit("2");
        reveal_strlit("3");
        reveal_strlit("4");
        reveal_strlit("5");
        reveal_strlit("6");
        reveal_strlit("7");
        reveal_strlit("8");
        reveal_strlit("9");
    }
    let r = if d == 0 {
        "0"
    } else if d == 1 {
        "1"
    } else if d == 2 {
        "2"
    } else if d == 3 {
        "3"
    } else if d == 4 {
        "4"
    } else if d == 5 {
        "5"
    } else if d == 6 {
        "6"
    } else if d == 7 {
        "7"
    } else if d == 8 {
        "8"
    } else {
        "9"
    };
    assert(r@ =~= seq![digit_char(d as int)]);
    r
}

/// Appends the decimal digits of `n` to `text`.
pub fn push_decimal(text: &mut String, n: u64)
    ensures
        final(text)@ == old(text)@ + decimal(n as nat),
    decreases n,
{
    if n >= 10 {
        push_decimal(text, n / 10);
    }
    text.append(digit_text(n % 10));
    assert(final(text)@ =~= old(text)@ + decimal(n as nat));
}

/// The name of the slack variable with the given number: the reserved
/// character, then the number in decimal.
pub open spec fn gap_name(index: nat) -> Seq<char> {
    seq![GAP_VARIABLE_IDENTIFIER] + decimal(index)
}

pub fn gap_variable_name(index: usize) -> (name: Variable)
    ensures
        name@ == gap_name(index as nat),
        is_gap_name(name@),
{
    proof {
        reveal_strlit("_");
    }
    let mut name = String::from_str("_");
    assert(name@ =~= seq![GAP_VARIABLE_IDENTIFIER]);
    push_decimal(&mut name, index as u64);
    name
}

/// Where `name` stands in a sorted list: the index at which the list
/// holds it, or else the index at which it would be inserted.
fn name_position(names: &Vec<Variable>, name: &str) -> (r: (usize, bool))
    ensures
        r.0 <= names@.len(),
        forall|j: int| 0 <= j < r.0 ==> name_lt(#[trigger] names.deep_view()[j], name@),
        r.1 ==> r.0 < names@.len() && names.deep_view()[r.0 as int] == name@,
        !r.1 && r.0 < names@.len() ==> name_lt(name@, names.deep_view()[r.0 as int]),
{
    let mut i: usize = 0;
    while i < names.len()
        invariant
            i <= names@.len(),
            forall|j: int| 0 <= j < i ==> name_lt(#[trigger] names.deep_view()[j], name@),
        decreases names@.len() - i,
    {
        assert(names.deep_view()[i as int] == names@[i as int]@);
        match compare_names(names[i].as_str(), name) {
            NameOrder::Before => {
                i = i + 1;
            },
            NameOrder::Same => {
                return (i, true);
            },
            NameOrder::After => {
                return (i, false);
            },
        }
    }
    (i, false)
}

/// Puts `name` into a sorted list of names, unless the list holds it.
pub fn insert_name(names: &mut Vec<Variable>, name: Variable)
    requires
        strictly_sorted(old(names).deep_view()),
    ensures
        strictly_sorted(final(names).deep_view()),
        final(names).deep_view().to_set() == old(names).deep_view().to_set().insert(name@),
{
    let ghost before = names.deep_view();
    let (i, found) = name_position(names, name.as_str());
    if found {
        proof {
            assert(before.to_set().insert(name@) =~= before.to_set());
        }
        return ;
    }
    proof {
        lemma_absent(before, name@, i as int);
    }
    names.insert(i, name);
    proof {
        let after = names.deep_view();
        assert(after =~= before.insert(i as int, name@));
        assert(after.to_set() =~= before.to_set().insert(name@)) by {
            assert forall|x: Seq<char>| after.to_set().contains(x) <==> before.to_set().insert(
                name@,
            ).contains(x) by {
                if after.contains(x) {
                    let k = choose|k: int| 0 <= k < after.len() && after[k] == x;
                    if k < i {
                        assert(before[k] == x);
                    } else if k > i {
                        assert(before[k - 1] == x);
                    }
                }
                if before.contains(x) {
                    let k = choose|k: int| 0 <= k < before.len() && before[k] == x;
                    if k < i {
                        assert(after[k] == x);
                    } else {
                        assert(after[k + 1] == x);
                    }
                }
                if x == name@ {
                    assert(after[i as int] == x);
                }
            }
        }
    }
}

/// The names of two lists in one sorted list, each once.
pub fn merge_names(first: Vec<Variable>, second: &Vec<Variable>) -> (r: Vec<Variable>)
    requires
        strictly_sorted(first.deep_view()),
    ensures
        strictly_sorted(r.deep_view()),
        r.deep_view().to_set() == first.deep_view().to_set().union(second.deep_view().to_set()),
{
    let mut r = first;
    let ghost others = second.deep_view();
    let mut i: usize = 0;
    proof {
        assert(others.take(0).to_set() =~= Set::<Seq<char>>::empty());
        assert(first.deep_view().to_set().union(Set::empty()) =~= first.deep_view().to_set());
    }
    while i < second.len()
        invariant
            i <= second@.len(),
            others == second.deep_view(),
            strictly_sorted(r.deep_view()),
            r.deep_view().to_set() == first.deep_view().to_set().union(
                others.take(i as int).to_set(),
            ),
        decreases second@.len() - i,
    {
        proof {
            assert(others[i as int] == second@[i as int]@);
            assert(others.take(i + 1) =~= others.take(i as int).push(others[i as int]));
            others.take(i as int).lemma_push_to_set_commute(others[i as int]);
        }
        insert_name(&mut r, second[i].clone());
        proof {
            assert(r.deep_view().to_set() =~= first.deep_view().to_set().union(
                others.take(i + 1).to_set(),
            ));
        }
        i = i + 1;
    }
    proof {
        assert(others.take(i as int) =~= others);
    }
    r
}

} // verus!
