//! The text of a linear function reads back as the function, where the
//! function can be written in the grammar at all: where its constant and
//! coefficients are integers and its variables are named by letters.

use crate::display::{
    function_text, is_unit, magnitude_text, scalar_text, sign_text, term_text, terms_text,
};
use crate::grammar::{
    add_term, digit_value, digits_value, extend_value, in_class, number_value, parse_expression,
    parse_from, parse_term, pow10, span_end, CharClass, ParseError, TermModel,
};
use crate::linear_function::LinearFunction;
use crate::linear_model::{
    lemma_sorted_names_of, lemma_sorted_no_duplicates, sorted_names, strictly_sorted, LinearModel,
};
use crate::name::{decimal, digit_char};
use crate::rational::{lemma_add_zero, lemma_integer, lemma_zero_unique, Rational, LIMIT};
use vstd::math::abs;
use vstd::prelude::*;

verus! {

/// A name that the grammar can read: one letter or more.
pub open spec fn is_identifier(name: Seq<char>) -> bool {
    name.len() > 0 && forall|k: int| 0 <= k < name.len() ==> in_class(CharClass::Letter, #[trigger] name[k])
}

/// The constant and every coefficient is an integer.
pub open spec fn is_integral(m: LinearModel) -> bool {
    &&& m.constant.is_integer()
    &&& forall|n: Seq<char>| #[trigger]
        m.coefficients.dom().contains(n) ==> m.coefficients[n].is_integer()
}

/// Every variable has a name that the grammar can read.
pub open spec fn is_named_by_letters(m: LinearModel) -> bool {
    forall|n: Seq<char>| #[trigger] m.coefficients.dom().contains(n) ==> is_identifier(n)
}

/// The text `s` holds `piece` at position `i`.
spec fn has_at(s: Seq<char>, i: int, piece: Seq<char>) -> bool {
    &&& 0 <= i
    &&& i + piece.len() <= s.len()
    &&& forall|k: int| 0 <= k < piece.len() ==> s[i + k] == #[trigger] piece[k]
}

/// A span of characters of one class that is followed by a character of
/// another class, or by nothing, ends there.
proof fn lemma_span(s: Seq<char>, i: int, j: int, class: CharClass)
    requires
        0 <= i <= j <= s.len(),
        forall|k: int| i <= k < j ==> in_class(class, #[trigger] s[k]),
        j < s.len() ==> !in_class(class, s[j]),
    ensures
        span_end(s, i, class) == j,
    decreases j - i,
{
    if i < j {
        assert(in_class(class, s[i]));
        lemma_span(s, i + 1, j, class);
    }
}

/// The character of a digit is a digit with the value of the digit.
proof fn lemma_digit_char(d: int)
    requires
        0 <= d <= 9,
    ensures
        in_class(CharClass::Digit, digit_char(d)),
        digit_value(digit_char(d)) == d,
        !in_class(CharClass::Letter, digit_char(d)),
        !in_class(CharClass::Space, digit_char(d)),
        digit_char(d) != '+',
        digit_char(d) != '-',
        digit_char(d) != '.',
{
}

/// The decimal digits of a number are digits, and denote the number.
proof fn lemma_decimal(n: nat)
    ensures
        decimal(n).len() >= 1,
        forall|k: int| 0 <= k < decimal(n).len() ==> in_class(CharClass::Digit, #[trigger] decimal(n)[k]),
        digits_value(decimal(n)) == n,
    decreases n,
{
    if n < 10 {
        lemma_digit_char(n as int);
        let text = decimal(n);
        assert(text.drop_last() =~= Seq::<char>::empty());
        assert(extend_value(0, text.drop_last()) == 0);
        assert(text.last() == digit_char(n as int));
    } else {
        lemma_decimal(n / 10);
        lemma_digit_char((n % 10) as int);
        let shorter = decimal(n / 10);
        let text = decimal(n);
        assert(text == shorter.push(digit_char((n % 10) as int)));
        assert(text.drop_last() =~= shorter);
        assert(text.last() == digit_char((n % 10) as int));
        assert forall|k: int| 0 <= k < text.len() implies in_class(CharClass::Digit, #[trigger] text[k]) by {
            if k < shorter.len() {
                assert(text[k] == shorter[k]);
            }
        }
    }
}

/// A letter is no digit, no blank, no sign and no point.
proof fn lemma_letter(c: char)
    requires
        in_class(CharClass::Letter, c),
    ensures
        !in_class(CharClass::Digit, c),
        !in_class(CharClass::Space, c),
        c != '+',
        c != '-',
        c != '.',
{
}

/// The digits that a term shows before its name: none where the
/// coefficient is one or minus one.
spec fn shown_digits(value: Rational) -> Seq<char> {
    if is_unit(value) {
        Seq::empty()
    } else {
        magnitude_text(value)
    }
}

/// The text of a term, where it stands in a text before a blank or at the
/// end, reads as the term.
#[verifier::rlimit(40)]
proof fn lemma_term_reads(s: Seq<char>, i: int, name: Seq<char>, value: Rational, leading: bool)
    requires
        has_at(s, i, term_text(name, value, leading)),
        i + term_text(name, value, leading).len() < s.len() ==> s[i + term_text(
            name,
            value,
            leading,
        ).len()] == ' ',
        is_identifier(name),
        value.wf(),
        value.is_integer(),
    ensures
        parse_term(s, i) == Some(
            TermModel { name, value, end: i + term_text(name, value, leading).len() },
        ),
        span_end(s, i, CharClass::Space) < s.len(),
        term_text(name, value, leading).len() > 0,
{
    let text = term_text(name, value, leading);
    let negative = value.is_negative();
    let sign = sign_text(negative, leading);
    let digits = shown_digits(value);
    let j = i + text.len();
    assert(text == sign + digits + name);
    lemma_decimal(abs(value.num));
    lemma_integer(value.num);
    lemma_integer(abs(value.num) as int);
    lemma_integer(1);
    lemma_integer(-1);
    let b = i + sign.len();
    let c = b + digits.len();
    assert(j == c + name.len());
    // the characters of the three parts
    assert forall|k: int| 0 <= k < sign.len() implies s[i + k] == sign[k] by {
        assert(text[k] == sign[k]);
    }
    assert forall|k: int| 0 <= k < digits.len() implies s[b + k] == digits[k] by {
        assert(text[sign.len() + k] == digits[k]);
        assert(s[i + (sign.len() + k)] == text[sign.len() + k]);
    }
    assert forall|k: int| 0 <= k < name.len() implies s[c + k] == name[k] by {
        assert(text[sign.len() + digits.len() + k] == name[k]);
        assert(s[i + (sign.len() + digits.len() + k)] == text[sign.len() + digits.len() + k]);
    }
    assert(s[c] == name[0]);
    lemma_letter(name[0]);
    assert forall|k: int| b <= k < c implies in_class(CharClass::Digit, #[trigger] s[k]) by {
        assert(s[b + (k - b)] == digits[k - b]);
    }
    assert forall|k: int| c <= k < j implies in_class(CharClass::Letter, #[trigger] s[k]) by {
        assert(s[c + (k - c)] == name[k - c]);
    }
    if digits.len() > 0 {
        assert(s[b] == digits[0]);
        assert(in_class(CharClass::Digit, s[b]));
    }
    let first = s[b];
    assert(!in_class(CharClass::Space, first) && first != '+' && first != '-') by {
        if digits.len() > 0 {
            assert(in_class(CharClass::Digit, first));
        }
    }
    // the blanks and the sign
    let a = if leading {
        i
    } else {
        i + 1
    };
    if leading {
        if negative {
            assert(s[i + 0] == sign[0]);
            assert(s[i] == '-');
        }
        lemma_span(s, i, i, CharClass::Space);
    } else {
        assert(s[i + 0] == sign[0]);
        assert(s[i + 1] == sign[1]);
        assert(s[i + 2] == sign[2]);
        lemma_span(s, i, i + 1, CharClass::Space);
    }
    assert(span_end(s, i, CharClass::Space) == a);
    let signed = a < s.len() && (s[a] == '+' || s[a] == '-');
    assert(signed == (negative || !leading));
    assert((a < s.len() && s[a] == '-') == negative);
    let after_sign = if signed {
        a + 1
    } else {
        a
    };
    if leading {
        lemma_span(s, after_sign, b, CharClass::Space);
    } else {
        lemma_span(s, after_sign, b, CharClass::Space);
    }
    assert(span_end(s, after_sign, CharClass::Space) == b);
    lemma_span(s, b, c, CharClass::Digit);
    assert(span_end(s, b, CharClass::Digit) == c);
    assert(!(c < s.len() && s[c] == '.'));
    let whole = s.subrange(b, c);
    assert(whole =~= digits);
    let numbered = whole.len() + Seq::<char>::empty().len() > 0;
    lemma_span(s, c, c, CharClass::Space);
    assert(span_end(s, c, CharClass::Space) == c);
    if j < s.len() {
        assert(!in_class(CharClass::Letter, s[j]));
    }
    lemma_span(s, c, j, CharClass::Letter);
    assert(span_end(s, c, CharClass::Letter) == j);
    assert(s.subrange(c, j) =~= name);
    // the value
    let magnitude = if numbered {
        number_value(whole, Seq::empty())
    } else {
        Rational::one()
    };
    if numbered {
        assert(whole + Seq::<char>::empty() =~= whole);
        assert(digits == decimal(abs(value.num)));
        assert(digits_value(whole) == abs(value.num));
        assert(pow10(0) == 1);
        assert(magnitude == Rational { num: abs(value.num) as int, den: 1 });
    } else {
        assert(is_unit(value));
    }
    let read = if negative {
        magnitude.neg()
    } else {
        magnitude
    };
    assert(read == value);
    assert(a < s.len());
}

/// After position `d` the text ends, or a blank and a sign follow.
spec fn follows_constant(s: Seq<char>, d: int) -> bool {
    d < s.len() ==> s[d] == ' ' && d + 1 < s.len() && (s[d + 1] == '+' || s[d + 1] == '-')
}

/// The text of a constant at the start of a text, before a term or at the
/// end, reads as a term without a name.
#[verifier::rlimit(40)]
proof fn lemma_constant_reads(s: Seq<char>, value: Rational)
    requires
        has_at(s, 0, scalar_text(value)),
        follows_constant(s, scalar_text(value).len() as int),
        value.wf(),
        value.is_integer(),
    ensures
        parse_term(s, 0) == Some(
            TermModel { name: Seq::empty(), value, end: scalar_text(value).len() as int },
        ),
        span_end(s, 0, CharClass::Space) < s.len(),
        scalar_text(value).len() > 0,
{
    let text = scalar_text(value);
    let negative = value.is_negative();
    let digits = decimal(abs(value.num));
    lemma_decimal(abs(value.num));
    lemma_integer(value.num);
    lemma_integer(abs(value.num) as int);
    let b: int = if negative {
        1
    } else {
        0
    };
    let d = b + digits.len();
    assert(magnitude_text(value) == digits);
    assert(text.len() == d);
    assert forall|k: int| 0 <= k < digits.len() implies s[b + k] == digits[k] by {
        assert(text[b + k] == digits[k]);
        assert(s[0 + (b + k)] == text[b + k]);
    }
    assert forall|k: int| b <= k < d implies in_class(CharClass::Digit, #[trigger] s[k]) by {
        assert(s[b + (k - b)] == digits[k - b]);
    }
    assert(s[b] == digits[0]);
    assert(in_class(CharClass::Digit, s[b]));
    if negative {
        assert(text[0] == '-');
        assert(s[0int + 0] == text[0]);
    }
    lemma_span(s, 0, 0, CharClass::Space);
    let signed = 0 < s.len() && (s[0] == '+' || s[0] == '-');
    assert(signed == negative);
    lemma_span(s, b, b, CharClass::Space);
    lemma_span(s, b, d, CharClass::Digit);
    assert(!(d < s.len() && s[d] == '.'));
    let whole = s.subrange(b, d);
    assert(whole =~= digits);
    assert(whole + Seq::<char>::empty() =~= whole);
    let e = if d < s.len() {
        d + 1
    } else {
        d
    };
    lemma_span(s, d, e, CharClass::Space);
    lemma_span(s, e, e, CharClass::Letter);
    assert(s.subrange(e, e) =~= Seq::<char>::empty());
    assert(pow10(0) == 1);
    let magnitude = number_value(whole, Seq::empty());
    assert(magnitude == Rational { num: abs(value.num) as int, den: 1 });
    let read = if negative {
        magnitude.neg()
    } else {
        magnitude
    };
    assert(read == value);
}

/// The text before the term of `names[k]`: the head and the terms before.
spec fn text_before(
    m: LinearModel,
    names: Seq<Seq<char>>,
    head: Seq<char>,
    leading: bool,
    k: int,
) -> Seq<char> {
    head + terms_text(m, names.take(k), leading)
}

/// The text of the term of `names[k]`.
spec fn text_of(m: LinearModel, names: Seq<Seq<char>>, leading: bool, k: int) -> Seq<char> {
    term_text(names[k], m.coefficient(names[k]), leading && k == 0)
}

/// The text before a term, and the term, is the text before the next.
proof fn lemma_text_step(
    m: LinearModel,
    names: Seq<Seq<char>>,
    head: Seq<char>,
    leading: bool,
    k: int,
)
    requires
        0 <= k < names.len(),
    ensures
        text_before(m, names, head, leading, k + 1) == text_before(m, names, head, leading, k)
            + text_of(m, names, leading, k),
{
    let longer = names.take(k + 1);
    assert(longer.drop_last() =~= names.take(k));
    assert(longer.last() == names[k]);
    assert(longer.len() == k + 1);
    assert(text_before(m, names, head, leading, k + 1) =~= text_before(m, names, head, leading, k)
        + text_of(m, names, leading, k));
}

/// The whole text holds the text before each term, and then the term.
proof fn lemma_text_holds(
    m: LinearModel,
    names: Seq<Seq<char>>,
    head: Seq<char>,
    leading: bool,
    k: int,
    n: int,
)
    requires
        0 <= k <= n <= names.len(),
    ensures
        has_at(text_before(m, names, head, leading, n), 0, text_before(m, names, head, leading, k)),
        k < n ==> has_at(
            text_before(m, names, head, leading, n),
            text_before(m, names, head, leading, k).len() as int,
            text_of(m, names, leading, k),
        ),
    decreases n - k,
{
    if k < n {
        lemma_text_holds(m, names, head, leading, k + 1, n);
        lemma_text_step(m, names, head, leading, k);
        let whole = text_before(m, names, head, leading, n);
        let next = text_before(m, names, head, leading, k + 1);
        let this = text_before(m, names, head, leading, k);
        let term = text_of(m, names, leading, k);
        assert forall|x: int| 0 <= x < this.len() implies whole[0 + x] == #[trigger] this[x] by {
            assert(next[x] == this[x]);
            assert(whole[0 + x] == next[x]);
        }
        assert forall|x: int| 0 <= x < term.len() implies whole[this.len() + x] == #[trigger] term[x] by {
            assert(next[this.len() + x] == term[x]);
            assert(whole[0 + (this.len() + x)] == next[this.len() + x]);
        }
    }
}

/// At the end of a text nothing is added to what was read.
proof fn lemma_at_end(s: Seq<char>, acc: LinearModel)
    ensures
        parse_from(s, s.len() as int, acc) == Ok::<LinearModel, ParseError>(acc),
{
    lemma_span(s, s.len() as int, s.len() as int, CharClass::Space);
}

/// Where a term stands at a position of a text, the text reads from there
/// as the rest reads after the term.
proof fn lemma_step(s: Seq<char>, i: int, start: LinearModel, term: TermModel)
    requires
        span_end(s, i, CharClass::Space) < s.len(),
        parse_term(s, i) == Some(term),
        i < term.end <= s.len(),
        term.value.defined(),
    ensures
        parse_from(s, i, start) == parse_from(s, term.end, add_term(start, term)),
{
}

/// The function that holds the constant `constant` and the coefficients
/// that `m` has for the first `k` of `names`.
spec fn read_so_far(m: LinearModel, names: Seq<Seq<char>>, constant: Rational, k: int) -> LinearModel {
    LinearModel {
        constant,
        coefficients: m.coefficients.restrict(names.take(k).to_set()),
    }
}

/// The text of the term of `names[k]` stands in the whole text after the
/// text before it, and a blank or the end of the text follows it.
#[verifier::rlimit(40)]
proof fn lemma_term_stands(
    m: LinearModel,
    names: Seq<Seq<char>>,
    head: Seq<char>,
    leading: bool,
    k: int,
)
    requires
        0 <= k < names.len(),
    ensures
        has_at(
            text_before(m, names, head, leading, names.len() as int),
            text_before(m, names, head, leading, k).len() as int,
            text_of(m, names, leading, k),
        ),
        text_before(m, names, head, leading, k + 1).len() == text_before(
            m,
            names,
            head,
            leading,
            k,
        ).len() + text_of(m, names, leading, k).len(),
        text_before(m, names, head, leading, k + 1).len() <= text_before(
            m,
            names,
            head,
            leading,
            names.len() as int,
        ).len(),
        text_before(m, names, head, leading, k + 1).len() < text_before(
            m,
            names,
            head,
            leading,
            names.len() as int,
        ).len() ==> text_before(m, names, head, leading, names.len() as int)[text_before(
            m,
            names,
            head,
            leading,
            k + 1,
        ).len() as int] == ' ',
{
    let n = names.len() as int;
    let s = text_before(m, names, head, leading, n);
    lemma_text_holds(m, names, head, leading, k, n);
    lemma_text_step(m, names, head, leading, k);
    let j = text_before(m, names, head, leading, k + 1).len() as int;
    if k + 1 < n {
        lemma_text_holds(m, names, head, leading, k + 1, n);
        let next = text_of(m, names, leading, k + 1);
        let next_sign = sign_text(m.coefficient(names[k + 1]).is_negative(), false);
        assert(next_sign[0] == ' ');
        assert(next == next_sign + shown_digits(m.coefficient(names[k + 1])) + names[k + 1]);
        assert(next[0] == ' ');
        assert(s[j + 0] == next[0]);
    } else {
        assert(j == s.len());
    }
}

/// The term of `names[k]` is read where its text stands in the whole text.
#[verifier::rlimit(40)]
proof fn lemma_term_found(
    m: LinearModel,
    names: Seq<Seq<char>>,
    head: Seq<char>,
    leading: bool,
    k: int,
)
    requires
        m.wf(),
        is_integral(m),
        is_named_by_letters(m),
        names == sorted_names(m.coefficients.dom()),
        0 <= k < names.len(),
        leading ==> head.len() == 0,
    ensures
        m.coefficients.dom().contains(names[k]),
        text_before(m, names, head, leading, k).len() < text_before(
            m,
            names,
            head,
            leading,
            k + 1,
        ).len() <= text_before(m, names, head, leading, names.len() as int).len(),
        parse_term(
            text_before(m, names, head, leading, names.len() as int),
            text_before(m, names, head, leading, k).len() as int,
        ) == Some(
            TermModel {
                name: names[k],
                value: m.coefficient(names[k]),
                end: text_before(m, names, head, leading, k + 1).len() as int,
            },
        ),
        span_end(
            text_before(m, names, head, leading, names.len() as int),
            text_before(m, names, head, leading, k).len() as int,
            CharClass::Space,
        ) < text_before(m, names, head, leading, names.len() as int).len(),
{
    let n = names.len() as int;
    let s = text_before(m, names, head, leading, n);
    let i = text_before(m, names, head, leading, k).len() as int;
    lemma_term_stands(m, names, head, leading, k);
    lemma_sorted_names_of(m.coefficients.dom());
    assert(names.to_set().contains(names[k]));
    lemma_term_reads(s, i, names[k], m.coefficient(names[k]), leading && k == 0);
}

/// The coefficient of `names[k]`, added to what was read of the names
/// before it, gives what is read of the names up to it.
#[verifier::rlimit(40)]
proof fn lemma_read_grows(m: LinearModel, names: Seq<Seq<char>>, k: int, end: int)
    requires
        m.wf(),
        is_named_by_letters(m),
        names == sorted_names(m.coefficients.dom()),
        0 <= k < names.len(),
    ensures
        add_term(
            read_so_far(m, names, m.constant, k),
            TermModel { name: names[k], value: m.coefficient(names[k]), end },
        ) == read_so_far(m, names, m.constant, k + 1),
{
    let acc = read_so_far(m, names, m.constant, k);
    let name = names[k];
    let value = m.coefficient(name);
    lemma_sorted_names_of(m.coefficients.dom());
    lemma_sorted_no_duplicates(names);
    assert(names.to_set().contains(name));
    assert(m.coefficients.dom().contains(name));
    let longer = names.take(k + 1);
    let shorter = names.take(k);
    assert(!shorter.to_set().contains(name)) by {
        if shorter.contains(name) {
            let x = choose|x: int| 0 <= x < shorter.len() && shorter[x] == name;
            assert(names[x] == names[k]);
        }
    }
    lemma_integer(0);
    lemma_add_zero(value);
    let added = add_term(acc, TermModel { name, value, end });
    let next_acc = read_so_far(m, names, m.constant, k + 1);
    assert(acc.coefficient(name) == Rational::zero());
    assert(name.len() > 0);
    assert forall|x: Seq<char>|
        longer.to_set().contains(x) <==> (x == name || shorter.to_set().contains(x)) by {
        if longer.contains(x) {
            let y = choose|y: int| 0 <= y < longer.len() && longer[y] == x;
            if y < k {
                assert(shorter[y] == x);
            }
        }
        if shorter.contains(x) {
            let y = choose|y: int| 0 <= y < shorter.len() && shorter[y] == x;
            assert(longer[y] == x);
        }
        if x == name {
            assert(longer[k] == x);
        }
    }
    assert(added.coefficients =~= next_acc.coefficients);
}

/// The term of `names[k]` adds its coefficient to what was read before
/// it.
proof fn lemma_term_adds(
    m: LinearModel,
    names: Seq<Seq<char>>,
    head: Seq<char>,
    leading: bool,
    k: int,
)
    requires
        m.wf(),
        is_integral(m),
        is_named_by_letters(m),
        names == sorted_names(m.coefficients.dom()),
        0 <= k < names.len(),
        leading ==> head.len() == 0,
    ensures
        parse_from(
            text_before(m, names, head, leading, names.len() as int),
            text_before(m, names, head, leading, k).len() as int,
            read_so_far(m, names, m.constant, k),
        ) == parse_from(
            text_before(m, names, head, leading, names.len() as int),
            text_before(m, names, head, leading, k + 1).len() as int,
            read_so_far(m, names, m.constant, k + 1),
        ),
{
    let s = text_before(m, names, head, leading, names.len() as int);
    let i = text_before(m, names, head, leading, k).len() as int;
    let j = text_before(m, names, head, leading, k + 1).len() as int;
    let term = TermModel { name: names[k], value: m.coefficient(names[k]), end: j };
    lemma_term_found(m, names, head, leading, k);
    lemma_read_grows(m, names, k, j);
    assert(term.value.defined());
    lemma_step(s, i, read_so_far(m, names, m.constant, k), term);
}

/// The terms from the one of `names[k]` on read as the rest of the
/// function.
proof fn lemma_terms_read(
    m: LinearModel,
    names: Seq<Seq<char>>,
    head: Seq<char>,
    leading: bool,
    k: int,
)
    requires
        m.wf(),
        is_integral(m),
        is_named_by_letters(m),
        names == sorted_names(m.coefficients.dom()),
        0 <= k <= names.len(),
        leading ==> head.len() == 0,
    ensures
        parse_from(
            text_before(m, names, head, leading, names.len() as int),
            text_before(m, names, head, leading, k).len() as int,
            read_so_far(m, names, m.constant, k),
        ) == Ok::<LinearModel, ParseError>(m),
    decreases names.len() - k,
{
    let n = names.len() as int;
    let s = text_before(m, names, head, leading, n);
    let acc = read_so_far(m, names, m.constant, k);
    if k == n {
        lemma_sorted_names_of(m.coefficients.dom());
        assert(names.take(k) =~= names);
        assert(acc.coefficients =~= m.coefficients);
        lemma_at_end(s, acc);
    } else {
        lemma_term_adds(m, names, head, leading, k);
        lemma_terms_read(m, names, head, leading, k + 1);
    }
}

/// The text of a function with a constant other than zero reads back.
#[verifier::rlimit(40)]
proof fn lemma_reads_with_constant(m: LinearModel)
    requires
        m.wf(),
        is_integral(m),
        is_named_by_letters(m),
        !m.constant.is_zero(),
    ensures
        parse_expression(function_text(m)) == Ok::<LinearModel, ParseError>(m),
{
    let names = sorted_names(m.coefficients.dom());
    let n = names.len() as int;
    let s = function_text(m);
    let head = scalar_text(m.constant);
    lemma_integer(0);
    lemma_sorted_names_of(m.coefficients.dom());
    assert(names.take(n) =~= names);
    assert(s == text_before(m, names, head, false, n));
    lemma_text_holds(m, names, head, false, 0, n);
    assert(names.take(0) =~= Seq::<Seq<char>>::empty());
    assert(text_before(m, names, head, false, 0) =~= head);
    assert(follows_constant(s, head.len() as int)) by {
        if n > 0 {
            let first = text_of(m, names, false, 0);
            let first_sign = sign_text(m.coefficient(names[0]).is_negative(), false);
            assert(first == first_sign + shown_digits(m.coefficient(names[0])) + names[0]);
            assert(first[0] == ' ' && (first[1] == '+' || first[1] == '-'));
            assert(s[head.len() as int + 0] == first[0]);
            assert(s[head.len() as int + 1] == first[1]);
        } else {
            assert(s =~= head);
        }
    }
    lemma_constant_reads(s, m.constant);
    lemma_terms_read(m, names, head, false, 0);
    let start = LinearModel::zero();
    let read = add_term(
        start,
        TermModel { name: Seq::empty(), value: m.constant, end: head.len() as int },
    );
    lemma_add_zero(m.constant);
    assert(read.coefficients =~= read_so_far(m, names, m.constant, 0).coefficients);
    assert(read == read_so_far(m, names, m.constant, 0));
    lemma_step(
        s,
        0,
        start,
        TermModel { name: Seq::empty(), value: m.constant, end: head.len() as int },
    );
}

/// The text of the function that is zero reads back.
proof fn lemma_reads_zero(m: LinearModel)
    requires
        m.wf(),
        m.constant.is_zero(),
        sorted_names(m.coefficients.dom()).len() == 0,
    ensures
        parse_expression(function_text(m)) == Ok::<LinearModel, ParseError>(m),
{
    let s = function_text(m);
    lemma_integer(0);
    lemma_sorted_names_of(m.coefficients.dom());
    lemma_zero_unique(m.constant);
    assert(s == seq!['0']);
    assert(decimal(0) == seq!['0']);
    assert(scalar_text(Rational::zero()) == seq!['0']);
    assert(follows_constant(s, 1));
    lemma_constant_reads(s, Rational::zero());
    lemma_add_zero(Rational::zero());
    let term = TermModel { name: Seq::empty(), value: Rational::zero(), end: 1 };
    let read = add_term(LinearModel::zero(), term);
    assert(m.coefficients.dom() =~= Set::<Seq<char>>::empty());
    assert(m.coefficients =~= Map::<Seq<char>, Rational>::empty());
    assert(read == m);
    lemma_span(s, 1, 1, CharClass::Space);
    lemma_step(s, 0, LinearModel::zero(), term);
    assert(parse_from(s, 1, read) == Ok::<LinearModel, ParseError>(read));
}

/// The text of a function without a constant reads back.
proof fn lemma_reads_terms_only(m: LinearModel)
    requires
        m.wf(),
        is_integral(m),
        is_named_by_letters(m),
        m.constant.is_zero(),
        sorted_names(m.coefficients.dom()).len() > 0,
    ensures
        parse_expression(function_text(m)) == Ok::<LinearModel, ParseError>(m),
{
    let names = sorted_names(m.coefficients.dom());
    let n = names.len() as int;
    let s = function_text(m);
    lemma_integer(0);
    lemma_zero_unique(m.constant);
    let head = Seq::<char>::empty();
    assert(names.take(n) =~= names);
    assert(s =~= text_before(m, names, head, true, n));
    assert(names.take(0) =~= Seq::<Seq<char>>::empty());
    assert(text_before(m, names, head, true, 0) =~= Seq::<char>::empty());
    lemma_terms_read(m, names, head, true, 0);
    assert(read_so_far(m, names, m.constant, 0).coefficients =~= Map::<
        Seq<char>,
        Rational,
    >::empty());
    assert(read_so_far(m, names, m.constant, 0) == LinearModel::zero());
}

/// The text of a linear function reads back as the function, where its
/// constant and coefficients are integers and its variables are named by
/// letters.
pub proof fn law_text_reads_back(f: LinearFunction)
    requires
        f.wf(),
        is_integral(f@),
        is_named_by_letters(f@),
    ensures
        parse_expression(function_text(f@)) == Ok::<LinearModel, ParseError>(f@),
{
    f.lemma_view_wf();
    if !f@.constant.is_zero() {
        lemma_reads_with_constant(f@);
    } else if sorted_names(f@.coefficients.dom()).len() == 0 {
        lemma_reads_zero(f@);
    } else {
        lemma_reads_terms_only(f@);
    }
}

} // verus!
