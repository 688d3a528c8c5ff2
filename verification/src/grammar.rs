//! The text form of linear functions and constraints.
//!
//! A linear function is written as a sequence of terms. A term is an
//! optional sign, an optional number and an optional variable name, of
//! which the number or the name must be there; blanks may stand between
//! them. A number is made of decimal digits with at most one point. A name
//! is made of letters. A constraint is written as two linear functions
//! with one of `<=`, `>=`, `=`, `<`, `>` between them.
//!
//! Between the parts of a term the blanks are the space, the tab, the line
//! feed and the carriage return. A line that is passed over as blank, and
//! what may stand around an operator, is white space in the wider sense of
//! Unicode.

use crate::constraint::{Constraint, ConstraintModel, Operator};
use crate::linear_function::LinearFunction;
use crate::linear_model::LinearModel;
use crate::name::Variable;
use crate::rational::{Rational, LIMIT};
use crate::scalar::Scalar;
use vstd::prelude::*;
use vstd::std_specs::iter::IteratorSpec;
use vstd::string::StrSliceExecFns;
use vstd::string::StringExecFns;

verus! {

/// Why a text is not a linear function or a constraint.
#[derive(Debug, Clone, Copy, PartialEq, Eq, Structural)]
pub enum ParseError {
    /// A part of the text is no term.
    MalformedExpression,
    /// The text of a constraint holds none of `<`, `>`, `=`.
    MissingOperator,
    /// A number is greater than the greatest value, or has more digits
    /// after the point than a value can hold.
    NumberOutOfRange,
}

/// The classes of characters that the grammar tells apart.
#[derive(Debug, Clone, Copy, PartialEq, Eq, Structural)]
pub enum CharClass {
    /// The blanks between the parts of a term.
    Space,
    Digit,
    Letter,
    /// White space as Unicode defines it.
    White,
}

/// Whether a character is white space as Unicode defines it: the
/// characters from the tab to the carriage return, the space, the next
/// line mark, the spaces of fixed width, and the separators of lines and
/// paragraphs.
pub open spec fn is_white(c: char) -> bool {
    ||| ('\u{9}' <= c && c <= '\u{d}')
    ||| c == ' '
    ||| c == '\u{85}'
    ||| c == '\u{a0}'
    ||| c == '\u{1680}'
    ||| ('\u{2000}' <= c && c <= '\u{200a}')
    ||| c == '\u{2028}'
    ||| c == '\u{2029}'
    ||| c == '\u{202f}'
    ||| c == '\u{205f}'
    ||| c == '\u{3000}'
}

pub open spec fn in_class(class: CharClass, c: char) -> bool {
    match class {
        CharClass::Space => c == ' ' || c == '\t' || c == '\n' || c == '\r',
        CharClass::Digit => '0' <= c && c <= '9',
        CharClass::Letter => ('a' <= c && c <= 'z') || ('A' <= c && c <= 'Z'),
        CharClass::White => is_white(c),
    }
}

fn is_in_class(class: CharClass, c: char) -> (b: bool)
    ensures
        b == in_class(class, c),
{
    match class {
        CharClass::Space => c == ' ' || c == '\t' || c == '\n' || c == '\r',
        CharClass::Digit => '0' <= c && c <= '9',
        CharClass::Letter => ('a' <= c && c <= 'z') || ('A' <= c && c <= 'Z'),
        CharClass::White => {
            ('\u{9}' <= c && c <= '\u{d}') || c == ' ' || c == '\u{85}' || c == '\u{a0}' || c
                == '\u{1680}' || ('\u{2000}' <= c && c <= '\u{200a}') || c == '\u{2028}' || c
                == '\u{2029}' || c == '\u{202f}' || c == '\u{205f}' || c == '\u{3000}'
        },
    }
}

/// The first position from `i` on whose character is not of the class, or
/// the length of the text.
pub open spec fn span_end(s: Seq<char>, i: int, class: CharClass) -> int
    decreases s.len() - i,
{
    if 0 <= i < s.len() && in_class(class, s[i]) {
        span_end(s, i + 1, class)
    } else {
        i
    }
}

/// A span ends within the text, and holds characters of the class only.
pub proof fn lemma_span_end(s: Seq<char>, i: int, class: CharClass)
    requires
        0 <= i <= s.len(),
    ensures
        i <= span_end(s, i, class) <= s.len(),
        forall|j: int| i <= j < span_end(s, i, class) ==> in_class(class, #[trigger] s[j]),
        span_end(s, i, class) < s.len() ==> !in_class(class, s[span_end(s, i, class)]),
    decreases s.len() - i,
{
    if i < s.len() && in_class(class, s[i]) {
        lemma_span_end(s, i + 1, class);
    }
}

/// The characters of a text.
pub fn chars_of(text: &str) -> (r: Vec<char>)
    ensures
        r@ == text@,
{
    let mut r: Vec<char> = Vec::new();
    for c in it: text.chars()
        invariant
            r@ == it.seq().take(it.index() as int),
            it.seq() == text@,
    {
        r.push(c);
    }
    r
}

fn scan(chars: &Vec<char>, i: usize, class: CharClass) -> (r: usize)
    requires
        i <= chars@.len(),
    ensures
        r == span_end(chars@, i as int, class),
        i <= r <= chars@.len(),
{
    let mut j: usize = i;
    while j < chars.len() && is_in_class(class, chars[j])
        invariant
            i <= j <= chars@.len(),
            span_end(chars@, i as int, class) == span_end(chars@, j as int, class),
        decreases chars@.len() - j,
    {
        j = j + 1;
    }
    j
}

/// The value of a decimal digit.
pub open spec fn digit_value(c: char) -> int {
    c as int - '0' as int
}

/// The number that `digits` make when they are written after the digits
/// of `start`.
pub open spec fn extend_value(start: nat, digits: Seq<char>) -> nat
    decreases digits.len(),
{
    if digits.len() == 0 {
        start
    } else {
        (extend_value(start, digits.drop_last()) * 10 + digit_value(digits.last())) as nat
    }
}

/// The number that a sequence of decimal digits denotes.
pub open spec fn digits_value(digits: Seq<char>) -> nat {
    extend_value(0, digits)
}

pub open spec fn pow10(k: nat) -> nat
    decreases k,
{
    if k == 0 {
        1
    } else {
        10 * pow10((k - 1) as nat)
    }
}

/// The greatest number of digits after the point that a number may have.
pub const FRACTION_DIGITS: usize = 18;

/// The value of the number with the digits `whole` before the point and
/// `fraction` after it. It is undefined where the digits without the point
/// make a number beyond the limit, or where more than eighteen digits
/// follow the point; a text with such a number is refused.
pub open spec fn number_value(whole: Seq<char>, fraction: Seq<char>) -> Rational {
    let n = digits_value(whole + fraction);
    if n <= LIMIT && fraction.len() <= FRACTION_DIGITS {
        Rational::fraction(n as int, pow10(fraction.len()) as int)
    } else {
        Rational::undefined()
    }
}

/// Writing digits after digits extends the number.
pub proof fn lemma_extend_value_concat(start: nat, first: Seq<char>, second: Seq<char>)
    ensures
        extend_value(start, first + second) == extend_value(extend_value(start, first), second),
    decreases second.len(),
{
    if second.len() == 0 {
        assert(first + second =~= first);
    } else {
        assert((first + second).drop_last() =~= first + second.drop_last());
        assert((first + second).last() == second.last());
        lemma_extend_value_concat(start, first, second.drop_last());
    }
}

/// A number as far as it has been read: its value, or the mark that it is
/// beyond the limit.
#[derive(Clone, Copy)]
struct Reading {
    value: u64,
    exceeded: bool,
}

impl Reading {
    /// The reading stands for the number `v`.
    spec fn stands_for(self, v: nat) -> bool {
        if self.exceeded {
            v > LIMIT
        } else {
            self.value == v && v <= LIMIT
        }
    }
}

/// Reads the digits from `from` to `to` after what was read before.
fn read_digits(chars: &Vec<char>, from: usize, to: usize, start: Reading, Ghost(v): Ghost<nat>) -> (r:
    Reading)
    requires
        from <= to <= chars@.len(),
        forall|j: int| from <= j < to ==> in_class(CharClass::Digit, #[trigger] chars@[j]),
        start.stands_for(v),
    ensures
        r.stands_for(extend_value(v, chars@.subrange(from as int, to as int))),
{
    let mut reading = start;
    let mut j: usize = from;
    proof {
        assert(chars@.subrange(from as int, from as int) =~= Seq::<char>::empty());
    }
    while j < to
        invariant
            from <= j <= to <= chars@.len(),
            forall|k: int| from <= k < to ==> in_class(CharClass::Digit, #[trigger] chars@[k]),
            reading.stands_for(extend_value(v, chars@.subrange(from as int, j as int))),
        decreases to - j,
    {
        proof {
            let longer = chars@.subrange(from as int, j + 1);
            assert(longer.drop_last() =~= chars@.subrange(from as int, j as int));
            assert(longer.last() == chars@[j as int]);
            assert(in_class(CharClass::Digit, chars@[j as int]));
        }
        if !reading.exceeded {
            let digit: u64 = (chars[j] as u32 - '0' as u32) as u64;
            let wide: u128 = reading.value as u128 * 10 + digit as u128;
            if wide > LIMIT as u128 {
                reading = Reading { value: 0, exceeded: true };
            } else {
                reading = Reading { value: wide as u64, exceeded: false };
            }
        }
        j = j + 1;
    }
    reading
}

/// Ten to the power `k`.
fn power_of_ten(k: usize) -> (r: u64)
    requires
        k <= FRACTION_DIGITS,
    ensures
        r == pow10(k as nat),
        0 < r <= 1_000_000_000_000_000_000,
{
    let mut r: u64 = 1;
    let mut i: usize = 0;
    proof {
        lemma_pow10_eighteen();
    }
    while i < k
        invariant
            i <= k <= FRACTION_DIGITS,
            r == pow10(i as nat),
            0 < r,
            r * pow10((FRACTION_DIGITS - i) as nat) == 1_000_000_000_000_000_000,
        decreases k - i,
    {
        proof {
            let rest = (FRACTION_DIGITS - i) as nat;
            assert(pow10(rest) == 10 * pow10((rest - 1) as nat));
            assert(r * (10 * pow10((rest - 1) as nat)) == (r * 10) * pow10((rest - 1) as nat))
                by (nonlinear_arith);
            assert(pow10((rest - 1) as nat) >= 1) by {
                lemma_pow10_positive((rest - 1) as nat);
            }
            assert(r * 10 <= 1_000_000_000_000_000_000) by (nonlinear_arith)
                requires
                    (r * 10) * pow10((rest - 1) as nat) == 1_000_000_000_000_000_000,
                    pow10((rest - 1) as nat) >= 1,
                    r > 0,
            ;
        }
        r = r * 10;
        i = i + 1;
    }
    proof {
        lemma_pow10_positive((FRACTION_DIGITS - i) as nat);
        assert(r <= 1_000_000_000_000_000_000) by (nonlinear_arith)
            requires
                r * pow10((FRACTION_DIGITS - i) as nat) == 1_000_000_000_000_000_000,
                pow10((FRACTION_DIGITS - i) as nat) >= 1,
                r > 0,
        ;
    }
    r
}

proof fn lemma_pow10_positive(k: nat)
    ensures
        pow10(k) >= 1,
    decreases k,
{
    if k > 0 {
        lemma_pow10_positive((k - 1) as nat);
    }
}

proof fn lemma_pow10_eighteen()
    ensures
        pow10(18) == 1_000_000_000_000_000_000,
{
    reveal_with_fuel(pow10, 20);
}

/// A term as it is read from a text.
pub struct TermModel {
    /// The name of the variable; empty for a term that is a number only.
    pub name: Seq<char>,
    /// The coefficient, or the number.
    pub value: Rational,
    /// The position after the term.
    pub end: int,
}

/// The term that starts at position `i` of `s`, after blanks; none where
/// neither a number nor a name follows the sign or stands at `i`.
pub open spec fn parse_term(s: Seq<char>, i: int) -> Option<TermModel> {
    let a = span_end(s, i, CharClass::Space);
    let signed = a < s.len() && (s[a] == '+' || s[a] == '-');
    let negative = a < s.len() && s[a] == '-';
    let b = span_end(
        s,
        if signed {
            a + 1
        } else {
            a
        },
        CharClass::Space,
    );
    let c = span_end(s, b, CharClass::Digit);
    let pointed = c < s.len() && s[c] == '.';
    let d = if pointed {
        span_end(s, c + 1, CharClass::Digit)
    } else {
        c
    };
    let whole = s.subrange(b, c);
    let fraction = if pointed {
        s.subrange(c + 1, d)
    } else {
        Seq::empty()
    };
    let numbered = whole.len() + fraction.len() > 0;
    let e = span_end(
        s,
        if numbered {
            d
        } else {
            b
        },
        CharClass::Space,
    );
    let f = span_end(s, e, CharClass::Letter);
    let named = f > e;
    if !numbered && !named {
        None
    } else {
        let magnitude = if numbered {
            number_value(whole, fraction)
        } else {
            Rational::one()
        };
        Some(
            TermModel {
                name: s.subrange(e, f),
                value: if negative {
                    magnitude.neg()
                } else {
                    magnitude
                },
                end: if named {
                    f
                } else {
                    d
                },
            },
        )
    }
}

/// The function with a term added: a number goes to the constant, a
/// variable to its coefficient.
pub open spec fn add_term(acc: LinearModel, term: TermModel) -> LinearModel {
    if term.name.len() == 0 {
        acc.with_constant(acc.constant.add(term.value))
    } else {
        acc.with_coefficient(term.name, acc.coefficient(term.name).add(term.value))
    }
}

/// The function that the terms from position `i` on add to `acc`. The
/// text is malformed where something other than a term or blanks follows,
/// and out of range where a term holds a number that no value can hold.
pub open spec fn parse_from(s: Seq<char>, i: int, acc: LinearModel) -> Result<
    LinearModel,
    ParseError,
>
    decreases s.len() - i,
{
    if span_end(s, i, CharClass::Space) >= s.len() {
        Ok(acc)
    } else {
        match parse_term(s, i) {
            Some(term) => if !(i < term.end <= s.len()) {
                Err(ParseError::MalformedExpression)
            } else if !term.value.defined() {
                Err(ParseError::NumberOutOfRange)
            } else {
                parse_from(s, term.end, add_term(acc, term))
            },
            None => Err(ParseError::MalformedExpression),
        }
    }
}

/// The linear function that a text denotes: the sum of its terms; or why
/// the text denotes none.
pub open spec fn parse_expression(s: Seq<char>) -> Result<LinearModel, ParseError> {
    parse_from(s, 0, LinearModel::zero())
}

/// Reads the term at position `i`: its name, which is empty for a number,
/// its value and the position after it.
fn read_term(text: &str, chars: &Vec<char>, i: usize) -> (r: Option<(Variable, Scalar, usize)>)
    requires
        chars@ == text@,
        i <= chars@.len(),
    ensures
        match r {
            Some(t) => parse_term(chars@, i as int) == Some(
                TermModel { name: t.0@, value: t.1@, end: t.2 as int },
            ) && i < t.2 <= chars@.len(),
            None => parse_term(chars@, i as int) is None,
        },
{
    let len = chars.len();
    let a = scan(chars, i, CharClass::Space);
    let signed = a < len && (chars[a] == '+' || chars[a] == '-');
    let negative = a < len && chars[a] == '-';
    let b = scan(
        chars,
        if signed {
            a + 1
        } else {
            a
        },
        CharClass::Space,
    );
    let c = scan(chars, b, CharClass::Digit);
    let pointed = c < len && chars[c] == '.';
    let d = if pointed {
        scan(chars, c + 1, CharClass::Digit)
    } else {
        c
    };
    let digits_after: usize = if pointed {
        d - (c + 1)
    } else {
        0
    };
    let numbered = (c - b) + digits_after > 0;
    let e = scan(
        chars,
        if numbered {
            d
        } else {
            b
        },
        CharClass::Space,
    );
    let f = scan(chars, e, CharClass::Letter);
    let named = f > e;
    if !numbered && !named {
        return None;
    }
    let ghost whole = chars@.subrange(b as int, c as int);
    let ghost fraction = if pointed {
        chars@.subrange(c + 1, d as int)
    } else {
        Seq::<char>::empty()
    };
    let magnitude = if numbered {
        proof {
            lemma_span_end(chars@, b as int, CharClass::Digit);
            if pointed {
                lemma_span_end(chars@, c + 1, CharClass::Digit);
            }
            lemma_extend_value_concat(0, whole, fraction);
        }
        let first = read_digits(chars, b, c, Reading { value: 0, exceeded: false }, Ghost(0));
        let all = if pointed {
            read_digits(chars, c + 1, d, first, Ghost(digits_value(whole)))
        } else {
            proof {
                assert(whole + fraction =~= whole);
            }
            first
        };
        if all.exceeded || digits_after > FRACTION_DIGITS {
            Scalar::undefined()
        } else {
            let power = power_of_ten(digits_after);
            Scalar::new(all.value as i64, power as i64)
        }
    } else {
        Scalar::one()
    };
    let value = if negative {
        magnitude.neg()
    } else {
        magnitude
    };
    let name = String::from_str(text.substring_char(e, f));
    let end = if named {
        f
    } else {
        d
    };
    Some((name, value, end))
}

/// Reads a linear function from its text.
pub fn read_expression(text: &str) -> (r: Result<LinearFunction, ParseError>)
    ensures
        match r {
            Ok(f) => parse_expression(text@) == Ok::<LinearModel, ParseError>(f@),
            Err(e) => parse_expression(text@) == Err::<LinearModel, ParseError>(e),
        },
{
    let chars = chars_of(text);
    let mut f = LinearFunction::zero();
    let mut i: usize = 0;
    loop
        invariant
            chars@ == text@,
            i <= chars@.len(),
            parse_from(chars@, i as int, f@) == parse_expression(text@),
        decreases chars@.len() - i,
    {
        let a = scan(&chars, i, CharClass::Space);
        if a >= chars.len() {
            return Ok(f);
        }
        match read_term(text, &chars, i) {
            None => {
                return Err(ParseError::MalformedExpression);
            },
            Some((name, value, end)) => {
                if !value.is_defined() {
                    return Err(ParseError::NumberOutOfRange);
                }
                if name.as_str().unicode_len() == 0 {
                    let sum = f.constant().add(&value);
                    f.set_constant(sum);
                } else {
                    let sum = f.coefficient(name.as_str()).add(&value);
                    f.set_coefficient(name, sum);
                }
                i = end;
            },
        }
    }
}

/// Whether a character belongs to an operator.
pub open spec fn is_operator_char(c: char) -> bool {
    c == '<' || c == '>' || c == '='
}

/// The first position from `i` on that holds a character of an operator,
/// or the length of the text.
pub open spec fn operator_position(s: Seq<char>, i: int) -> int
    decreases s.len() - i,
{
    if 0 <= i < s.len() && !is_operator_char(s[i]) {
        operator_position(s, i + 1)
    } else {
        i
    }
}

/// The operator that starts at position `p`, and its length: the longest
/// of the five that is written there.
pub open spec fn operator_at(s: Seq<char>, p: int) -> (Operator, int) {
    let followed = p + 1 < s.len() && s[p + 1] == '=';
    if s[p] == '=' {
        (Operator::Equal, 1)
    } else if s[p] == '<' {
        if followed {
            (Operator::LessEqual, 2)
        } else {
            (Operator::Less, 1)
        }
    } else {
        if followed {
            (Operator::GreaterEqual, 2)
        } else {
            (Operator::Greater, 1)
        }
    }
}

/// The operator that a text denotes: one of the five, with white space
/// before and after it at most.
pub open spec fn parse_operator(s: Seq<char>) -> Option<Operator> {
    let a = span_end(s, 0, CharClass::White);
    if a < s.len() && is_operator_char(s[a]) && span_end(
        s,
        a + operator_at(s, a).1,
        CharClass::White,
    ) >= s.len() {
        Some(operator_at(s, a).0)
    } else {
        None
    }
}

/// The constraint that a text denotes: the linear function before the
/// first operator, the operator, and the linear function after it. Where
/// a side is no linear function, the error is that of the left side if
/// that fails, else that of the right.
pub open spec fn parse_constraint(s: Seq<char>) -> Result<ConstraintModel, ParseError> {
    let p = operator_position(s, 0);
    if p >= s.len() {
        Err(ParseError::MissingOperator)
    } else {
        let (operator, length) = operator_at(s, p);
        match parse_expression(s.subrange(0, p)) {
            Err(error) => Err(error),
            Ok(left) => match parse_expression(s.subrange(p + length, s.len() as int)) {
                Err(error) => Err(error),
                Ok(right) => Ok(ConstraintModel { left, operator, right }),
            },
        }
    }
}

/// The end of the line that holds position `i`: the position of the next
/// line feed, or the length of the text.
pub open spec fn line_end(s: Seq<char>, i: int) -> int
    decreases s.len() - i,
{
    if 0 <= i < s.len() && s[i] != '\n' {
        line_end(s, i + 1)
    } else {
        i
    }
}

/// The text holds white space only.
pub open spec fn is_blank(s: Seq<char>) -> bool {
    span_end(s, 0, CharClass::White) >= s.len()
}

/// The rows after the constraints of the lines from position `i` on have
/// been added to `rows`; the first error where a line is no constraint.
/// Lines of white space only are passed over.
pub open spec fn compile_from(s: Seq<char>, i: int, rows: Seq<ConstraintModel>) -> Result<
    Seq<ConstraintModel>,
    ParseError,
>
    decreases s.len() - i,
{
    if i >= s.len() {
        Ok(rows)
    } else {
        let e = line_end(s, i);
        let line = s.subrange(i, e);
        let added = if is_blank(line) {
            Ok(rows)
        } else {
            match parse_constraint(line) {
                Ok(c) => Ok(rows + c.standardized(rows.len())),
                Err(error) => Err(error),
            }
        };
        match added {
            Ok(next) => if i <= e < s.len() {
                compile_from(s, e + 1, next)
            } else {
                Ok(next)
            },
            Err(error) => Err(error),
        }
    }
}

/// The rows of the linear program that a text with one constraint to a
/// line denotes.
pub open spec fn compile_text(s: Seq<char>) -> Result<Seq<ConstraintModel>, ParseError> {
    compile_from(s, 0, Seq::empty())
}

fn find_operator(chars: &Vec<char>) -> (r: usize)
    ensures
        r == operator_position(chars@, 0),
        r <= chars@.len(),
        r < chars@.len() ==> is_operator_char(chars@[r as int]),
{
    let mut j: usize = 0;
    while j < chars.len() && !(chars[j] == '<' || chars[j] == '>' || chars[j] == '=')
        invariant
            j <= chars@.len(),
            operator_position(chars@, 0) == operator_position(chars@, j as int),
        decreases chars@.len() - j,
    {
        j = j + 1;
    }
    j
}

fn read_operator_at(chars: &Vec<char>, p: usize) -> (r: (Operator, usize))
    requires
        p < chars@.len(),
        is_operator_char(chars@[p as int]),
    ensures
        r.0 == operator_at(chars@, p as int).0,
        r.1 == operator_at(chars@, p as int).1,
        1 <= r.1 <= 2,
        p + r.1 <= chars@.len(),
{
    let len = chars.len();
    let followed = p + 1 < len && chars[p + 1] == '=';
    if chars[p] == '=' {
        (Operator::Equal, 1)
    } else if chars[p] == '<' {
        if followed {
            (Operator::LessEqual, 2)
        } else {
            (Operator::Less, 1)
        }
    } else {
        if followed {
            (Operator::GreaterEqual, 2)
        } else {
            (Operator::Greater, 1)
        }
    }
}

fn find_line_end(chars: &Vec<char>, i: usize) -> (r: usize)
    requires
        i <= chars@.len(),
    ensures
        r == line_end(chars@, i as int),
        i <= r <= chars@.len(),
{
    let mut j: usize = i;
    while j < chars.len() && chars[j] != '\n'
        invariant
            i <= j <= chars@.len(),
            line_end(chars@, i as int) == line_end(chars@, j as int),
        decreases chars@.len() - j,
    {
        j = j + 1;
    }
    j
}

impl Operator {
    /// Reads an operator from its text.
    pub fn parse(text: &str) -> (r: Result<Operator, ParseError>)
        ensures
            match r {
                Ok(operator) => parse_operator(text@) == Some(operator),
                Err(e) => e == ParseError::MissingOperator && parse_operator(text@) is None,
            },
    {
        let chars = chars_of(text);
        let a = scan(&chars, 0, CharClass::White);
        if a < chars.len() && (chars[a] == '<' || chars[a] == '>' || chars[a] == '=') {
            let (operator, length) = read_operator_at(&chars, a);
            if scan(&chars, a + length, CharClass::White) >= chars.len() {
                return Ok(operator);
            }
        }
        Err(ParseError::MissingOperator)
    }
}

impl LinearFunction {
    /// Reads a linear function from its text.
    pub fn parse(text: &str) -> (r: Result<LinearFunction, ParseError>)
        ensures
            match r {
                Ok(f) => parse_expression(text@) == Ok::<LinearModel, ParseError>(f@),
                Err(e) => parse_expression(text@) == Err::<LinearModel, ParseError>(e),
            },
    {
        read_expression(text)
    }
}

impl Constraint {
    /// Reads a constraint from its text.
    pub fn parse(text: &str) -> (r: Result<Constraint, ParseError>)
        ensures
            match r {
                Ok(c) => parse_constraint(text@) == Ok::<ConstraintModel, ParseError>(c@),
                Err(e) => parse_constraint(text@) == Err::<ConstraintModel, ParseError>(e),
            },
    {
        let chars = chars_of(text);
        let p = find_operator(&chars);
        if p >= chars.len() {
            return Err(ParseError::MissingOperator);
        }
        let (operator, length) = read_operator_at(&chars, p);
        let left = read_expression(text.substring_char(0, p));
        let right = read_expression(text.substring_char(p + length, chars.len()));
        match left {
            Err(e) => Err(e),
            Ok(left) => match right {
                Err(e) => Err(e),
                Ok(right) => Ok(Constraint::new(left, operator, right)),
            },
        }
    }
}

impl crate::constraint::Constraints {
    /// Reads the rows of a linear program from a text with one constraint
    /// to a line. Lines of white space only are passed over.
    pub fn compile(text: &str) -> (r: Result<crate::constraint::Constraints, ParseError>)
        ensures
            match r {
                Ok(rows) => compile_text(text@) == Ok::<Seq<ConstraintModel>, ParseError>(rows@),
                Err(e) => compile_text(text@) == Err::<Seq<ConstraintModel>, ParseError>(e),
            },
    {
        let chars = chars_of(text);
        let mut rows = crate::constraint::Constraints::new();
        let mut i: usize = 0;
        while i < chars.len()
            invariant
                chars@ == text@,
                compile_from(chars@, i as int, rows@) == compile_text(text@),
            decreases chars@.len() - i,
        {
            let e = find_line_end(&chars, i);
            let line = text.substring_char(i, e);
            let line_chars = chars_of(line);
            if scan(&line_chars, 0, CharClass::White) < line_chars.len() {
                match Constraint::parse(line) {
                    Err(error) => {
                        return Err(error);
                    },
                    Ok(constraint) => {
                        rows.add_constraint(constraint);
                    },
                }
            }
            if e >= chars.len() {
                return Ok(rows);
            }
            i = e + 1;
        }
        Ok(rows)
    }
}

impl core::str::FromStr for Operator {
    type Err = ParseError;

    /// Reads an operator from its text, as `parse` does.
    fn from_str(s: &str) -> (r: Result<Self, Self::Err>)
        ensures
            match r {
                Ok(operator) => parse_operator(s@) == Some(operator),
                Err(e) => e == ParseError::MissingOperator && parse_operator(s@) is None,
            },
    {
        Operator::parse(s)
    }
}

impl core::str::FromStr for LinearFunction {
    type Err = ParseError;

    /// Reads a linear function from its text, as `parse` does.
    fn from_str(s: &str) -> (r: Result<Self, Self::Err>)
        ensures
            match r {
                Ok(f) => parse_expression(s@) == Ok::<LinearModel, ParseError>(f@),
                Err(e) => parse_expression(s@) == Err::<LinearModel, ParseError>(e),
            },
    {
        LinearFunction::parse(s)
    }
}

impl core::str::FromStr for Constraint {
    type Err = ParseError;

    /// Reads a constraint from its text, as `parse` does.
    fn from_str(s: &str) -> (r: Result<Self, Self::Err>)
        ensures
            match r {
                Ok(c) => parse_constraint(s@) == Ok::<ConstraintModel, ParseError>(c@),
                Err(e) => parse_constraint(s@) == Err::<ConstraintModel, ParseError>(e),
            },
    {
        Constraint::parse(s)
    }
}

} // verus!
