//! What a text means: the grammar, as functions on sequences of characters.
//!
//! A text is read left to right. Atoms (quoted texts, numbers, symbols) are
//! cut from its front by [`atom`]; [`run`] folds them, and the parentheses
//! between them, into a stack of open lists; [`parse`] is the value left
//! when the text is used up.

use crate::error::ParseError;
use crate::expression::Sexp;
use crate::text::digits_error;
use vstd::prelude::*;

verus! {

/// ASCII whitespace: space, tab, line feed, form feed, carriage return.
pub open spec fn is_space(c: char) -> bool {
    c == ' ' || c == '\t' || c == '\n' || c == '\x0C' || c == '\r'
}

/// An ASCII digit.
pub open spec fn is_digit(c: char) -> bool {
    '0' <= c <= '9'
}

/// A character that begins a symbol: anything but whitespace, a
/// parenthesis, a double quote or a digit.
pub open spec fn starts_symbol(c: char) -> bool {
    !is_space(c) && c != '(' && c != ')' && c != '"' && !is_digit(c)
}

/// The three kinds of run that an atom is made of.
pub enum Run {
    /// Digits.
    Digits,
    /// Anything but whitespace: the body of a symbol.
    Word,
    /// Anything but a double quote: the inside of a quoted text.
    Quoted,
}

/// Whether `c` continues a run of the given kind.
pub open spec fn continues(kind: Run, c: char) -> bool {
    match kind {
        Run::Digits => is_digit(c),
        Run::Word => !is_space(c),
        Run::Quoted => c != '"',
    }
}

/// How many characters at the front of `s` continue a run of `kind`.
pub open spec fn leading(s: Seq<char>, kind: Run) -> int
    decreases s.len(),
{
    if s.len() > 0 && continues(kind, s[0]) {
        1 + leading(s.skip(1), kind)
    } else {
        0
    }
}

/// The number that a digit stands for.
pub open spec fn digit_value(c: char) -> nat {
    (c as int - '0' as int) as nat
}

/// The number that a run of digits denotes in base ten.
pub open spec fn decimal_value(digits: Seq<char>) -> nat
    decreases digits.len(),
{
    if digits.len() == 0 {
        0
    } else {
        10 * decimal_value(digits.drop_last()) + digit_value(digits.last())
    }
}

/// Every character of `s` is a digit.
pub open spec fn all_digits(s: Seq<char>) -> bool {
    forall|i: int| 0 <= i < s.len() ==> is_digit(#[trigger] s[i])
}

/// A decimal literal: one or more digits, a point, then digits or nothing.
pub open spec fn is_decimal_literal(s: Seq<char>) -> bool {
    let n = leading(s, Run::Digits);
    &&& 0 < n < s.len()
    &&& s[n] == '.'
    &&& all_digits(s.skip(n + 1))
}

/// The atom at the front of `s` and the number of characters it takes,
/// for an `s` that begins with a double quote, a digit or the first
/// character of a symbol.
///
/// - After a double quote, everything up to the next double quote, both
///   quotes taken. Without a second quote the text is unclosed.
/// - From a digit, the digits that follow. If a point comes next, it and
///   the digits after it belong to the literal, which is then a decimal
///   one; otherwise the digits are an integer, which must fit 64 signed
///   bits.
/// - From any other character, everything up to the next whitespace.
pub open spec fn atom(s: Seq<char>) -> Result<(Sexp, int), ParseError>
    recommends
        s.len() > 0,
{
    if s[0] == '"' {
        let n = leading(s.skip(1), Run::Quoted);
        if n + 1 < s.len() {
            Ok((Sexp::String(s.subrange(1, n + 1)), n + 2))
        } else {
            Err(ParseError::UnclosedString)
        }
    } else if is_digit(s[0]) {
        let n = leading(s, Run::Digits);
        if n < s.len() && s[n] == '.' {
            let m = n + 1 + leading(s.skip(n + 1), Run::Digits);
            Ok((Sexp::Float(s.take(m)), m))
        } else if decimal_value(s.take(n)) <= i64::MAX {
            Ok((Sexp::Int(decimal_value(s.take(n)) as int), n))
        } else {
            Err(ParseError::ParseIntError(digits_error(s.take(n))))
        }
    } else {
        let n = leading(s, Run::Word);
        Ok((Sexp::Symbol(s.take(n)), n))
    }
}

/// The stack with `v` added to its innermost open list.
pub open spec fn append(stack: Seq<Seq<Sexp>>, v: Sexp) -> Seq<Seq<Sexp>>
    recommends
        stack.len() > 0,
{
    stack.drop_last().push(stack.last().push(v))
}

/// The stack with its innermost open list closed: wrapped as one value and
/// added to the list around it.
pub open spec fn close(stack: Seq<Seq<Sexp>>) -> Seq<Seq<Sexp>>
    recommends
        stack.len() > 1,
{
    append(stack.drop_last(), Sexp::List(stack.last()))
}

/// The stack of open lists after reading all of `s`, starting from `stack`,
/// or the first error met on the way.
///
/// Whitespace is skipped. `(` opens a list. `)` closes the innermost one,
/// and is an error where only the outermost list is open. Anything else
/// begins an atom, which joins the innermost list.
pub open spec fn run(s: Seq<char>, stack: Seq<Seq<Sexp>>) -> Result<Seq<Seq<Sexp>>, ParseError>
    decreases s.len(),
    via run_decreases
{
    if s.len() == 0 {
        Ok(stack)
    } else if is_space(s[0]) {
        run(s.skip(1), stack)
    } else if s[0] == '(' {
        run(s.skip(1), stack.push(Seq::empty()))
    } else if s[0] == ')' {
        if stack.len() > 1 {
            run(s.skip(1), close(stack))
        } else {
            Err(ParseError::NoMatchingOpenParan)
        }
    } else {
        match atom(s) {
            Ok((v, n)) => run(s.skip(n), append(stack, v)),
            Err(e) => Err(e),
        }
    }
}

#[via_fn]
proof fn run_decreases(s: Seq<char>, stack: Seq<Seq<Sexp>>) {
    if s.len() > 0 && !is_space(s[0]) && s[0] != '(' && s[0] != ')' {
        lemma_atom_length(s);
    }
}

/// The expressions at the top level of `s`, in order.
///
/// Reading starts with one open list, the outermost, which no `)` closes;
/// a list still open at the end of the text is an error.
pub open spec fn top_level(s: Seq<char>) -> Result<Seq<Sexp>, ParseError> {
    match run(s, seq![Seq::empty()]) {
        Ok(stack) => if stack.len() == 1 {
            Ok(stack[0])
        } else {
            Err(ParseError::ExpectedClosingParan)
        },
        Err(e) => Err(e),
    }
}

/// One expression stands for itself; none or several form a list.
pub open spec fn collapse(items: Seq<Sexp>) -> Sexp {
    if items.len() == 1 {
        items[0]
    } else {
        Sexp::List(items)
    }
}

/// The value of the text `s`, or the first error in it.
pub open spec fn parse(s: Seq<char>) -> Result<Sexp, ParseError> {
    match top_level(s) {
        Ok(items) => Ok(collapse(items)),
        Err(e) => Err(e),
    }
}

/// A value as the parser makes it.
///
/// A symbol is not empty, begins with a symbol character and holds no
/// whitespace; a quoted text holds no double quote; an integer lies between
/// zero and the largest signed 64-bit number; a decimal literal has the
/// shape of one; and a list holds such values only.
pub open spec fn well_formed(v: Sexp) -> bool
    decreases v,
{
    match v {
        Sexp::List(items) => forall|i: int|
            0 <= i < items.len() ==> well_formed(#[trigger] items[i]),
        Sexp::Symbol(t) => {
            &&& t.len() > 0
            &&& starts_symbol(t[0])
            &&& forall|i: int| 0 <= i < t.len() ==> !is_space(#[trigger] t[i])
        },
        Sexp::String(t) => forall|i: int| 0 <= i < t.len() ==> #[trigger] t[i] != '"',
        Sexp::Int(n) => 0 <= n <= i64::MAX,
        Sexp::Float(t) => is_decimal_literal(t),
    }
}

/// A run is no longer than the text, every character in it continues it,
/// and the character after it, if there is one, does not.
pub proof fn lemma_leading(s: Seq<char>, kind: Run)
    ensures
        0 <= leading(s, kind) <= s.len(),
        s.len() > 0 && continues(kind, s[0]) ==> leading(s, kind) > 0,
        forall|i: int| 0 <= i < leading(s, kind) ==> continues(kind, #[trigger] s[i]),
        leading(s, kind) < s.len() ==> !continues(kind, s[leading(s, kind)]),
    decreases s.len(),
{
    if s.len() > 0 && continues(kind, s[0]) {
        let rest = s.skip(1);
        lemma_leading(rest, kind);
        assert forall|i: int| 0 <= i < leading(s, kind) implies continues(
            kind,
            #[trigger] s[i],
        ) by {
            if i > 0 {
                assert(s[i] == rest[i - 1]);
            }
        }
        if leading(s, kind) < s.len() {
            assert(s[leading(s, kind)] == rest[leading(rest, kind)]);
        }
    }
}

/// A run is the only prefix that its characters continue and the next
/// character does not.
pub proof fn lemma_leading_unique(s: Seq<char>, kind: Run, n: int)
    requires
        0 <= n <= s.len(),
        forall|i: int| 0 <= i < n ==> continues(kind, #[trigger] s[i]),
        n < s.len() ==> !continues(kind, s[n]),
    ensures
        leading(s, kind) == n,
    decreases n,
{
    if n > 0 {
        let rest = s.skip(1);
        assert(continues(kind, s[0]));
        assert forall|i: int| 0 <= i < n - 1 implies continues(kind, #[trigger] rest[i]) by {
            assert(rest[i] == s[i + 1]);
        }
        if n - 1 < rest.len() {
            assert(rest[n - 1] == s[n]);
        }
        lemma_leading_unique(rest, kind, n - 1);
    }
}

/// An atom takes at least one character and no more than there are.
pub proof fn lemma_atom_length(s: Seq<char>)
    requires
        s.len() > 0,
        !is_space(s[0]),
    ensures
        atom(s) matches Ok((_, n)) ==> 0 < n <= s.len(),
{
    lemma_leading(s.skip(1), Run::Quoted);
    lemma_leading(s, Run::Digits);
    lemma_leading(s, Run::Word);
    let n = leading(s, Run::Digits);
    if n < s.len() {
        lemma_leading(s.skip(n + 1), Run::Digits);
    }
    if is_digit(s[0]) {
        assert(continues(Run::Digits, s[0]));
    } else {
        assert(continues(Run::Word, s[0]));
    }
}

} // verus!
