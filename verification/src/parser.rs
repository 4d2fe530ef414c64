//! The parser: one pass over the characters, with an explicit stack of the
//! lists that are open.

use crate::error::ParseError;
use crate::expression::{lemma_list_view, views, Expression, Sexp};
use crate::grammar::{
    append, atom, close, continues, is_digit, is_space, leading, lemma_leading,
    lemma_leading_unique, parse, run, well_formed, Run,
};
use crate::laws::lemma_parse_well_formed;
use crate::text::parse_digits;
use vstd::prelude::*;

verus! {

/// The characters of `text`, in order.
fn chars_of(text: &str) -> (chars: Vec<char>)
    ensures
        chars@ == text@,
{
    let mut chars: Vec<char> = Vec::new();
    for c in it: text.chars()
        invariant
            chars@ == it.seq().take(it.index() as int),
            it.seq() == text@,
    {
        chars.push(c);
    }
    chars
}

/// Whether `c` is ASCII whitespace.
fn is_space_char(c: char) -> (b: bool)
    ensures
        b == is_space(c),
{
    c == ' ' || c == '\t' || c == '\n' || c == '\x0C' || c == '\r'
}

/// Whether `c` is an ASCII digit.
fn is_digit_char(c: char) -> (b: bool)
    ensures
        b == is_digit(c),
{
    '0' <= c && c <= '9'
}

/// Whether `c` continues a run of `kind`.
fn continues_run(kind: &Run, c: char) -> (b: bool)
    ensures
        b == continues(*kind, c),
{
    match kind {
        Run::Digits => is_digit_char(c),
        Run::Word => !is_space_char(c),
        Run::Quoted => c != '"',
    }
}

/// Where the run of `kind` that begins at `from` ends.
fn run_end(chars: &Vec<char>, from: usize, kind: Run) -> (end: usize)
    requires
        from <= chars.len(),
    ensures
        from <= end <= chars.len(),
        end - from == leading(chars@.skip(from as int), kind),
{
    let mut end: usize = from;
    while end < chars.len() && continues_run(&kind, chars[end])
        invariant
            from <= end <= chars.len(),
            forall|k: int| from <= k < end ==> continues(kind, #[trigger] chars@[k]),
        decreases chars.len() - end,
    {
        end += 1;
    }
    proof {
        lemma_leading_unique(chars@.skip(from as int), kind, end - from);
    }
    end
}

/// The characters of `chars` from `from` up to `to`, as a string.
fn collect(chars: &Vec<char>, from: usize, to: usize) -> (text: String)
    requires
        from <= to <= chars.len(),
    ensures
        text@ == chars@.subrange(from as int, to as int),
{
    let mut text = String::new();
    let mut i: usize = from;
    while i < to
        invariant
            from <= i <= to <= chars.len(),
            text@ == chars@.subrange(from as int, i as int),
        decreases to - i,
    {
        text.push(chars[i]);
        i += 1;
        assert(text@ =~= chars@.subrange(from as int, i as int));
    }
    text
}

/// The stack of open lists that `outer` and the innermost list `current`
/// stand for.
spec fn frames(outer: Seq<Vec<Expression>>, current: Seq<Expression>) -> Seq<Seq<Sexp>> {
    Seq::new(outer.len(), |k: int| views(outer[k]@)).push(views(current))
}

/// Reads the atom that begins at `from`: the expression and the place
/// just behind it.
fn scan_atom(chars: &Vec<char>, from: usize) -> (scanned: Result<
    (Expression, usize),
    ParseError,
>)
    requires
        from < chars.len(),
        !is_space(chars@[from as int]),
    ensures
        match scanned {
            Ok((e, next)) => {
                &&& from < next <= chars.len()
                &&& atom(chars@.skip(from as int)) == Ok::<(Sexp, int), ParseError>(
                    (e@, next - from),
                )
            },
            Err(err) => atom(chars@.skip(from as int)) == Err::<(Sexp, int), ParseError>(err),
        },
{
    let ghost s = chars@.skip(from as int);
    let c = chars[from];
    assert(s[0] == c);
    if c == '"' {
        let end = run_end(chars, from + 1, Run::Quoted);
        assert(s.skip(1) =~= chars@.skip(from + 1));
        if end < chars.len() {
            let text = collect(chars, from + 1, end);
            assert(text@ =~= s.subrange(1, end - from));
            Ok((Expression::String(text), end + 1))
        } else {
            Err(ParseError::UnclosedString)
        }
    } else if is_digit_char(c) {
        let point = run_end(chars, from, Run::Digits);
        if point < chars.len() && chars[point] == '.' {
            assert(s[point - from] == '.');
            let end = run_end(chars, point + 1, Run::Digits);
            assert(s.skip(point - from + 1) =~= chars@.skip(point + 1));
            let text = collect(chars, from, end);
            assert(text@ =~= s.take(end - from));
            Ok((Expression::Float(text), end))
        } else {
            if point < chars.len() {
                assert(s[point - from] == chars@[point as int]);
            }
            let text = collect(chars, from, point);
            proof {
                lemma_leading(s, Run::Digits);
                assert(text@ =~= s.take(point - from));
                assert(continues(Run::Digits, s[0]));
                assert forall|i: int| 0 <= i < text@.len() implies is_digit(
                    #[trigger] text@[i],
                ) by {
                    assert(continues(Run::Digits, s[i]));
                }
            }
            match parse_digits(text.as_str()) {
                Ok(n) => Ok((Expression::Int(n), point)),
                Err(e) => Err(ParseError::ParseIntError(e)),
            }
        }
    } else {
        let end = run_end(chars, from, Run::Word);
        let text = collect(chars, from, end);
        proof {
            assert(text@ =~= s.take(end - from));
            assert(continues(Run::Word, s[0]));
            lemma_leading(s, Run::Word);
        }
        Ok((Expression::Symbol(text), end))
    }
}

/// Whether `parsed` is what the grammar says of `text`: an expression whose
/// model is the value of the text and is well formed, or the error that
/// the grammar names.
pub open spec fn is_parse_of(parsed: Result<Expression, ParseError>, text: Seq<char>) -> bool {
    match parsed {
        Ok(e) => parse(text) == Ok::<Sexp, ParseError>(e@) && well_formed(e@),
        Err(err) => parse(text) == Err::<Sexp, ParseError>(err),
    }
}

impl TryFrom<String> for Expression {
    type Error = ParseError;

    /// Parses `value`: the whole text, in one pass.
    ///
    /// The result is the value that the grammar gives the text, and it is
    /// well formed; where the grammar rejects the text, the result is the
    /// error that the grammar names.
    fn try_from(value: String) -> (parsed: Result<Expression, ParseError>)
        ensures
            is_parse_of(parsed, value@),
    {
        proof {
            lemma_parse_well_formed(value@);
        }
        let chars = chars_of(value.as_str());
        let mut outer: Vec<Vec<Expression>> = Vec::new();
        let mut current: Vec<Expression> = Vec::new();
        let mut i: usize = 0;
        assert(chars@.skip(0) =~= chars@);
        assert(views(current@) =~= Seq::empty());
        assert(frames(outer@, current@) =~= seq![Seq::empty()]);
        while i < chars.len()
            invariant
                i <= chars.len(),
                chars@ == value@,
                run(chars@.skip(i as int), frames(outer@, current@)) == run(
                    chars@,
                    seq![Seq::empty()],
                ),
            decreases chars.len() - i,
        {
            let ghost s = chars@.skip(i as int);
            let ghost stack = frames(outer@, current@);
            let c = chars[i];
            assert(s[0] == c);
            assert(s.skip(1) =~= chars@.skip(i + 1));
            if is_space_char(c) {
                i += 1;
            } else if c == '(' {
                outer.push(current);
                current = Vec::new();
                i += 1;
                assert(views(current@) =~= Seq::empty());
                assert(frames(outer@, current@) =~= stack.push(Seq::empty()));
            } else if c == ')' {
                match outer.pop() {
                    Some(parent) => {
                        let mut parent = parent;
                        let ghost before = parent@;
                        let ghost closed = current@;
                        let list = Expression::List(current);
                        proof {
                            lemma_list_view(current);
                        }
                        parent.push(list);
                        current = parent;
                        i += 1;
                        proof {
                            assert(stack.last() =~= views(closed));
                            assert(stack.drop_last().last() =~= views(before));
                            assert(views(current@) =~= views(before).push(list@));
                            assert(frames(outer@, current@) =~= close(stack));
                        }
                    },
                    None => {
                        return Err(ParseError::NoMatchingOpenParan);
                    },
                }
            } else {
                match scan_atom(&chars, i) {
                    Ok((e, next)) => {
                        let ghost before = current@;
                        current.push(e);
                        assert(s.skip(next - i) =~= chars@.skip(next as int));
                        assert(views(current@) =~= views(before).push(e@));
                        assert(frames(outer@, current@) =~= append(stack, e@));
                        i = next;
                    },
                    Err(err) => {
                        return Err(err);
                    },
                }
            }
        }
        if outer.len() > 0 {
            return Err(ParseError::ExpectedClosingParan);
        }
        if current.len() == 1 {
            match current.pop() {
                Some(e) => Ok(e),
                None => Ok(Expression::List(current)),
            }
        } else {
            proof {
                lemma_list_view(current);
            }
            Ok(Expression::List(current))
        }
    }
}

impl vstd::std_specs::convert::TryFromSpecImpl<String> for Expression {
    /// `try_from` promises a result with the right model, not one
    /// particular expression: two expressions with one model need not be
    /// equal as values.
    open spec fn obeys_try_from_spec() -> bool {
        false
    }

    /// Some result whose model is what the grammar says of `value`.
    open spec fn try_from_spec(value: String) -> Result<Expression, ParseError> {
        choose|parsed: Result<Expression, ParseError>| is_parse_of(parsed, value@)
    }
}

} // verus!
