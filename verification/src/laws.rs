//! What holds of every text: laws of the grammar, proved from its
//! definition.

use crate::error::ParseError;
use crate::expression::Sexp;
use crate::grammar::{
    all_digits, append, atom, close, continues, decimal_value, is_decimal_literal,
    is_digit, is_space, leading, lemma_atom_length, lemma_leading, lemma_leading_unique, parse,
    run, starts_symbol, top_level, well_formed, Run,
};
use crate::text::digits_error;
use vstd::prelude::*;

verus! {

/// A stack of open lists that holds at least the outermost list, and in
/// which every value is as the parser makes it.
pub open spec fn stack_well_formed(stack: Seq<Seq<Sexp>>) -> bool {
    &&& stack.len() > 0
    &&& forall|k: int, j: int|
        0 <= k < stack.len() && 0 <= j < stack[k].len() ==> well_formed(#[trigger] stack[k][j])
}

/// The value of an atom is as the parser makes it.
pub proof fn lemma_atom_well_formed(s: Seq<char>)
    requires
        s.len() > 0,
        s[0] == '"' || is_digit(s[0]) || starts_symbol(s[0]),
    ensures
        atom(s) matches Ok((v, _)) ==> well_formed(v),
{
    if s[0] == '"' {
        let rest = s.skip(1);
        let n = leading(rest, Run::Quoted);
        lemma_leading(rest, Run::Quoted);
        if n + 1 < s.len() {
            let t = s.subrange(1, n + 1);
            assert forall|i: int| 0 <= i < t.len() implies #[trigger] t[i] != '"' by {
                assert(continues(Run::Quoted, rest[i]));
            }
        }
    } else if is_digit(s[0]) {
        let n = leading(s, Run::Digits);
        lemma_leading(s, Run::Digits);
        if n < s.len() && s[n] == '.' {
            let tail = s.skip(n + 1);
            let m = n + 1 + leading(tail, Run::Digits);
            lemma_leading(tail, Run::Digits);
            let t = s.take(m);
            assert forall|i: int| 0 <= i < n implies continues(Run::Digits, #[trigger] t[i]) by {
                assert(continues(Run::Digits, s[i]));
            }
            lemma_leading_unique(t, Run::Digits, n);
            assert forall|i: int| 0 <= i < t.skip(n + 1).len() implies is_digit(
                #[trigger] t.skip(n + 1)[i],
            ) by {
                assert(continues(Run::Digits, tail[i]));
            }
        }
    } else {
        let n = leading(s, Run::Word);
        lemma_leading(s, Run::Word);
        let t = s.take(n);
        assert(continues(Run::Word, s[0]));
        assert forall|i: int| 0 <= i < t.len() implies !is_space(#[trigger] t[i]) by {
            assert(continues(Run::Word, s[i]));
        }
    }
}

/// Reading a text keeps a stack of open lists well formed.
pub proof fn lemma_run_well_formed(s: Seq<char>, stack: Seq<Seq<Sexp>>)
    requires
        stack_well_formed(stack),
    ensures
        run(s, stack) matches Ok(out) ==> stack_well_formed(out),
    decreases s.len(),
{
    if s.len() == 0 {
    } else if is_space(s[0]) {
        lemma_run_well_formed(s.skip(1), stack);
    } else if s[0] == '(' {
        let next = stack.push(Seq::empty());
        assert(stack_well_formed(next)) by {
            assert forall|k: int, j: int|
                0 <= k < next.len() && 0 <= j < next[k].len() implies well_formed(
                #[trigger] next[k][j],
            ) by {
                assert(next[k][j] == stack[k][j]);
            }
        }
        lemma_run_well_formed(s.skip(1), next);
    } else if s[0] == ')' {
        if stack.len() > 1 {
            let list = Sexp::List(stack.last());
            assert(well_formed(list)) by {
                assert forall|i: int| 0 <= i < stack.last().len() implies well_formed(
                    #[trigger] stack.last()[i],
                ) by {
                    assert(stack.last()[i] == stack[stack.len() - 1][i]);
                }
            }
            lemma_append_well_formed(stack.drop_last(), list);
            lemma_run_well_formed(s.skip(1), close(stack));
        }
    } else {
        lemma_atom_length(s);
        lemma_atom_well_formed(s);
        match atom(s) {
            Ok((v, n)) => {
                lemma_append_well_formed(stack, v);
                lemma_run_well_formed(s.skip(n), append(stack, v));
            },
            Err(_) => {},
        }
    }
}

/// Adding a well-formed value to the innermost list keeps the stack well
/// formed.
pub proof fn lemma_append_well_formed(stack: Seq<Seq<Sexp>>, v: Sexp)
    requires
        stack_well_formed(stack),
        well_formed(v),
    ensures
        stack_well_formed(append(stack, v)),
{
    let next = append(stack, v);
    assert forall|k: int, j: int|
        0 <= k < next.len() && 0 <= j < next[k].len() implies well_formed(
        #[trigger] next[k][j],
    ) by {
        if k < stack.len() - 1 {
            assert(next[k][j] == stack[k][j]);
        } else if j < stack.last().len() {
            assert(next[k][j] == stack[stack.len() - 1][j]);
        } else {
            assert(next[k][j] == v);
        }
    }
}

/// Whatever the parser returns is well formed: its symbols are not empty
/// and hold no whitespace, its quoted texts hold no double quote, its
/// integers are not negative, its decimal literals have the shape of one.
pub proof fn lemma_parse_well_formed(s: Seq<char>)
    ensures
        parse(s) matches Ok(v) ==> well_formed(v),
{
    let start: Seq<Seq<Sexp>> = seq![Seq::empty()];
    assert(stack_well_formed(start));
    lemma_run_well_formed(s, start);
    match run(s, start) {
        Ok(out) => {
            if out.len() == 1 {
                let items = out[0];
                assert forall|i: int| 0 <= i < items.len() implies well_formed(
                    #[trigger] items[i],
                ) by {
                    assert(items[i] == out[0][i]);
                }
            }
        },
        Err(_) => {},
    }
}

/// Whether `rest` may follow the text of `v` without becoming part of it:
/// after a symbol only whitespace may come, after an integer neither a digit
/// nor a point, after a decimal literal no digit. The end of the text may
/// follow anything.
pub open spec fn ends_before(v: Sexp, rest: Seq<char>) -> bool {
    rest.len() == 0 || match v {
        Sexp::Symbol(_) => is_space(rest[0]),
        Sexp::Int(_) => !is_digit(rest[0]) && rest[0] != '.',
        Sexp::Float(_) => !is_digit(rest[0]),
        _ => true,
    }
}

/// A run that ends inside `a`, or at its end where `rest` does not go on
/// with it, is the same run in `a + rest`.
pub proof fn lemma_leading_extend(a: Seq<char>, rest: Seq<char>, kind: Run)
    requires
        leading(a, kind) < a.len() || rest.len() == 0 || !continues(kind, rest[0]),
    ensures
        leading(a + rest, kind) == leading(a, kind),
{
    let n = leading(a, kind);
    let s = a + rest;
    lemma_leading(a, kind);
    assert forall|i: int| 0 <= i < n implies continues(kind, #[trigger] s[i]) by {
        assert(s[i] == a[i]);
    }
    if n < a.len() {
        assert(s[n] == a[n]);
    } else if rest.len() > 0 {
        assert(s[n] == rest[0]);
    }
    lemma_leading_unique(s, kind, n);
}

/// An atom that ends inside `a`, or at its end where `rest` may follow it,
/// is the same atom in `a + rest`.
pub proof fn lemma_atom_extend(a: Seq<char>, rest: Seq<char>, v: Sexp, n: int)
    requires
        a.len() > 0,
        !is_space(a[0]),
        atom(a) == Ok::<(Sexp, int), ParseError>((v, n)),
        n < a.len() || ends_before(v, rest),
    ensures
        atom(a + rest) == Ok::<(Sexp, int), ParseError>((v, n)),
{
    let s = a + rest;
    assert(s[0] == a[0]);
    lemma_atom_length(a);
    if a[0] == '"' {
        let inside = a.skip(1);
        lemma_leading(inside, Run::Quoted);
        lemma_leading_extend(inside, rest, Run::Quoted);
        assert(s.skip(1) =~= inside + rest);
        let k = leading(inside, Run::Quoted);
        assert(s.subrange(1, k + 1) =~= a.subrange(1, k + 1));
    } else if is_digit(a[0]) {
        let k = leading(a, Run::Digits);
        lemma_leading(a, Run::Digits);
        if k < a.len() && a[k] == '.' {
            let tail = a.skip(k + 1);
            let m = k + 1 + leading(tail, Run::Digits);
            lemma_leading(tail, Run::Digits);
            lemma_leading_extend(a, rest, Run::Digits);
            assert(s[k] == a[k]);
            assert(m == n);
            lemma_leading_extend(tail, rest, Run::Digits);
            assert(s.skip(k + 1) =~= tail + rest);
            assert(s.take(m) =~= a.take(m));
        } else {
            assert(k == n);
            lemma_leading_extend(a, rest, Run::Digits);
            if k < a.len() {
                assert(s[k] == a[k]);
            } else if rest.len() > 0 {
                assert(s[k] == rest[0]);
            }
            assert(s.take(k) =~= a.take(k));
        }
    } else {
        let k = leading(a, Run::Word);
        lemma_leading(a, Run::Word);
        lemma_leading_extend(a, rest, Run::Word);
        assert(s.take(k) =~= a.take(k));
    }
}

/// The empty text is the empty list.
pub proof fn lemma_parse_empty()
    ensures
        parse(Seq::empty()) == Ok::<Sexp, ParseError>(Sexp::List(Seq::empty())),
{
    let start: Seq<Seq<Sexp>> = seq![Seq::empty()];
    assert(run(Seq::empty(), start) == Ok::<Seq<Seq<Sexp>>, ParseError>(start));
}

/// A text that is one atom and nothing else has the value of that atom.
pub proof fn lemma_parse_atom(s: Seq<char>, v: Sexp)
    requires
        s.len() > 0,
        s[0] == '"' || is_digit(s[0]) || starts_symbol(s[0]),
        atom(s) == Ok::<(Sexp, int), ParseError>((v, s.len() as int)),
    ensures
        parse(s) == Ok::<Sexp, ParseError>(v),
{
    let start: Seq<Seq<Sexp>> = seq![Seq::empty()];
    let end = append(start, v);
    assert(s.skip(s.len() as int).len() == 0);
    assert(run(s.skip(s.len() as int), end) == Ok::<Seq<Seq<Sexp>>, ParseError>(end));
    assert(run(s, start) == Ok::<Seq<Seq<Sexp>>, ParseError>(end));
    assert(end[0] =~= seq![v]);
}

/// A run of digits is the integer that it denotes in base ten, where that
/// fits 64 signed bits, and an integer conversion error where it does not.
pub proof fn lemma_parse_integer(s: Seq<char>)
    requires
        s.len() > 0,
        all_digits(s),
    ensures
        decimal_value(s) <= i64::MAX ==> parse(s) == Ok::<Sexp, ParseError>(
            Sexp::Int(decimal_value(s) as int),
        ),
        decimal_value(s) > i64::MAX ==> parse(s) == Err::<Sexp, ParseError>(
            ParseError::ParseIntError(digits_error(s)),
        ),
{
    lemma_leading_unique(s, Run::Digits, s.len() as int);
    assert(s.take(s.len() as int) =~= s);
    if decimal_value(s) <= i64::MAX {
        lemma_parse_atom(s, Sexp::Int(decimal_value(s) as int));
    } else {
        assert(atom(s) == Err::<(Sexp, int), ParseError>(
            ParseError::ParseIntError(digits_error(s)),
        ));
    }
}

/// Digits, a point and digits again are a decimal literal, kept as written.
pub proof fn lemma_parse_decimal(s: Seq<char>)
    requires
        is_decimal_literal(s),
    ensures
        parse(s) == Ok::<Sexp, ParseError>(Sexp::Float(s)),
{
    let n = leading(s, Run::Digits);
    lemma_leading(s, Run::Digits);
    assert(continues(Run::Digits, s[0]));
    let tail = s.skip(n + 1);
    lemma_leading_unique(tail, Run::Digits, tail.len() as int);
    assert(s.take(s.len() as int) =~= s);
    lemma_parse_atom(s, Sexp::Float(s));
}

/// A text without whitespace that begins with neither a parenthesis, a
/// double quote nor a digit is a symbol: the text itself.
pub proof fn lemma_parse_symbol(s: Seq<char>)
    requires
        s.len() > 0,
        starts_symbol(s[0]),
        forall|i: int| 0 <= i < s.len() ==> !is_space(#[trigger] s[i]),
    ensures
        parse(s) == Ok::<Sexp, ParseError>(Sexp::Symbol(s)),
{
    lemma_leading_unique(s, Run::Word, s.len() as int);
    assert(s.take(s.len() as int) =~= s);
    lemma_parse_atom(s, Sexp::Symbol(s));
}

/// A text between two double quotes, with none inside, is a string: the
/// text between the quotes, unchanged.
pub proof fn lemma_parse_quoted(t: Seq<char>)
    requires
        forall|i: int| 0 <= i < t.len() ==> #[trigger] t[i] != '"',
    ensures
        parse(seq!['"'] + t + seq!['"']) == Ok::<Sexp, ParseError>(Sexp::String(t)),
{
    let s = seq!['"'] + t + seq!['"'];
    let rest = s.skip(1);
    assert(rest =~= t + seq!['"']);
    assert forall|i: int| 0 <= i < t.len() implies continues(Run::Quoted, #[trigger] rest[i]) by {
        assert(rest[i] == t[i]);
    }
    lemma_leading_unique(rest, Run::Quoted, t.len() as int);
    assert(s.subrange(1, t.len() as int + 1) =~= t);
    lemma_parse_atom(s, Sexp::String(t));
}

/// A text that holds exactly one expression at its top level has that
/// expression as its value, not a list around it.
pub proof fn lemma_one_expression(s: Seq<char>, v: Sexp)
    requires
        top_level(s) == Ok::<Seq<Sexp>, ParseError>(seq![v]),
    ensures
        parse(s) == Ok::<Sexp, ParseError>(v),
{
}

/// A text that holds no expression at its top level, or more than one, has
/// the list of them as its value, in the order of the text.
pub proof fn lemma_many_expressions(s: Seq<char>, items: Seq<Sexp>)
    requires
        top_level(s) == Ok::<Seq<Sexp>, ParseError>(items),
        items.len() != 1,
    ensures
        parse(s) == Ok::<Sexp, ParseError>(Sexp::List(items)),
{
}

} // verus!
