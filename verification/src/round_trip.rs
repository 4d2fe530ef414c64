//! Writing a value out and reading the text again.
//!
//! The text of a value reads back as that value, with two exceptions that
//! the grammar forces. A string is written escaped, and the parser knows no
//! escapes. And a symbol runs on to the next whitespace, so the `)` that is
//! written right behind the last element of a list becomes part of that
//! element where it is a symbol: the list is then never closed, and the
//! text is in error.

use crate::error::ParseError;
use crate::expression::Sexp;
use crate::grammar::{
    all_digits, append, atom, continues, decimal_value, digit_value, is_digit, is_space,
    leading, lemma_leading, lemma_leading_unique, parse, run, starts_symbol, well_formed, Run,
};
use crate::depth::{balance, lemma_unbalanced};
use crate::laws::{ends_before, lemma_atom_extend, lemma_parse_well_formed};
use crate::render::{digits_text, render, render_all};
use vstd::prelude::*;

verus! {

/// A value whose text reads back as the value: it holds no string, and no
/// list in it ends with a symbol.
pub open spec fn reads_back(v: Sexp) -> bool
    decreases v,
{
    match v {
        Sexp::List(items) => {
            &&& forall|i: int| 0 <= i < items.len() ==> reads_back(#[trigger] items[i])
            &&& items.len() > 0 ==> !(items.last() is Symbol)
        },
        Sexp::String(_) => false,
        _ => true,
    }
}

/// A number written in base ten is a run of digits that denotes the number.
pub proof fn lemma_digits_text(n: nat)
    ensures
        digits_text(n).len() > 0,
        all_digits(digits_text(n)),
        decimal_value(digits_text(n)) == n,
    decreases n,
{
    let text = digits_text(n);
    if n < 10 {
        assert(text.drop_last() =~= Seq::empty());
        assert(decimal_value(text.drop_last()) == 0);
        assert(digit_value(text.last()) == n);
    } else {
        lemma_digits_text(n / 10);
        assert(text.drop_last() =~= digits_text(n / 10));
        assert(digit_value(text.last()) == n % 10);
        assert forall|i: int| 0 <= i < text.len() implies is_digit(#[trigger] text[i]) by {
            if i < text.len() - 1 {
                assert(text[i] == digits_text(n / 10)[i]);
            }
        }
    }
}

/// The text of a well-formed symbol, integer or decimal literal is one
/// atom, whose value is the value written.
pub proof fn lemma_atom_rendered(v: Sexp)
    requires
        well_formed(v),
        v is Symbol || v is Int || v is Float,
    ensures
        render(v).len() > 0,
        is_digit(render(v)[0]) || starts_symbol(render(v)[0]),
        atom(render(v)) == Ok::<(Sexp, int), ParseError>((v, render(v).len() as int)),
{
    let text = render(v);
    match v {
        Sexp::Symbol(t) => {
            assert forall|i: int| 0 <= i < t.len() implies continues(
                Run::Word,
                #[trigger] t[i],
            ) by {
                assert(!is_space(t[i]));
            }
            lemma_leading_unique(t, Run::Word, t.len() as int);
            assert(t.take(t.len() as int) =~= t);
        },
        Sexp::Int(n) => {
            lemma_digits_text(n as nat);
            assert(is_digit(text[0]));
            lemma_leading_unique(text, Run::Digits, text.len() as int);
            assert(text.take(text.len() as int) =~= text);
        },
        Sexp::Float(t) => {
            let n = leading(t, Run::Digits);
            lemma_leading(t, Run::Digits);
            assert(continues(Run::Digits, t[0]));
            let tail = t.skip(n + 1);
            lemma_leading_unique(tail, Run::Digits, tail.len() as int);
            assert(t.take(t.len() as int) =~= t);
        },
        _ => {},
    }
}

/// Reading the text of `v`, with `rest` behind it, adds `v` to the
/// innermost open list and goes on with `rest`.
pub proof fn lemma_run_rendered(v: Sexp, rest: Seq<char>, stack: Seq<Seq<Sexp>>)
    requires
        well_formed(v),
        reads_back(v),
        ends_before(v, rest),
        stack.len() > 0,
    ensures
        run(render(v) + rest, stack) == run(rest, append(stack, v)),
    decreases v,
{
    let s = render(v) + rest;
    match v {
        Sexp::List(items) => {
            let inside = render_all(items) + seq![')'] + rest;
            assert(s[0] == '(');
            assert(s.skip(1) =~= inside);
            assert forall|i: int| 0 <= i < items.len() implies well_formed(#[trigger] items[i])
                && reads_back(items[i]) by {}
            lemma_run_rendered_all(items, Seq::empty(), rest, stack);
            assert(Seq::<Sexp>::empty() + items =~= items);
        },
        _ => {
            let text = render(v);
            lemma_atom_rendered(v);
            assert(s[0] == text[0]);
            lemma_atom_extend(text, rest, v, text.len() as int);
            assert(s.skip(text.len() as int) =~= rest);
        },
    }
}

/// Reading the texts of `items` and the `)` behind them, inside a list that
/// holds `done` so far, closes that list with `done` and `items` in it.
pub proof fn lemma_run_rendered_all(
    items: Seq<Sexp>,
    done: Seq<Sexp>,
    rest: Seq<char>,
    stack: Seq<Seq<Sexp>>,
)
    requires
        forall|i: int| 0 <= i < items.len() ==> well_formed(#[trigger] items[i]) && reads_back(
            items[i],
        ),
        items.len() > 0 ==> !(items.last() is Symbol),
        stack.len() > 0,
    ensures
        run(render_all(items) + seq![')'] + rest, stack.push(done)) == run(
            rest,
            append(stack, Sexp::List(done + items)),
        ),
    decreases items,
{
    let s = render_all(items) + seq![')'] + rest;
    let open = stack.push(done);
    let closing = seq![')'] + rest;
    if items.len() == 0 {
        assert(s =~= closing);
        assert(s[0] == ')');
        assert(s.skip(1) =~= rest);
        assert(open.drop_last() =~= stack);
        assert(done + items =~= done);
    } else {
        let first = items[0];
        let next = stack.push(done.push(first));
        assert(append(open, first) =~= next) by {
            assert(open.drop_last() =~= stack);
        }
        if items.len() == 1 {
            assert(s =~= render(first) + closing);
            lemma_run_rendered(first, closing, open);
            assert(closing[0] == ')');
            assert(closing.skip(1) =~= rest);
            assert(next.drop_last() =~= stack);
            assert(done + items =~= done.push(first));
        } else {
            let tail = items.skip(1);
            let after = render_all(tail) + seq![')'] + rest;
            let spaced = seq![' '] + after;
            assert(s =~= render(first) + spaced);
            lemma_run_rendered(first, spaced, open);
            assert(spaced[0] == ' ');
            assert(spaced.skip(1) =~= after);
            assert(tail.last() == items.last());
            assert forall|i: int| 0 <= i < tail.len() implies well_formed(#[trigger] tail[i])
                && reads_back(tail[i]) by {
                assert(tail[i] == items[i + 1]);
            }
            lemma_run_rendered_all(tail, done.push(first), rest, stack);
            assert(done.push(first) + tail =~= done + items);
        }
    }
}

/// The text of a well-formed value that holds no string, and no list that
/// ends with a symbol, reads back as that value.
pub proof fn lemma_render_parse(v: Sexp)
    requires
        well_formed(v),
        reads_back(v),
    ensures
        parse(render(v)) == Ok::<Sexp, ParseError>(v),
{
    let start: Seq<Seq<Sexp>> = seq![Seq::empty()];
    let end = append(start, v);
    lemma_run_rendered(v, Seq::empty(), start);
    assert(render(v) + Seq::<char>::empty() =~= render(v));
    assert(run(Seq::<char>::empty(), end) == Ok::<Seq<Seq<Sexp>>, ParseError>(end));
    assert(end[0] =~= seq![v]);
}

/// Round trip: where a text parses to a value that holds no string, and no
/// list that ends with a symbol, writing the value out and parsing what
/// was written gives the same value again.
pub proof fn lemma_round_trip(s: Seq<char>)
    requires
        parse(s) is Ok,
        reads_back(parse(s)->Ok_0),
    ensures
        parse(render(parse(s)->Ok_0)) == parse(s),
{
    lemma_parse_well_formed(s);
    lemma_render_parse(parse(s)->Ok_0);
}

/// A value that holds no string.
pub open spec fn string_free(v: Sexp) -> bool
    decreases v,
{
    match v {
        Sexp::List(items) => forall|i: int|
            0 <= i < items.len() ==> string_free(#[trigger] items[i]),
        Sexp::String(_) => false,
        _ => true,
    }
}

/// Whether the text of `v` ends with a symbol, which then runs on into
/// whatever follows it.
pub open spec fn ends_in_symbol(v: Sexp) -> bool
    decreases v,
{
    match v {
        Sexp::Symbol(_) => true,
        Sexp::List(items) => items.len() > 0 && ends_in_symbol(items.last()),
        _ => false,
    }
}

/// How many `)` in the text of `v` come right behind a symbol and so
/// become part of it.
pub open spec fn swallowed(v: Sexp) -> int
    decreases v,
{
    match v {
        Sexp::List(items) => swallowed_all(items) + if items.len() > 0 && ends_in_symbol(
            items.last(),
        ) {
            1int
        } else {
            0int
        },
        _ => 0,
    }
}

/// The sum of [`swallowed`] over `items`.
pub open spec fn swallowed_all(items: Seq<Sexp>) -> int
    decreases items,
{
    if items.len() == 0 {
        0
    } else {
        swallowed(items[0]) + swallowed_all(items.skip(1))
    }
}

/// What is left of `rest` behind a symbol that has run on into it.
pub open spec fn after_word(rest: Seq<char>) -> Seq<char> {
    rest.skip(leading(rest, Run::Word))
}

/// A value without strings reads back exactly if none of its `)` is
/// swallowed.
pub proof fn lemma_swallowed(v: Sexp)
    requires
        string_free(v),
    ensures
        swallowed(v) >= 0,
        reads_back(v) <==> swallowed(v) == 0,
        reads_back(v) && ends_in_symbol(v) ==> v is Symbol,
    decreases v,
{
    match v {
        Sexp::List(items) => {
            lemma_swallowed_all(items);
            if items.len() > 0 {
                lemma_swallowed(items.last());
            }
        },
        _ => {},
    }
}

/// Values without strings all read back exactly if none of their `)` is
/// swallowed.
pub proof fn lemma_swallowed_all(items: Seq<Sexp>)
    requires
        forall|i: int| 0 <= i < items.len() ==> string_free(#[trigger] items[i]),
    ensures
        swallowed_all(items) >= 0,
        (forall|i: int| 0 <= i < items.len() ==> reads_back(#[trigger] items[i]))
            <==> swallowed_all(items) == 0,
    decreases items,
{
    if items.len() > 0 {
        let tail = items.skip(1);
        lemma_swallowed(items[0]);
        assert forall|i: int| 0 <= i < tail.len() implies string_free(#[trigger] tail[i]) by {
            assert(tail[i] == items[i + 1]);
        }
        lemma_swallowed_all(tail);
        if swallowed_all(items) == 0 {
            assert forall|i: int| 0 <= i < items.len() implies reads_back(#[trigger] items[i]) by {
                if i > 0 {
                    assert(items[i] == tail[i - 1]);
                }
            }
        }
        if forall|i: int| 0 <= i < items.len() ==> reads_back(#[trigger] items[i]) {
            assert forall|i: int| 0 <= i < tail.len() implies reads_back(#[trigger] tail[i]) by {
                assert(tail[i] == items[i + 1]);
            }
        }
    }
}

/// A run that all of `a` continues goes on into `rest`.
pub proof fn lemma_leading_through(a: Seq<char>, rest: Seq<char>, kind: Run)
    requires
        forall|i: int| 0 <= i < a.len() ==> continues(kind, #[trigger] a[i]),
    ensures
        leading(a + rest, kind) == a.len() + leading(rest, kind),
{
    let s = a + rest;
    let n = a.len() + leading(rest, kind);
    lemma_leading(rest, kind);
    assert forall|i: int| 0 <= i < n implies continues(kind, #[trigger] s[i]) by {
        if i < a.len() {
            assert(s[i] == a[i]);
        } else {
            assert(s[i] == rest[i - a.len()]);
        }
    }
    if n < s.len() {
        assert(s[n] == rest[leading(rest, kind)]);
    }
    lemma_leading_unique(s, kind, n);
}

/// The text of `v` leaves open as many lists as it has `)` swallowed, and
/// where it ends with a symbol, that symbol takes what follows up to the
/// next whitespace.
pub proof fn lemma_balance_rendered(v: Sexp, rest: Seq<char>)
    requires
        well_formed(v),
        string_free(v),
        ends_in_symbol(v) || ends_before(v, rest),
    ensures
        balance(render(v) + rest) == swallowed(v) + balance(
            if ends_in_symbol(v) {
                after_word(rest)
            } else {
                rest
            },
        ),
    decreases v,
{
    let s = render(v) + rest;
    match v {
        Sexp::List(items) => {
            let closing = seq![')'] + rest;
            assert(s[0] == '(');
            assert(s.skip(1) =~= render_all(items) + closing);
            assert forall|i: int| 0 <= i < items.len() implies well_formed(#[trigger] items[i])
                && string_free(items[i]) by {}
            lemma_balance_rendered_all(items, closing);
            assert(closing.skip(1) =~= rest);
            assert(continues(Run::Word, closing[0]));
            lemma_leading(rest, Run::Word);
            assert(after_word(closing) =~= after_word(rest));
        },
        Sexp::Symbol(t) => {
            assert forall|i: int| 0 <= i < t.len() implies continues(
                Run::Word,
                #[trigger] t[i],
            ) by {
                assert(!is_space(t[i]));
            }
            lemma_leading_through(t, rest, Run::Word);
            lemma_leading(rest, Run::Word);
            assert(s[0] == t[0]);
            assert(s.skip(t.len() + leading(rest, Run::Word)) =~= after_word(rest));
        },
        _ => {
            let text = render(v);
            lemma_atom_rendered(v);
            assert(s[0] == text[0]);
            lemma_atom_extend(text, rest, v, text.len() as int);
            assert(s.skip(text.len() as int) =~= rest);
        },
    }
}

/// The texts of `items`, in front of a `)`, leave open as many lists as
/// they have `)` swallowed; where the last of them ends with a symbol,
/// that symbol takes the `)` and what follows up to the next whitespace.
pub proof fn lemma_balance_rendered_all(items: Seq<Sexp>, rest: Seq<char>)
    requires
        forall|i: int| 0 <= i < items.len() ==> well_formed(#[trigger] items[i]) && string_free(
            items[i],
        ),
        rest.len() > 0,
        rest[0] == ')',
    ensures
        balance(render_all(items) + rest) == swallowed_all(items) + balance(
            if items.len() > 0 && ends_in_symbol(items.last()) {
                after_word(rest)
            } else {
                rest
            },
        ),
    decreases items,
{
    let s = render_all(items) + rest;
    if items.len() == 0 {
        assert(s =~= rest);
    } else {
        let first = items[0];
        let tail = items.skip(1);
        if items.len() == 1 {
            assert(swallowed_all(tail) == 0);
            lemma_balance_rendered(first, rest);
        } else {
            let after = render_all(tail) + rest;
            let spaced = seq![' '] + after;
            assert(s =~= render(first) + spaced);
            lemma_balance_rendered(first, spaced);
            assert(is_space(spaced[0]));
            assert(spaced.skip(1) =~= after);
            assert(after_word(spaced) =~= spaced);
            assert(balance(spaced) == balance(after));
            assert(tail.last() == items.last());
            assert forall|i: int| 0 <= i < tail.len() implies well_formed(#[trigger] tail[i])
                && string_free(tail[i]) by {
                assert(tail[i] == items[i + 1]);
            }
            lemma_balance_rendered_all(tail, rest);
        }
    }
}

/// The exceptions are real: where a well-formed value without strings
/// holds a list that ends with a symbol, its text is in error.
pub proof fn lemma_render_parse_fails(v: Sexp)
    requires
        well_formed(v),
        string_free(v),
        !reads_back(v),
    ensures
        parse(render(v)) is Err,
{
    let nothing = Seq::<char>::empty();
    lemma_swallowed(v);
    lemma_balance_rendered(v, nothing);
    assert(render(v) + nothing =~= render(v));
    assert(after_word(nothing) =~= nothing);
    lemma_unbalanced(render(v));
}

} // verus!
