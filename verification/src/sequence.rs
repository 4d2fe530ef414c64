//! Texts side by side: what two texts with whitespace between them mean,
//! given what each means alone.

use crate::error::ParseError;
use crate::expression::Sexp;
use crate::grammar::{
    append, atom, close, collapse, is_space, lemma_atom_length, parse, run, top_level,
};
use crate::laws::{ends_before, lemma_atom_extend};
use vstd::prelude::*;

verus! {

/// The stack with `before` put in front of what its outermost list holds.
pub open spec fn under(before: Seq<Sexp>, stack: Seq<Seq<Sexp>>) -> Seq<Seq<Sexp>>
    recommends
        stack.len() > 0,
{
    stack.update(0, before + stack[0])
}

/// What the outermost list held before a text was read stays in front of
/// what the text adds, and decides nothing else: neither the error nor
/// the lists above.
pub proof fn lemma_run_under(s: Seq<char>, before: Seq<Sexp>, stack: Seq<Seq<Sexp>>)
    requires
        stack.len() > 0,
    ensures
        run(s, under(before, stack)) == match run(s, stack) {
            Ok(out) => Ok::<Seq<Seq<Sexp>>, ParseError>(under(before, out)),
            Err(e) => Err(e),
        },
        run(s, stack) matches Ok(out) ==> out.len() > 0,
    decreases s.len(),
{
    let lower = under(before, stack);
    if s.len() == 0 {
    } else if is_space(s[0]) {
        lemma_run_under(s.skip(1), before, stack);
    } else if s[0] == '(' {
        assert(lower.push(Seq::empty()) =~= under(before, stack.push(Seq::empty())));
        lemma_run_under(s.skip(1), before, stack.push(Seq::empty()));
    } else if s[0] == ')' {
        if stack.len() > 1 {
            lemma_close_under(before, stack);
            lemma_run_under(s.skip(1), before, close(stack));
        }
    } else {
        lemma_atom_length(s);
        match atom(s) {
            Ok((v, n)) => {
                lemma_append_under(before, stack, v);
                lemma_run_under(s.skip(n), before, append(stack, v));
            },
            Err(_) => {},
        }
    }
}

proof fn lemma_append_under(before: Seq<Sexp>, stack: Seq<Seq<Sexp>>, v: Sexp)
    requires
        stack.len() > 0,
    ensures
        append(under(before, stack), v) == under(before, append(stack, v)),
        append(stack, v).len() == stack.len(),
{
    let left = append(under(before, stack), v);
    let right = under(before, append(stack, v));
    assert(left.len() == right.len());
    assert forall|k: int| 0 <= k < left.len() implies left[k] == right[k] by {
        if k == 0 && stack.len() == 1 {
            assert(left[k] =~= (before + stack[0]).push(v));
            assert(right[k] =~= before + stack[0].push(v));
            assert(left[k] =~= right[k]);
        } else if k == 0 {
            assert(left[k] =~= before + stack[0]);
            assert(right[k] =~= before + stack[0]);
        } else {
            assert(left[k] =~= right[k]);
        }
    }
    assert(left =~= right);
}

proof fn lemma_close_under(before: Seq<Sexp>, stack: Seq<Seq<Sexp>>)
    requires
        stack.len() > 1,
    ensures
        close(under(before, stack)) == under(before, close(stack)),
        close(stack).len() == stack.len() - 1,
{
    let list = Sexp::List(stack.last());
    assert(under(before, stack).last() == stack.last());
    assert(under(before, stack).drop_last() =~= under(before, stack.drop_last()));
    lemma_append_under(before, stack.drop_last(), list);
}

/// Reading `a` and then `rest` is reading `a + rest`, where `a` reads
/// without error and `rest` is empty or begins with whitespace.
pub proof fn lemma_run_concat(a: Seq<char>, rest: Seq<char>, stack: Seq<Seq<Sexp>>)
    requires
        run(a, stack) is Ok,
        rest.len() == 0 || is_space(rest[0]),
    ensures
        run(a + rest, stack) == run(rest, run(a, stack)->Ok_0),
    decreases a.len(),
{
    let s = a + rest;
    if a.len() == 0 {
        assert(s =~= rest);
    } else {
        assert(s[0] == a[0]);
        assert(s.skip(1) =~= a.skip(1) + rest);
        if is_space(a[0]) {
            lemma_run_concat(a.skip(1), rest, stack);
        } else if a[0] == '(' {
            lemma_run_concat(a.skip(1), rest, stack.push(Seq::empty()));
        } else if a[0] == ')' {
            lemma_run_concat(a.skip(1), rest, close(stack));
        } else {
            lemma_atom_length(a);
            match atom(a) {
                Ok((v, n)) => {
                    assert(ends_before(v, rest));
                    lemma_atom_extend(a, rest, v, n);
                    assert(s.skip(n) =~= a.skip(n) + rest);
                    lemma_run_concat(a.skip(n), rest, append(stack, v));
                },
                Err(_) => {},
            }
        }
    }
}

/// Two texts with one whitespace character between them hold, at the top
/// level, the expressions of the first and then those of the second.
pub proof fn lemma_top_level_concat(a: Seq<char>, gap: char, b: Seq<char>)
    requires
        top_level(a) is Ok,
        top_level(b) is Ok,
        is_space(gap),
    ensures
        top_level(a + seq![gap] + b) == Ok::<Seq<Sexp>, ParseError>(
            top_level(a)->Ok_0 + top_level(b)->Ok_0,
        ),
{
    let start: Seq<Seq<Sexp>> = seq![Seq::empty()];
    let first = top_level(a)->Ok_0;
    let second = top_level(b)->Ok_0;
    let rest = seq![gap] + b;
    let middle: Seq<Seq<Sexp>> = seq![first];
    assert(run(a, start)->Ok_0 =~= middle);
    assert(a + seq![gap] + b =~= a + rest);
    lemma_run_concat(a, rest, start);
    assert(rest[0] == gap);
    assert(rest.skip(1) =~= b);
    assert(run(rest, middle) == run(b, middle));
    assert(middle =~= under(first, start)) by {
        assert(first + start[0] =~= first);
    }
    lemma_run_under(b, first, start);
    let end = run(b, start)->Ok_0;
    assert(under(first, end)[0] =~= first + second);
}

/// Several expressions with whitespace between them are the list of them,
/// in the order of the text: the value of two texts side by side is the
/// list of what both hold at the top level, unless that is one expression
/// in all.
pub proof fn lemma_parse_concat(a: Seq<char>, gap: char, b: Seq<char>)
    requires
        top_level(a) is Ok,
        top_level(b) is Ok,
        is_space(gap),
    ensures
        parse(a + seq![gap] + b) == Ok::<Sexp, ParseError>(
            collapse(top_level(a)->Ok_0 + top_level(b)->Ok_0),
        ),
{
    lemma_top_level_concat(a, gap, b);
}

} // verus!
