//! How deep a text leaves its reader: the lists it opens and does not
//! close.

use crate::error::ParseError;
use crate::expression::Sexp;
use crate::grammar::{append, atom, close, is_space, lemma_atom_length, run, top_level};
use vstd::prelude::*;

verus! {

/// The number of lists that `s` opens, less the number that it closes.
/// Parentheses inside an atom count for nothing, and nothing counts after
/// an atom that is in error.
pub open spec fn balance(s: Seq<char>) -> int
    decreases s.len(),
    via balance_decreases
{
    if s.len() == 0 {
        0
    } else if is_space(s[0]) {
        balance(s.skip(1))
    } else if s[0] == '(' {
        balance(s.skip(1)) + 1
    } else if s[0] == ')' {
        balance(s.skip(1)) - 1
    } else {
        match atom(s) {
            Ok((_, n)) => balance(s.skip(n)),
            Err(_) => 0,
        }
    }
}

#[via_fn]
proof fn balance_decreases(s: Seq<char>) {
    if s.len() > 0 && !is_space(s[0]) && s[0] != '(' && s[0] != ')' {
        lemma_atom_length(s);
    }
}

/// A text that is read without error leaves as many lists open as were
/// open before, and its balance more.
pub proof fn lemma_run_depth(s: Seq<char>, stack: Seq<Seq<Sexp>>)
    requires
        stack.len() > 0,
    ensures
        run(s, stack) matches Ok(out) ==> out.len() == stack.len() + balance(s),
    decreases s.len(),
{
    if s.len() == 0 {
    } else if is_space(s[0]) {
        lemma_run_depth(s.skip(1), stack);
    } else if s[0] == '(' {
        lemma_run_depth(s.skip(1), stack.push(Seq::empty()));
    } else if s[0] == ')' {
        if stack.len() > 1 {
            lemma_run_depth(s.skip(1), close(stack));
        }
    } else {
        lemma_atom_length(s);
        match atom(s) {
            Ok((v, n)) => {
                lemma_run_depth(s.skip(n), append(stack, v));
            },
            Err(_) => {},
        }
    }
}

/// A text that opens more lists than it closes is in error.
pub proof fn lemma_unbalanced(s: Seq<char>)
    requires
        balance(s) > 0,
    ensures
        top_level(s) is Err,
{
    lemma_run_depth(s, seq![Seq::empty()]);
}

} // verus!
