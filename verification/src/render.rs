//! Writing an expression out as text.

use crate::expression::{lemma_list_view, views, Expression, Sexp};
use crate::text::{debug_quoted, quote};
use vstd::prelude::*;

verus! {

/// The character that stands for the digit `d`.
pub open spec fn digit_char(d: int) -> char {
    ('0' as int + d) as char
}

/// A natural number in base ten, without leading zeros.
pub open spec fn digits_text(n: nat) -> Seq<char>
    decreases n,
{
    if n < 10 {
        seq![digit_char(n as int)]
    } else {
        digits_text(n / 10).push(digit_char((n % 10) as int))
    }
}

/// An integer in base ten, with a minus sign where it is negative.
pub open spec fn decimal_text(n: int) -> Seq<char> {
    if n < 0 {
        seq!['-'] + digits_text((-n) as nat)
    } else {
        digits_text(n as nat)
    }
}

/// The text of a value.
///
/// A list is its elements' texts between parentheses, with one space
/// between neighbours. A symbol and a decimal literal are written as they
/// are, an integer in base ten, and a string quoted and escaped for
/// display.
pub open spec fn render(v: Sexp) -> Seq<char>
    decreases v,
{
    match v {
        Sexp::List(items) => seq!['('] + render_all(items) + seq![')'],
        Sexp::Symbol(t) => t,
        Sexp::String(t) => debug_quoted(t),
        Sexp::Int(n) => decimal_text(n),
        Sexp::Float(t) => t,
    }
}

/// The texts of `items`, with one space between neighbours.
pub open spec fn render_all(items: Seq<Sexp>) -> Seq<char>
    decreases items,
{
    if items.len() == 0 {
        Seq::empty()
    } else if items.len() == 1 {
        render(items[0])
    } else {
        render(items[0]) + seq![' '] + render_all(items.skip(1))
    }
}

/// One more value at the end adds its text, after a space unless it is the
/// first.
pub proof fn lemma_render_all_push(items: Seq<Sexp>, v: Sexp)
    ensures
        render_all(items.push(v)) == if items.len() == 0 {
            render(v)
        } else {
            render_all(items) + seq![' '] + render(v)
        },
    decreases items.len(),
{
    let all = items.push(v);
    if items.len() > 0 {
        let rest = items.skip(1);
        assert(all.skip(1) =~= rest.push(v));
        lemma_render_all_push(rest, v);
        if items.len() == 1 {
            assert(render_all(all) =~= render_all(items) + seq![' '] + render(v));
        } else {
            assert(render_all(all) =~= render_all(items) + seq![' '] + render(v));
        }
    }
}

/// The character for the digit `d`.
fn digit_of(d: u64) -> (c: char)
    requires
        d < 10,
    ensures
        c == digit_char(d as int),
{
    (48u8 + d as u8) as char
}

/// Appends `n` in base ten to `out`, most significant digit first.
fn push_digits(n: u64, out: &mut String)
    ensures
        final(out)@ == old(out)@ + digits_text(n as nat),
    decreases n,
{
    if n >= 10 {
        push_digits(n / 10, out);
    }
    out.push(digit_of(n % 10));
    assert(out@ =~= old(out)@ + digits_text(n as nat));
}

/// Appends `n` in base ten to `out`.
fn push_decimal(n: i64, out: &mut String)
    ensures
        final(out)@ == old(out)@ + decimal_text(n as int),
{
    if n < 0 {
        out.push('-');
        let magnitude: u64 = if n == i64::MIN {
            9223372036854775808u64
        } else {
            (-n) as u64
        };
        push_digits(magnitude, out);
        assert(out@ =~= old(out)@ + decimal_text(n as int));
    } else {
        push_digits(n as u64, out);
    }
}

impl Expression {
    /// Appends the text of this expression to `out`.
    pub fn render_into(&self, out: &mut String)
        ensures
            final(out)@ == old(out)@ + render(self@),
        decreases self,
    {
        match self {
            Expression::List(items) => {
                out.push('(');
                let mut i: usize = 0;
                while i < items.len()
                    invariant
                        self is List && self->List_0 == *items,
                        i <= items.len(),
                        out@ == old(out)@ + seq!['('] + render_all(views(items@).take(i as int)),
                    decreases items.len() - i,
                {
                    let ghost done = views(items@).take(i as int);
                    if i > 0 {
                        out.push(' ');
                    }
                    proof {
                        vstd::std_specs::vec::axiom_vec_index_decreases(*items, i as int);
                    }
                    items[i].render_into(out);
                    proof {
                        lemma_render_all_push(done, items@[i as int]@);
                        assert(views(items@).take(i + 1) =~= done.push(items@[i as int]@));
                        assert(out@ =~= old(out)@ + seq!['('] + render_all(
                            views(items@).take(i + 1),
                        ));
                    }
                    i += 1;
                }
                out.push(')');
                proof {
                    lemma_list_view(*items);
                    assert(views(items@).take(items@.len() as int) =~= views(items@));
                    assert(out@ =~= old(out)@ + render(self@));
                }
            },
            Expression::Symbol(text) => {
                out.append(text.as_str());
            },
            Expression::String(text) => {
                let quoted = quote(text.as_str());
                out.append(quoted.as_str());
            },
            Expression::Int(n) => {
                push_decimal(*n, out);
            },
            Expression::Float(text) => {
                out.append(text.as_str());
            },
        }
    }

    /// The text of this expression.
    pub fn to_string(&self) -> (text: String)
        ensures
            text@ == render(self@),
    {
        let mut text = String::new();
        self.render_into(&mut text);
        assert(text@ =~= render(self@));
        text
    }
}

} // verus!
