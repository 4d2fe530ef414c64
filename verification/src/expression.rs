//! The expression tree and its mathematical model.

use vstd::prelude::*;

verus! {

/// The mathematical value of an expression: what contracts speak about.
///
/// A decimal literal is carried as its text, so that no precision is lost
/// before a caller converts it.
pub enum Sexp {
    /// A parenthesised group, in source order.
    List(Seq<Sexp>),
    /// A bare token.
    Symbol(Seq<char>),
    /// The characters between a pair of double quotes.
    String(Seq<char>),
    /// A run of digits without a decimal point.
    Int(int),
    /// A run of digits with one decimal point, as written.
    Float(Seq<char>),
}

/// An s-expression.
#[derive(Debug, PartialEq)]
pub enum Expression {
    List(Vec<Expression>),
    Symbol(String),
    String(String),
    Int(i64),
    /// The text of a decimal literal, digits and point as written.
    Float(String),
}

/// The models of a sequence of expressions, element by element.
pub open spec fn views(items: Seq<Expression>) -> Seq<Sexp> {
    Seq::new(items.len(), |i: int| items[i]@)
}

impl View for Expression {
    type V = Sexp;

    open spec fn view(&self) -> Sexp
        decreases self,
    {
        match self {
            Expression::List(items) => Sexp::List(
                Seq::new(
                    items@.len(),
                    |i: int|
                        if 0 <= i < items@.len() {
                            items@[i].view()
                        } else {
                            Sexp::List(Seq::empty())
                        },
                ),
            ),
            Expression::Symbol(text) => Sexp::Symbol(text@),
            Expression::String(text) => Sexp::String(text@),
            Expression::Int(n) => Sexp::Int(*n as int),
            Expression::Float(text) => Sexp::Float(text@),
        }
    }
}

/// The model of a list is the list of its elements' models.
pub proof fn lemma_list_view(items: Vec<Expression>)
    ensures
        Expression::List(items)@ == Sexp::List(views(items@)),
{
    assert(Expression::List(items)@->List_0 =~= views(items@));
}

impl Clone for Expression {
    fn clone(&self) -> (copy: Expression)
        ensures
            copy@ == self@,
        decreases self,
    {
        match self {
            Expression::List(items) => {
                let mut copies: Vec<Expression> = Vec::new();
                let mut i: usize = 0;
                while i < items.len()
                    invariant
                        self is List && self->List_0 == *items,
                        i <= items.len(),
                        copies.len() == i,
                        forall|k: int| 0 <= k < i ==> copies@[k]@ == items@[k]@,
                    decreases items.len() - i,
                {
                    proof {
                        vstd::std_specs::vec::axiom_vec_index_decreases(*items, i as int);
                    }
                    copies.push(items[i].clone());
                    i += 1;
                }
                proof {
                    lemma_list_view(copies);
                    lemma_list_view(*items);
                    assert(views(copies@) =~= views(items@));
                }
                Expression::List(copies)
            },
            Expression::Symbol(text) => Expression::Symbol(text.clone()),
            Expression::String(text) => Expression::String(text.clone()),
            Expression::Int(n) => Expression::Int(*n),
            Expression::Float(text) => Expression::Float(text.clone()),
        }
    }
}

impl Default for Expression {
    /// The empty list.
    fn default() -> (empty: Expression)
        ensures
            empty@ == Sexp::List(Seq::empty()),
    {
        let items: Vec<Expression> = Vec::new();
        proof {
            lemma_list_view(items);
            assert(views(items@) =~= Seq::empty());
        }
        Expression::List(items)
    }
}

} // verus!
