//! The syntax tree of a query: symbols, variables and lists.

use vstd::prelude::*;

verus! {

/// A parsed expression.
#[derive(Debug, PartialEq, Eq, PartialOrd, Ord, Hash)]
pub enum Expr {
    Match(String, String),
    Symbol(String),
    Variable(String),
    List(Vec<Expr>),
}

/// The mathematical value of an expression.
pub enum ExprV {
    Match(Seq<char>, Seq<char>),
    Symbol(Seq<char>),
    Variable(Seq<char>),
    List(Seq<ExprV>),
}

/// The mathematical value of `e`.
pub open spec fn expr_view(e: Expr) -> ExprV
    decreases e,
{
    match e {
        Expr::Match(a, b) => ExprV::Match(a@, b@),
        Expr::Symbol(a) => ExprV::Symbol(a@),
        Expr::Variable(a) => ExprV::Variable(a@),
        Expr::List(v) => ExprV::List(
            Seq::new(
                v@.len(),
                |i: int|
                    if 0 <= i < v@.len() {
                        expr_view(v@[i])
                    } else {
                        ExprV::List(Seq::empty())
                    },
            ),
        ),
    }
}

/// The value of a list expression is the list of its items' values.
pub proof fn lemma_list_view(items: Vec<Expr>)
    ensures
        expr_view(Expr::List(items)) == ExprV::List(items@.map_values(|x: Expr| x@)),
{
    let m = items@.map_values(|x: Expr| x@);
    match expr_view(Expr::List(items)) {
        ExprV::List(s) => {
            assert(s.len() == m.len());
            assert forall|i: int| 0 <= i < s.len() implies s[i] == m[i] by {}
            assert(s =~= m);
        },
        _ => {},
    }
}

impl View for Expr {
    type V = ExprV;

    open spec fn view(&self) -> ExprV {
        expr_view(*self)
    }
}

} // verus!
