//! Turns query text into a rule whose head `query0` collects the query's variables.
//!
//! A query is a list of triples `entity field value`; each triple becomes the
//! body atom `field(entity, value)`, and every variable of every triple, in
//! order and with repetitions, becomes an argument of the head.

use vstd::prelude::*;

use crate::ast::{Expr, ExprV};
use crate::engine::{Atom, AtomV, Rule, RuleV, Term, TermV, terms_view};
use crate::grammar::{parse_text, ExprParser};

verus! {

/// The name of the relation that holds a query's answers.
pub open spec fn query0_name() -> Seq<char> {
    seq!['q', 'u', 'e', 'r', 'y', '0']
}

/// The term a symbol or variable expression stands for: a symbol or a variable
/// of the same name. (Other expressions stand for no term; the parsers never
/// convert them.)
pub open spec fn term_of(e: ExprV) -> TermV {
    match e {
        ExprV::Variable(v) => TermV::Var(v),
        ExprV::Symbol(s) => TermV::Sym(s),
        _ => TermV::Sym(Seq::empty()),
    }
}

/// The expression is a symbol or a variable.
pub open spec fn is_simple(e: ExprV) -> bool {
    e is Symbol || e is Variable
}

/// The variables among `ts`, in order.
pub open spec fn vars_in(ts: Seq<TermV>) -> Seq<TermV> {
    ts.filter(|t: TermV| t is Var)
}

/// The terms of the first triple of `items`: entity, field, value.
pub open spec fn triple_terms(items: Seq<ExprV>) -> Seq<TermV> {
    seq![term_of(items[0]), term_of(items[1]), term_of(items[2])]
}

/// The atom `field(entity, value)` of the first triple of `items`.
pub open spec fn triple_atom(items: Seq<ExprV>) -> AtomV {
    AtomV { relation: term_of(items[1]), args: seq![term_of(items[0]), term_of(items[2])] }
}

/// The variables of all the triples of `items`, in order.
pub open spec fn query_head_args(items: Seq<ExprV>) -> Seq<TermV>
    decreases items.len(),
{
    if items.len() < 3 {
        Seq::empty()
    } else {
        vars_in(triple_terms(items)) + query_head_args(items.skip(3))
    }
}

/// The atoms of all the triples of `items`, in order.
pub open spec fn query_body(items: Seq<ExprV>) -> Seq<AtomV>
    decreases items.len(),
{
    if items.len() < 3 {
        Seq::empty()
    } else {
        seq![triple_atom(items)] + query_body(items.skip(3))
    }
}

/// The rule a list of triples asks for.
pub open spec fn query_rule(items: Seq<ExprV>) -> RuleV {
    RuleV {
        head: AtomV { relation: TermV::Sym(query0_name()), args: query_head_args(items) },
        body: query_body(items),
    }
}

/// The text can be turned into a rule without failing on its shape: when it is a
/// list, its length is a multiple of three and it holds only symbols and variables.
pub open spec fn query_convertible(s: Seq<char>) -> bool {
    match parse_text(s) {
        Some(ExprV::List(items)) => items.len() % 3 == 0 && forall|i: int|
            0 <= i < items.len() ==> is_simple(#[trigger] items[i]),
        _ => true,
    }
}

pub open spec fn top_level_message() -> Seq<char> {
    "top-level query must be a list!"@
}

pub open spec fn syntax_message() -> Seq<char> {
    "the query is not a well-formed expression"@
}

/// Why a text could not be turned into a rule.
#[derive(Debug, Clone, PartialEq, Eq)]
pub enum ParseError {
    Unsupported(String),
    Grammar(String),
}

/// Parses queries.
#[derive(Debug, Clone, Copy)]
pub struct Parser;

impl ParseError {
    fn unsupported(msg: &str) -> (r: Result<Rule, ParseError>)
        ensures
            r matches Err(ParseError::Unsupported(m)) && m@ == msg@,
    {
        Err(ParseError::Unsupported(msg.to_string()))
    }
}

impl Parser {
    /// The rule for the query `text`.
    pub fn parse(&self, text: &str) -> (r: Result<Rule, ParseError>)
        requires
            query_convertible(text@),
        ensures
            match parse_text(text@) {
                None => r matches Err(ParseError::Grammar(m)) && m@ == syntax_message(),
                Some(ExprV::List(items)) => r matches Ok(rule) && rule@ == query_rule(items),
                Some(_) => r matches Err(ParseError::Unsupported(m)) && m@ == top_level_message(),
            },
    {
        let ast = match ExprParser::new().parse(text) {
            Ok(e) => e,
            Err(_) => {
                return Err(ParseError::Grammar("the query is not a well-formed expression".to_string()));
            },
        };
        let items = match ast {
            Expr::List(items) => items,
            _ => {
                return ParseError::unsupported("top-level query must be a list!");
            },
        };
        proof {
            crate::ast::lemma_list_view(items);
        }
        let ghost iv = items@.map_values(|x: Expr| x@);
        let mut args: Vec<Term> = Vec::new();
        let mut body: Vec<Atom> = Vec::new();
        let mut i: usize = 0;
        proof {
            assert(iv.skip(0) =~= iv);
            assert(terms_view(args@) + query_head_args(iv.skip(0)) =~= query_head_args(iv));
        }
        while i < items.len()
            invariant
                i <= items@.len(),
                i % 3 == 0,
                items@.len() % 3 == 0,
                iv == items@.map_values(|x: Expr| x@),
                forall|k: int| 0 <= k < iv.len() ==> is_simple(#[trigger] iv[k]),
                terms_view(args@) + query_head_args(iv.skip(i as int)) == query_head_args(iv),
                crate::engine::atoms_view(body@) + query_body(iv.skip(i as int)) == query_body(iv),
            decreases items@.len() - i,
        {
            let entity = self.expr_to_term(&items[i]);
            let field = self.expr_to_term(&items[i + 1]);
            let value = self.expr_to_term(&items[i + 2]);
            let ghost rest = iv.skip(i as int);
            let ghost before_args = terms_view(args@);
            let ghost before_body = crate::engine::atoms_view(body@);
            proof {
                assert(rest[0] == iv[i as int]);
                assert(rest[1] == iv[i + 1]);
                assert(rest[2] == iv[i + 2]);
                assert(rest.skip(3) =~= iv.skip(i + 3));
            }
            if entity.is_var() {
                args.push(entity.duplicate());
            }
            if field.is_var() {
                args.push(field.duplicate());
            }
            if value.is_var() {
                args.push(value.duplicate());
            }
            proof {
                let ts = triple_terms(rest);
                assert(ts =~= seq![entity@, field@, value@]);
                let vs = vars_in(ts);
                let mut expect: Seq<TermV> = Seq::empty();
                if entity@ is Var {
                    expect = expect.push(entity@);
                }
                if field@ is Var {
                    expect = expect.push(field@);
                }
                if value@ is Var {
                    expect = expect.push(value@);
                }
                assert(seq![entity@, field@, value@] =~= seq![entity@].add(seq![field@]).add(
                    seq![value@],
                ));
                reveal_with_fuel(Seq::filter, 4);
                assert(vs =~= expect);
                assert(terms_view(args@) =~= before_args + expect);
            }
            let atom = Atom { relation: field, args: vec![entity, value] };
            body.push(atom);
            proof {
                assert(atom@ == triple_atom(rest));
                assert(crate::engine::atoms_view(body@) =~= before_body.push(atom@));
                assert(query_body(rest) == seq![triple_atom(rest)] + query_body(rest.skip(3)));
                assert(query_head_args(rest) == vars_in(triple_terms(rest)) + query_head_args(
                    rest.skip(3),
                ));
                assert(terms_view(args@) + query_head_args(iv.skip(i + 3)) =~= query_head_args(iv));
                assert(crate::engine::atoms_view(body@) + query_body(iv.skip(i + 3)) =~= query_body(iv));
            }
            i = i + 3;
        }
        proof {
            assert(iv.skip(items@.len() as int).len() == 0);
            assert(terms_view(args@) =~= query_head_args(iv));
            assert(crate::engine::atoms_view(body@) =~= query_body(iv));
        }
        let head = Atom { relation: Term::Sym(query0_string()), args };
        Ok(Rule { head, body })
    }

    /// The term for a symbol or variable expression.
    fn expr_to_term(&self, expr: &Expr) -> (r: Term)
        requires
            is_simple(expr@),
        ensures
            r@ == term_of(expr@),
    {
        match expr {
            Expr::Symbol(s) => Term::Sym(s.clone()),
            Expr::Variable(v) => Term::Var(v.clone()),
            _ => {
                // only symbols and variables reach here
                proof {
                    assert(false);
                }
                Term::Sym(String::new())
            },
        }
    }
}

/// The name `query0`.
pub fn query0_string() -> (r: String)
    ensures
        r@ == query0_name(),
{
    let s = "query0";
    proof {
        reveal_strlit("query0");
        assert(s@ =~= query0_name());
    }
    s.to_string()
}

} // verus!
