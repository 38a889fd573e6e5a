//! The rule parser of the stand-alone Datalog engine: it reads the first triple
//! of a list into a rule whose head `query0` collects that triple's variables.
//! A variable `?v` of the text becomes the engine variable `??v`: the engine
//! marks variables with a `?` of its own.

use vstd::prelude::*;

use crate::ast::{Expr, ExprV};
use crate::engine::{rules_view, Atom, Rule, Term};
use crate::grammar::{parse_text, ExprParser};
use crate::engine::{AtomV, RuleV, TermV};
use crate::parser::{is_simple, query0_name, query0_string, syntax_message, top_level_message, vars_in};

verus! {

/// The text can be read without failing on its shape: when it is a list of three
/// or more items, its first three items are symbols or variables.
pub open spec fn first_triple_convertible(s: Seq<char>) -> bool {
    match parse_text(s) {
        Some(ExprV::List(items)) => items.len() >= 3 ==> forall|i: int|
            0 <= i < 3 ==> is_simple(#[trigger] items[i]),
        _ => true,
    }
}

/// The engine term for a symbol or variable expression: a variable's name is
/// prefixed with `?`. (Other expressions stand for no term; the parser never
/// converts them.)
pub open spec fn rule_term(e: ExprV) -> TermV {
    match e {
        ExprV::Variable(v) => TermV::Var(seq!['?'] + v),
        ExprV::Symbol(s) => TermV::Sym(s),
        _ => TermV::Sym(Seq::empty()),
    }
}

/// The rule of the triple `entity field value`: `query0(vars) :- field(entity, value)`,
/// where `vars` are the variables among entity, field and value, in that order.
pub open spec fn triple_rule(entity: ExprV, field: ExprV, value: ExprV) -> RuleV {
    RuleV {
        head: AtomV {
            relation: TermV::Sym(query0_name()),
            args: vars_in(seq![rule_term(entity), rule_term(field), rule_term(value)]),
        },
        body: seq![AtomV { relation: rule_term(field), args: seq![rule_term(entity), rule_term(value)] }],
    }
}

/// The rules a list yields: the rule of its first triple, if it has one.
pub open spec fn first_triple_rules(items: Seq<ExprV>) -> Seq<RuleV> {
    if items.len() >= 3 {
        seq![triple_rule(items[0], items[1], items[2])]
    } else {
        Seq::empty()
    }
}

/// Why a text could not be read into rules.
#[derive(Debug, Clone, PartialEq, Eq)]
pub enum ParseError {
    Unsupported(String),
    Grammar(String),
}

impl ParseError {
    fn unsupported(msg: &str) -> (r: Result<Vec<Rule>, ParseError>)
        ensures
            r matches Err(ParseError::Unsupported(m)) && m@ == msg@,
    {
        Err(ParseError::Unsupported(msg.to_string()))
    }
}

/// Reads rules.
#[derive(Debug, Clone, Copy)]
pub struct Parser;

impl Parser {
    /// The rules of `text`: the rule of the first triple of the list it spells.
    pub fn parse(&self, text: &str) -> (r: Result<Vec<Rule>, ParseError>)
        requires
            first_triple_convertible(text@),
        ensures
            match parse_text(text@) {
                None => r matches Err(ParseError::Grammar(m)) && m@ == syntax_message(),
                Some(ExprV::List(items)) => r matches Ok(rules) && rules_view(rules@)
                    == first_triple_rules(items),
                Some(_) => r matches Err(ParseError::Unsupported(m)) && m@ == top_level_message(),
            },
    {
        let ast = match ExprParser::new().parse(text) {
            Ok(e) => e,
            Err(_) => {
                return Err(ParseError::Grammar("the query is not a well-formed expression".to_string()));
            },
        };
        let items = match ast {
            Expr::List(items) => items,
            _ => {
                return ParseError::unsupported("top-level query must be a list!");
            },
        };
        proof {
            crate::ast::lemma_list_view(items);
        }
        let mut rules: Vec<Rule> = Vec::new();
        if items.len() >= 3 {
            proof {
                let iv = items@.map_values(|x: Expr| x@);
                assert forall|i: int| 0 <= i < 3 implies is_simple(#[trigger] items@[i]@) by {
                    assert(iv[i] == items@[i]@);
                }
            }
            let rule = self.build_rule(&items);
            rules.push(rule);
            proof {
                assert(rules_view(rules@) =~= seq![rule@]);
            }
        } else {
            proof {
                assert(rules_view(rules@) =~= Seq::<crate::engine::RuleV>::empty());
            }
        }
        Ok(rules)
    }

    /// The rule of the first triple of `items`.
    fn build_rule(&self, items: &Vec<Expr>) -> (r: Rule)
        requires
            items@.len() >= 3,
            forall|i: int| 0 <= i < 3 ==> is_simple(#[trigger] items@[i]@),
        ensures
            r@ == triple_rule(items@[0]@, items@[1]@, items@[2]@),
    {
        assert(is_simple(items@[0]@) && is_simple(items@[1]@) && is_simple(items@[2]@));
        let entity = self.expr_to_term(&items[0]);
        let field = self.expr_to_term(&items[1]);
        let value = self.expr_to_term(&items[2]);
        let mut args: Vec<Term> = Vec::new();
        if entity.is_var() {
            args.push(entity.duplicate());
        }
        if field.is_var() {
            args.push(field.duplicate());
        }
        if value.is_var() {
            args.push(value.duplicate());
        }
        let head = Atom { relation: Term::Sym(query0_string()), args };
        let mut pair: Vec<Term> = Vec::new();
        pair.push(entity);
        pair.push(value);
        let atom = Atom { relation: field, args: pair };
        proof {
            assert(atom@.args =~= seq![entity@, value@]);
        }
        let mut body: Vec<Atom> = Vec::new();
        body.push(atom);
        let r = Rule { head, body };
        proof {
            assert(r@.body =~= seq![atom@]);
            reveal_with_fuel(Seq::filter, 4);
            let ts = seq![entity@, field@, value@];
            assert(ts.drop_last() =~= seq![entity@, field@]);
            assert(ts.drop_last().drop_last() =~= seq![entity@]);
            assert(ts.drop_last().drop_last().drop_last() =~= Seq::<TermV>::empty());
            assert(r@.head.args =~= vars_in(ts));
        }
        r
    }

    /// The term for a symbol or variable expression.
    fn expr_to_term(&self, expr: &Expr) -> (r: Term)
        requires
            is_simple(expr@),
        ensures
            r@ == rule_term(expr@),
    {
        match expr {
            Expr::Symbol(s) => Term::Sym(s.clone()),
            Expr::Variable(v) => {
                let mut name = String::from_str("?");
                proof {
                    reveal_strlit("?");
                }
                name.append(v.as_str());
                proof {
                    assert(name@ =~= seq!['?'] + v@);
                }
                Term::Var(name)
            },
            _ => {
                // only symbols and variables reach here
                proof {
                    assert(false);
                }
                Term::Sym(String::new())
            },
        }
    }
}

} // verus!
