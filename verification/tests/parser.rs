use pachadb::engine::{Atom, Rule, Term};
use pachadb::nanolog_parser;
use pachadb::parser::{ParseError, Parser};

fn sym(s: &str) -> Term {
    Term::Sym(s.to_string())
}

fn var(s: &str) -> Term {
    Term::Var(format!("?{}", s))
}

fn atom(e: Term, r: Term, v: Term) -> Atom {
    Atom { relation: r, args: vec![e, v] }
}

fn query(name: &str, args: Vec<Term>) -> Atom {
    Atom { relation: sym(name), args }
}

fn rule(head: Atom, body: Vec<Atom>) -> Rule {
    Rule { head, body }
}

#[test]
fn parse_simple_rules() {
    assert_eq!(
        Parser.parse(r#"( ?who likes Metallica )"#).unwrap(),
        rule(
            query("query0", vec![var("who")]),
            vec![atom(var("who"), sym("likes"), sym("Metallica")),]
        )
    );
}

#[test]
fn parse_complex_rules() {
    assert_eq!(
        Parser
            .parse(
                r#"( ?who likes ?what
                 ?what is-a band
                 ?what playsGenre "Heavy Metal" )"#
            )
            .unwrap(),
        rule(
            query(
                "query0",
                vec![var("who"), var("what"), var("what"), var("what")]
            ),
            vec![
                atom(var("who"), sym("likes"), var("what")),
                atom(var("what"), sym("is-a"), sym("band")),
                atom(var("what"), sym("playsGenre"), sym("Heavy Metal")),
            ]
        )
    );
}

#[test]
fn parse_rules() {
    assert_eq!(
        nanolog_parser::Parser.parse(r#"( ?who likes Metallica )"#).unwrap(),
        vec![rule(
            query("query0", vec![var("?who")]),
            vec![atom(var("?who"), sym("likes"), sym("Metallica")),]
        )]
    );
}

#[test]
fn query_parser_reports_grammar_error() {
    assert!(matches!(
        Parser.parse("(?who likes"),
        Err(ParseError::Grammar(_))
    ));
}

#[test]
fn query_parser_wants_a_list() {
    assert_eq!(
        Parser.parse("?who"),
        Err(ParseError::Unsupported("top-level query must be a list!".to_string()))
    );
}

#[test]
fn query_parser_keeps_constant_triples_out_of_the_head() {
    assert_eq!(
        Parser.parse("(a likes b)").unwrap(),
        rule(
            query("query0", vec![]),
            vec![atom(sym("a"), sym("likes"), sym("b"))]
        )
    );
    assert_eq!(
        Parser.parse("()").unwrap(),
        rule(query("query0", vec![]), vec![])
    );
}

#[test]
fn rule_parser_reads_only_the_first_triple() {
    assert_eq!(
        nanolog_parser::Parser
            .parse("(?x ?f y  a b c)")
            .unwrap(),
        vec![rule(
            query("query0", vec![var("?x"), var("?f")]),
            vec![atom(var("?x"), var("?f"), sym("y"))]
        )]
    );
    assert_eq!(nanolog_parser::Parser.parse("(a b)").unwrap(), vec![]);
}

#[test]
fn rule_parser_errors() {
    assert!(matches!(
        nanolog_parser::Parser.parse(")"),
        Err(nanolog_parser::ParseError::Grammar(_))
    ));
    assert_eq!(
        nanolog_parser::Parser.parse("hello"),
        Err(nanolog_parser::ParseError::Unsupported(
            "top-level query must be a list!".to_string()
        ))
    );
}
