use pachadb::ast::Expr;
use pachadb::grammar::ExprParser;

fn parse(text: &str) -> Expr {
    ExprParser::new().parse(text).unwrap()
}

#[test]
fn parse_symbol() {
    assert_eq!(parse("hello"), Expr::Symbol("hello".to_string()));
    assert_eq!(parse("hel/lo"), Expr::Symbol("hel/lo".to_string()));
    assert_eq!(parse("hel-lo"), Expr::Symbol("hel-lo".to_string()));
    assert_eq!(parse("hel.lo"), Expr::Symbol("hel.lo".to_string()));
    assert_eq!(parse("hel_lo"), Expr::Symbol("hel_lo".to_string()));
}

#[test]
fn parse_variable() {
    assert_eq!(parse("?hello"), Expr::Variable("?hello".to_string()));
    assert_eq!(parse("?0"), Expr::Variable("?0".to_string()));
    assert_eq!(parse("?heLo1"), Expr::Variable("?heLo1".to_string()));
}

#[test]
fn parse_lists() {
    assert_eq!(
        parse("(?who likes metallica)"),
        Expr::List(vec![
            Expr::Variable("?who".to_string()),
            Expr::Symbol("likes".to_string()),
            Expr::Symbol("metallica".to_string())
        ])
    );

    assert_eq!(
        parse(
            r#"( ?who likes ?what
                 ?what is-a band
                 ?what playsGenre "Heavy Metal" )"#
        ),
        Expr::List(vec![
            Expr::Variable("?who".to_string()),
            Expr::Symbol("likes".to_string()),
            Expr::Variable("?what".to_string()),
            Expr::Variable("?what".to_string()),
            Expr::Symbol("is-a".to_string()),
            Expr::Symbol("band".to_string()),
            Expr::Variable("?what".to_string()),
            Expr::Symbol("playsGenre".to_string()),
            Expr::Symbol("Heavy Metal".to_string())
        ])
    );
}

#[test]
fn parser_parse_symbol() {
    assert_eq!(parse("hello"), Expr::Symbol("hello".to_string()));
    assert_eq!(parse("hel/lo"), Expr::Symbol("hel/lo".to_string()));
    assert_eq!(parse("hel-lo"), Expr::Symbol("hel-lo".to_string()));
    assert_eq!(parse("hel.lo"), Expr::Symbol("hel.lo".to_string()));
    assert_eq!(parse("hel_lo"), Expr::Symbol("hel_lo".to_string()));
}

#[test]
fn parser_parse_variable() {
    assert_eq!(parse("?hello"), Expr::Variable("?hello".to_string()));
    assert_eq!(parse("?0"), Expr::Variable("?0".to_string()));
    assert_eq!(parse("?heLo1"), Expr::Variable("?heLo1".to_string()));
}

#[test]
fn parser_parse_lists() {
    assert_eq!(
        parse("(?who likes metallica)"),
        Expr::List(vec![
            Expr::Variable("?who".to_string()),
            Expr::Symbol("likes".to_string()),
            Expr::Symbol("metallica".to_string())
        ])
    );

    assert_eq!(
        parse(
            r#"( ?who likes ?what
                 ?what is-a band
                 ?what playsGenre "Heavy Metal" )"#
        ),
        Expr::List(vec![
            Expr::Variable("?who".to_string()),
            Expr::Symbol("likes".to_string()),
            Expr::Variable("?what".to_string()),
            Expr::Variable("?what".to_string()),
            Expr::Symbol("is-a".to_string()),
            Expr::Symbol("band".to_string()),
            Expr::Variable("?what".to_string()),
            Expr::Symbol("playsGenre".to_string()),
            Expr::Symbol("Heavy Metal".to_string())
        ])
    );
}

#[test]
fn grammar_rejects_unbalanced_list() {
    assert!(ExprParser::new().parse("(?who likes").is_err());
    assert!(ExprParser::new().parse("").is_err());
    assert!(ExprParser::new().parse("a b").is_err());
}

#[test]
fn grammar_reads_nested_and_empty_lists() {
    assert_eq!(parse("()"), Expr::List(vec![]));
    assert_eq!(
        parse("(a (b ?c))"),
        Expr::List(vec![
            Expr::Symbol("a".to_string()),
            Expr::List(vec![
                Expr::Symbol("b".to_string()),
                Expr::Variable("?c".to_string())
            ])
        ])
    );
}
