use pachadb::engine::{Atom, Rule, Term};
use pachadb::parser::Parser;
use pachadb::query_planner::{DefaultQueryPlanner, QueryPlan, Scan};
use pachadb::tx_manager::TxId;

fn sym(s: &str) -> Term {
    Term::Sym(s.to_string())
}

fn var(s: &str) -> Term {
    Term::Var(format!("?{}", s))
}

fn atom(e: Term, r: Term, v: Term) -> Atom {
    Atom { relation: r, args: vec![e, v] }
}

fn query(name: &str, args: Vec<Term>) -> Atom {
    Atom { relation: sym(name), args }
}

#[test]
fn plans_simple_query() {
    let planner = DefaultQueryPlanner;
    let tx_id = TxId::default();

    let rule = Parser.parse("(?who likes rush)").unwrap();
    let plan = planner.plan(rule, tx_id).unwrap();

    let query = Rule {
        head: query("query0", vec![var("who")]),
        body: vec![atom(var("who"), sym("likes"), sym("rush"))],
    };

    assert_eq!(
        plan,
        QueryPlan::RunScan(
            tx_id,
            vec![Scan::FieldValue("likes".to_string(), "rush".to_string())],
            QueryPlan::Solve(query).into()
        )
    );
}

#[test]
fn plans_complex_query() {
    let planner = DefaultQueryPlanner;
    let tx_id = TxId::default();
    let rule = Parser
        .parse(
            r#"
        (
            ?who likes rush
            ?who likes ?band
            ?band is-a music-band
            ?band plays prog-rock
         )
        "#,
        )
        .unwrap();
    let plan = planner.plan(rule, tx_id).unwrap();

    let query = Rule {
        head: query(
            "query0",
            vec![var("who"), var("who"), var("band"), var("band"), var("band")],
        ),
        body: vec![
            atom(var("who"), sym("likes"), sym("rush")),
            atom(var("who"), sym("likes"), var("band")),
            atom(var("band"), sym("is-a"), sym("music-band")),
            atom(var("band"), sym("plays"), sym("prog-rock")),
        ],
    };

    assert_eq!(
        plan,
        QueryPlan::RunScan(
            tx_id,
            vec![
                Scan::FieldValue("likes".to_string(), "rush".to_string()),
                Scan::Field("likes".to_string()),
                Scan::FieldValue("is-a".to_string(), "music-band".to_string()),
                Scan::FieldValue("plays".to_string(), "prog-rock".to_string())
            ],
            QueryPlan::Solve(query).into()
        )
    );
}

#[test]
fn plans_every_scan_shape() {
    let planner = DefaultQueryPlanner;
    let rule = Rule {
        head: query("query0", vec![]),
        body: vec![
            atom(sym("e"), var("f"), var("v")),
            atom(var("e"), var("f"), sym("v")),
            atom(sym("e"), var("f"), sym("v")),
            atom(var("e"), var("f"), var("v")),
            atom(sym("e"), sym("f"), var("v")),
            atom(sym("e"), sym("f"), sym("v")),
        ],
    };
    let plan = planner.plan(rule.clone(), TxId(7)).unwrap();
    assert_eq!(
        plan,
        QueryPlan::RunScan(
            TxId(7),
            vec![
                Scan::Entity("e".to_string()),
                Scan::Value("v".to_string()),
                Scan::EntityValue("e".to_string(), "v".to_string()),
                Scan::EntityField("e".to_string(), "f".to_string()),
            ],
            Box::new(QueryPlan::Solve(rule))
        )
    );
}

#[test]
fn scan_prefixes() {
    assert_eq!(Scan::Entity("e".to_string()).to_prefix(), "e");
    assert_eq!(Scan::EntityField("e".to_string(), "f".to_string()).to_prefix(), "e/f");
    assert_eq!(Scan::Field("f".to_string()).to_prefix(), "f");
    assert_eq!(Scan::FieldValue("f".to_string(), "v".to_string()).to_prefix(), "f/v");
    assert_eq!(Scan::EntityValue("e".to_string(), "v".to_string()).to_prefix(), "e/v");
    assert_eq!(Scan::Value("v".to_string()).to_prefix(), "v");
}

#[test]
fn tx_ids_count_up() {
    assert_eq!(TxId(4).next(), TxId(5));
    assert_eq!(TxId::max(), TxId(u64::MAX));
    assert_eq!(TxId(42).to_string(), "42");
    assert_eq!(TxId(0).to_string(), "0");
    assert_eq!(TxId::default(), TxId(0));
}
