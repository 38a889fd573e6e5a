use pachadb::assoc::AssocMap;
use pachadb::backend::memory::{InMemoryConsolidator, InMemoryIndex, InMemoryStore};
use pachadb::db::PachaDb;
use pachadb::error::PachaError;
use pachadb::index::{IndexKey, IndexKeySet};
use pachadb::model::{Entity, Fact, Uri, UserFact};
use pachadb::parser::{ParseError, Parser};
use pachadb::query_executor::DefaultQueryExecutor;
use pachadb::query_planner::{DefaultQueryPlanner, Scan};
use pachadb::tx_manager::TxId;
use pachadb::engine::{Atom, Rule, Term};
use pachadb::scanner::{fetch_rules, key_tx_id};
use pachadb::value::{DateTime, Value};

fn uri(s: &str) -> Uri {
    Uri(s.to_string())
}

fn user_fact(entity: &str, field: &str, value: &str, stated_at: i128) -> UserFact {
    UserFact {
        entity: uri(entity),
        field: uri(field),
        source: uri("holocron"),
        value: Value::string(value),
        stated_at: DateTime::from_unix_nanos(stated_at),
    }
}

fn new_db() -> PachaDb {
    PachaDb::new(
        InMemoryStore::default(),
        InMemoryIndex::default(),
        InMemoryConsolidator::default(),
    )
}

fn row_pairs(row: &AssocMap<String, String>) -> Vec<(String, String)> {
    let mut out = vec![];
    for i in 0..row.len() {
        let (k, v) = row.entry(i);
        out.push((k.clone(), v.clone()));
    }
    out.sort();
    out
}

fn rows(rs: &[AssocMap<String, String>]) -> Vec<Vec<(String, String)>> {
    let mut out: Vec<Vec<(String, String)>> = rs.iter().map(row_pairs).collect();
    out.sort();
    out
}

fn pair(k: &str, v: &str) -> (String, String) {
    (k.to_string(), v.to_string())
}

fn jedi_db() -> PachaDb {
    let mut db = new_db();
    db.state(vec![
        user_fact("obi-wan", "is-master-of", "anakin", 1),
        user_fact("anakin", "is-master-of", "ahsoka", 2),
        user_fact("obi-wan", "has-rank", "jedi-master", 3),
        user_fact("anakin", "has-rank", "jedi-knight", 4),
    ])
    .unwrap();
    db
}

#[test]
fn query_sees_stated_facts() {
    let db = jedi_db();
    let answers = db.query("(?master is-master-of ?padawan)").unwrap();
    assert_eq!(
        rows(&answers),
        vec![
            vec![pair("?master", "anakin"), pair("?padawan", "ahsoka")],
            vec![pair("?master", "obi-wan"), pair("?padawan", "anakin")],
        ]
    );
}

#[test]
fn query_joins_triples() {
    let db = jedi_db();
    let answers = db
        .query("(?who has-rank jedi-master ?who is-master-of ?padawan)")
        .unwrap();
    assert_eq!(
        rows(&answers),
        vec![vec![pair("?padawan", "anakin"), pair("?who", "obi-wan")]]
    );
    let none = db.query("(?who has-rank sith-lord)").unwrap();
    assert_eq!(none.len(), 0);
}

#[test]
fn state_numbers_transactions_in_order() {
    let mut db = new_db();
    assert_eq!(db.tx_manager().last_tx_id().unwrap(), TxId(0));
    let t0 = db.state(vec![user_fact("a", "f", "1", 1)]).unwrap();
    let t1 = db.state(vec![user_fact("b", "f", "2", 2)]).unwrap();
    assert_eq!(t0, TxId(0));
    assert_eq!(t1, TxId(1));
    assert_eq!(db.tx_manager().last_tx_id().unwrap(), TxId(2));
}

#[test]
fn stated_facts_get_fresh_ids_and_stay() {
    let mut db = new_db();
    db.state(vec![user_fact("a", "f", "1", 1)]).unwrap();
    let ids = fact_ids(&db, Scan::Entity("a".to_string()));
    assert_eq!(ids.len(), 1);
    let first = ids[0].clone();
    assert!(first.0.starts_with("pachadb:fact:"));
    assert_eq!(first.0.len(), "pachadb:fact:".len() + 36);
    let uuid: Vec<char> = first.0["pachadb:fact:".len()..].chars().collect();
    for (i, c) in uuid.iter().enumerate() {
        if i == 8 || i == 13 || i == 18 || i == 23 {
            assert_eq!(*c, '-');
        } else {
            assert!(c.is_ascii_hexdigit() && !c.is_ascii_uppercase());
        }
    }
    assert_eq!(uuid[14], '4');

    db.state(vec![user_fact("a", "f", "2", 2), user_fact("b", "f", "3", 3)]).unwrap();
    let stored = db.tx_manager().storage().get_fact(first.clone()).unwrap().unwrap();
    assert_eq!(stored.id, first);
    assert_eq!(stored.tx_id, TxId(0));
    assert_eq!(stored.value, Value::string("1"));
    let ids = fact_ids(&db, Scan::Entity("a".to_string()));
    assert_eq!(ids.len(), 2);
    assert!(ids.contains(&first));
}

fn fact_ids(db: &PachaDb, scan: Scan) -> Vec<Uri> {
    let mut ids: Vec<Uri> = db
        .tx_manager()
        .index()
        .scan(scan)
        .unwrap()
        .into_iter()
        .map(|k| k.fact_uri)
        .collect();
    ids.sort();
    ids.dedup();
    ids
}

#[test]
fn query_as_of_an_earlier_transaction_ignores_later_facts() {
    let mut db = new_db();
    db.state(vec![user_fact("rey", "trained-by", "luke", 1)]).unwrap();
    db.state(vec![user_fact("grogu", "trained-by", "luke", 2)]).unwrap();
    let tm = db.tx_manager();
    let executor = DefaultQueryExecutor::new(tm.storage(), tm.index());
    let rule = Parser.parse("(?who trained-by luke)").unwrap();
    let plan = DefaultQueryPlanner.plan(rule, TxId(1)).unwrap();
    let mut atoms = executor.execute(plan).unwrap();
    atoms.sort();
    let answers: Vec<_> = atoms
        .into_iter()
        .filter(|a| a.relation == pachadb::engine::Term::Sym("query0".to_string()))
        .collect();
    assert_eq!(answers.len(), 1);
    assert_eq!(answers[0].args, vec![pachadb::engine::Term::Sym("rey".to_string())]);
    let now = db.query("(?who trained-by luke)").unwrap();
    assert_eq!(
        rows(&now),
        vec![vec![pair("?who", "grogu")], vec![pair("?who", "rey")]]
    );
}

#[test]
fn consolidation_keeps_latest_stated_value() {
    let mut db = new_db();
    db.state(vec![user_fact("luke", "rank", "padawan", 10)]).unwrap();
    db.state(vec![user_fact("luke", "rank", "farm-boy", 5)]).unwrap();
    let entity: &Entity = db.tx_manager().consolidator().entity(&uri("luke")).unwrap();
    assert_eq!(entity.uri, uri("luke"));
    assert_eq!(entity.fields.get(&uri("rank")), Some(&Value::string("padawan")));
    db.state(vec![user_fact("luke", "rank", "jedi-master", 20)]).unwrap();
    let entity = db.tx_manager().consolidator().entity(&uri("luke")).unwrap();
    assert_eq!(entity.fields.get(&uri("rank")), Some(&Value::string("jedi-master")));
    assert_eq!(entity.prior_facts.get(&uri("rank")).unwrap().stated_at.unix_nanos(), 20);
    assert!(db.tx_manager().consolidator().entity(&uri("leia")).is_none());
}

#[test]
fn query_reports_grammar_errors() {
    let db = new_db();
    assert!(matches!(
        db.query("(?who likes"),
        Err(PachaError::QueryParsingError(ParseError::Grammar(_)))
    ));
}

#[test]
fn query_reports_non_list_queries() {
    let db = new_db();
    match db.query("?who") {
        Err(PachaError::QueryParsingError(ParseError::Unsupported(m))) => {
            assert_eq!(m, "top-level query must be a list!")
        }
        other => panic!("unexpected {:?}", other),
    }
}

#[test]
fn query_reports_facts_missing_from_the_store() {
    let fact = Fact {
        tx_id: TxId(0),
        id: uri("pachadb:fact:lost"),
        entity: uri("han"),
        field: uri("flies"),
        source: uri("holocron"),
        value: Value::string("falcon"),
        stated_at: DateTime::from_unix_nanos(1),
    };
    let mut index = InMemoryIndex::default();
    index.put(&vec![fact]).unwrap();
    let mut store = InMemoryStore::default();
    store.get_next_tx_id().unwrap();
    let db = PachaDb::new(store, index, InMemoryConsolidator::default());
    assert!(matches!(
        db.query("(?who flies falcon)"),
        Err(PachaError::UnrecoverableStorageError(_))
    ));
}

#[test]
fn index_keys_of_a_fact() {
    let fact = Fact {
        tx_id: TxId(7),
        id: uri("pachadb:fact:x"),
        entity: uri("e"),
        field: uri("f"),
        source: uri("s"),
        value: Value::string("v"),
        stated_at: DateTime::from_unix_nanos(0),
    };
    let keys: Vec<String> = IndexKeySet::from_fact(&fact)
        .keys()
        .iter()
        .map(|k| k.to_string())
        .collect();
    assert_eq!(keys, vec!["e/7", "e/f/7", "f/7", "f/v/7", "v/7"]);
    let k = IndexKey::new(TxId(12), uri("u"), vec![Value::uri(uri("a")), Value::string("b")]);
    assert_eq!(k.to_string(), "a/b/12");
    assert!(k.starts_with("a/b"));
    assert!(k.starts_with(""));
    assert!(!k.starts_with("b"));
}

#[test]
fn values_and_uris() {
    assert_eq!(Value::string("x").to_string(), "x");
    assert_eq!(Value::uri(uri("y")).to_string(), "y");
    assert_eq!(Value::from(uri("z")), Value::uri(uri("z")));
    assert_eq!(Uri::new("w".to_string()).to_string(), "w");
}

#[test]
fn clock_reads_the_present() {
    let t = DateTime::now_utc().unix_nanos();
    // 2020-01-01T00:00:00Z
    assert!(t > 1_577_836_800_000_000_000);
    assert_eq!(DateTime::from_unix_nanos(5).unix_nanos(), 5);
}

#[test]
fn store_counts_transactions() {
    let mut store = InMemoryStore::default();
    assert_eq!(store.get_tx_id().unwrap(), TxId(0));
    assert_eq!(store.get_next_tx_id().unwrap(), TxId(0));
    assert_eq!(store.get_next_tx_id().unwrap(), TxId(1));
    assert_eq!(store.get_tx_id().unwrap(), TxId(2));
    assert!(store.get_fact(uri("nothing")).unwrap().is_none());
}

#[test]
fn simple_test() {
    let _db = PachaDb::new(
        InMemoryStore::default(),
        InMemoryIndex::default(),
        InMemoryConsolidator::default(),
    );
}

#[test]
fn query_answers_exactly_the_facts_of_every_earlier_call() {
    let mut db = new_db();
    db.state(vec![user_fact("yoda", "trained", "dooku", 1)]).unwrap();
    db.state(vec![user_fact("dooku", "trained", "qui-gon", 2), user_fact("dooku", "rank", "count", 3)])
        .unwrap();
    db.state(vec![user_fact("qui-gon", "trained", "obi-wan", 4)]).unwrap();
    db.state(vec![user_fact("ahsoka", "rank", "fulcrum", 5)]).unwrap();
    let answers = db.query("(?master trained ?padawan)").unwrap();
    assert_eq!(
        rows(&answers),
        vec![
            vec![pair("?master", "dooku"), pair("?padawan", "qui-gon")],
            vec![pair("?master", "qui-gon"), pair("?padawan", "obi-wan")],
            vec![pair("?master", "yoda"), pair("?padawan", "dooku")],
        ]
    );
}

#[test]
fn fact_keys_are_found_by_their_scans() {
    let fact = Fact {
        tx_id: TxId(3),
        id: uri("pachadb:fact:k"),
        entity: uri("ent"),
        field: uri("fld"),
        source: uri("s"),
        value: Value::string("val"),
        stated_at: DateTime::from_unix_nanos(0),
    };
    let keys = IndexKeySet::from_fact(&fact).keys();
    let scans = vec![
        Scan::Entity("ent".to_string()),
        Scan::EntityField("ent".to_string(), "fld".to_string()),
        Scan::Field("fld".to_string()),
        Scan::FieldValue("fld".to_string(), "val".to_string()),
        Scan::Value("val".to_string()),
    ];
    for (k, s) in keys.iter().zip(scans.iter()) {
        assert!(k.starts_with(&s.to_prefix()));
    }
}

#[test]
fn join_query_answers_its_instances_across_calls() {
    let mut db = new_db();
    db.state(vec![user_fact("obi-wan", "has-rank", "jedi-master", 1)]).unwrap();
    db.state(vec![user_fact("obi-wan", "is-master-of", "anakin", 2)]).unwrap();
    db.state(vec![
        user_fact("anakin", "fought-in", "geonosis", 3),
        user_fact("geonosis", "enemy-was", "dooku", 4),
        user_fact("obi-wan", "fought-in", "naboo", 5),
        user_fact("naboo", "enemy-was", "darth-maul", 6),
    ])
    .unwrap();
    db.state(vec![user_fact("anakin", "has-rank", "jedi-knight", 7)]).unwrap();
    let answers = db
        .query(
            "(?who has-rank jedi-master
              ?who is-master-of ?padawan
              ?padawan fought-in ?fight
              ?fight enemy-was ?enemy)",
        )
        .unwrap();
    assert_eq!(
        rows(&answers),
        vec![vec![
            pair("?enemy", "dooku"),
            pair("?fight", "geonosis"),
            pair("?padawan", "anakin"),
            pair("?who", "obi-wan"),
        ]]
    );
    let by_entity = db.query("(obi-wan ?field ?value)").unwrap();
    assert_eq!(by_entity.len(), 0);
    let by_entity_field = db.query("(anakin has-rank ?rank)").unwrap();
    assert_eq!(rows(&by_entity_field), vec![vec![pair("?rank", "jedi-knight")]]);
}

fn fact_at(entity: &str, field: &str, value: &str) -> Fact {
    Fact {
        tx_id: TxId(0),
        id: uri("pachadb:fact:f"),
        entity: uri(entity),
        field: uri(field),
        source: uri("s"),
        value: Value::string(value),
        stated_at: DateTime::from_unix_nanos(0),
    }
}

#[test]
fn fetch_rules_keeps_keys_up_to_the_bound() {
    assert_eq!(key_tx_id("e/f/42"), TxId(42));
    assert_eq!(key_tx_id("7"), TxId(7));
    assert_eq!(key_tx_id("v/+5"), TxId(5));
    assert_eq!(key_tx_id("v/18446744073709551615"), TxId(u64::MAX));
    let listing = vec![
        ("luke/rank/3".to_string(), fact_at("luke", "rank", "knight")),
        ("rank/10".to_string(), fact_at("leia", "rank", "general")),
        ("rank/master/2".to_string(), fact_at("yoda", "rank", "master")),
    ];
    let sym = |s: &str| Term::Sym(s.to_string());
    let rules = fetch_rules(&listing, TxId(3));
    assert_eq!(
        rules,
        vec![
            Rule { head: Atom { relation: sym("rank"), args: vec![sym("luke"), sym("knight")] }, body: vec![] },
            Rule { head: Atom { relation: sym("rank"), args: vec![sym("yoda"), sym("master")] }, body: vec![] },
        ]
    );
    assert_eq!(fetch_rules(&listing, TxId(1)), vec![]);
}
