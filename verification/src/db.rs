//! The database: states facts in transactions and answers queries over them.

use vstd::prelude::*;

use crate::answers::{
    db_consistent, expected_rows, law_consistent_plans_do_not_fail, law_query_answers_its_instances,
    no_answer_facts, scannable_body,
};
use crate::assoc::AssocMap;
use crate::backend::memory::{
    consolidate_facts, index_facts, insert_facts, InMemoryConsolidator, InMemoryIndex,
    InMemoryStore, StoreV,
};
use crate::engine::{atoms_view, is_ground, range_restricted, terms_view, Atom, AtomV, Term, TermV};
use crate::error::{PachaError, PachaResult};
use crate::fixpoint::is_least_model;
use crate::grammar::parse_text;
use crate::ast::ExprV;
use crate::model::{FactV, UserFact};
use crate::parser::{
    query0_name, query0_string, query_body, query_convertible, query_head_args, query_rule,
    syntax_message, top_level_message, vars_in, triple_terms, ParseError, Parser,
};
use crate::query_executor::{missing_fact_message, plan_fails, plan_loaded, plan_query, DefaultQueryExecutor};
use crate::query_planner::{body_binary, body_scans, DefaultQueryPlanner, QueryPlanV};
use crate::tx_manager::{recorded_as, DefaultTxManager, TransactionV, TxId, TxManagerV};

verus! {

/// The row of answers an atom gives: each head variable bound to the symbol in
/// the same position, later positions winning for a repeated variable.
pub open spec fn row_of(headers: Seq<TermV>, args: Seq<TermV>) -> Map<Seq<char>, Seq<char>>
    decreases headers.len(),
{
    let n = if headers.len() < args.len() {
        headers.len()
    } else {
        args.len()
    };
    if n == 0 {
        Map::empty()
    } else {
        let name = match headers[n - 1] {
            TermV::Var(v) => v,
            TermV::Sym(s) => s,
        };
        let value = match args[n - 1] {
            TermV::Var(v) => v,
            TermV::Sym(s) => s,
        };
        row_of(headers.take(n - 1), args.take(n - 1)).insert(name, value)
    }
}

/// The rows of the answers among `atoms`, in order: one per `query0` atom.
pub open spec fn answer_rows(atoms: Seq<AtomV>, headers: Seq<TermV>) -> Seq<Map<Seq<char>, Seq<char>>>
    decreases atoms.len(),
{
    if atoms.len() == 0 {
        Seq::empty()
    } else {
        let rest = answer_rows(atoms.drop_last(), headers);
        if atoms.last().relation == TermV::Sym(query0_name()) {
            rest.push(row_of(headers, atoms.last().args))
        } else {
            rest
        }
    }
}

/// The database after committing the facts `fs` as the transaction numbered by
/// the store's counter: the facts are stored and indexed, the entities take them
/// into account, and the counter moves on.
pub open spec fn stated(before: TxManagerV, fs: Seq<FactV>) -> TxManagerV {
    TxManagerV {
        store: StoreV {
            tx_id: (before.store.tx_id + 1) as u64,
            facts: insert_facts(before.store.facts, fs),
            txs: before.store.txs.push(
                TransactionV { id: before.store.tx_id, fact_ids: Seq::empty(), facts: fs },
            ),
        },
        index: index_facts(before.index, fs),
        entities: consolidate_facts(before.entities, fs),
    }
}

/// The plan for a query rule at transaction `tx`.
pub open spec fn query_plan(q: crate::engine::RuleV, tx: u64) -> QueryPlanV {
    QueryPlanV::RunScan(tx, body_scans(q.body), Box::new(QueryPlanV::Solve(q)))
}

/// The query can be answered without failing on its shape: it parses into a rule
/// (when it is a list) whose head variables all occur as entities or values.
pub open spec fn query_answerable(s: Seq<char>) -> bool {
    &&& query_convertible(s)
    &&& parse_text(s) matches Some(ExprV::List(items)) ==> range_restricted(query_rule(items))
}

pub open spec fn rows_view(rows: Seq<AssocMap<String, String>>) -> Seq<Map<Seq<char>, Seq<char>>> {
    rows.map_values(|r: AssocMap<String, String>| r@)
}

/// The database.
pub struct PachaDb {
    tx_manager: DefaultTxManager,
    query_planner: DefaultQueryPlanner,
}

impl View for PachaDb {
    type V = TxManagerV;

    closed spec fn view(&self) -> TxManagerV {
        self.tx_manager@
    }
}

impl PachaDb {
    pub fn new(store: InMemoryStore, index: InMemoryIndex, consolidator: InMemoryConsolidator) -> (r:
        PachaDb)
        ensures
            r@ == (TxManagerV { store: store@, index: index@, entities: consolidator@ }),
    {
        PachaDb {
            tx_manager: DefaultTxManager::new(store, index, consolidator),
            query_planner: DefaultQueryPlanner,
        }
    }

    /// The transaction manager, with the store, index and entities it keeps.
    pub fn tx_manager(&self) -> (r: &DefaultTxManager)
        ensures
            r@ == self@,
    {
        &self.tx_manager
    }

    /// States the facts in a new transaction and returns its id.
    pub fn state(&mut self, facts: Vec<UserFact>) -> (r: PachaResult<TxId>)
        requires
            old(self)@.store.tx_id < u64::MAX,
        ensures
            r matches Ok(t) && t.0 == old(self)@.store.tx_id && exists|fs: Seq<FactV>|
                #![trigger stated(old(self)@, fs)]
                {
                    &&& fs.len() == facts@.len()
                    &&& forall|i: int| 0 <= i < fs.len() ==> recorded_as(#[trigger] fs[i], facts@[i]@, t.0)
                    &&& final(self)@ == stated(old(self)@, fs)
                },
    {
        let tx = match self.tx_manager.transaction(facts) {
            Ok(tx) => tx,
            Err(e) => {
                return Err(e);
            },
        };
        let ghost tv = tx@;
        proof {
            assert(tv.fact_ids =~= Seq::<Seq<char>>::empty());
        }
        let r = self.tx_manager.commit(tx);
        proof {
            let fs = tv.facts;
            assert(fs.len() == facts@.len());
            assert(self@ == stated(old(self)@, fs));
        }
        r
    }

    /// The answers to `query`: one row per answer, binding each variable of the
    /// query to its value.
    pub fn query(&self, query: &str) -> (r: PachaResult<Vec<AssocMap<String, String>>>)
        requires
            query_answerable(query@),
        ensures
            match parse_text(query@) {
                None => r matches Err(PachaError::QueryParsingError(ParseError::Grammar(m)))
                    && m@ == syntax_message(),
                Some(ExprV::List(items)) => {
                    let q = query_rule(items);
                    let plan = query_plan(q, self@.store.tx_id);
                    &&& if plan_fails(plan, self@.store, self@.index) {
                        r matches Err(PachaError::UnrecoverableStorageError(m)) && m@
                            == missing_fact_message()
                    } else {
                        r matches Ok(rows) && exists|atoms: Seq<AtomV>, rs: Seq<crate::engine::RuleV>|
                            #![trigger answer_rows(atoms, q.head.args), rs.to_set()]
                            {
                                &&& atoms.no_duplicates()
                                &&& rs.to_set() == plan_loaded(plan, self@.store, self@.index).insert(q)
                                &&& is_least_model(rs, atoms.to_set())
                                &&& rows_view(rows@) == answer_rows(atoms, q.head.args)
                            }
                    }
                    &&& db_consistent(self@) ==> !plan_fails(plan, self@.store, self@.index)
                    &&& r matches Ok(rows) ==> (db_consistent(self@) && no_answer_facts(self@.store)
                        && scannable_body(q) ==> rows_view(rows@).to_set() == expected_rows(q, self@.store))
                },
                Some(_) => r matches Err(PachaError::QueryParsingError(ParseError::Unsupported(m)))
                    && m@ == top_level_message(),
            },
    {
        let rule = match Parser.parse(query) {
            Ok(rule) => rule,
            Err(e) => {
                return Err(PachaError::from(e));
            },
        };
        let ghost items = parse_text(query@)->Some_0->List_0;
        let ghost q = rule@;
        proof {
            assert(q == query_rule(items));
            lemma_query_body_binary(items);
            lemma_query_head_vars(items);
            if db_consistent(self@) {
                law_consistent_plans_do_not_fail(self@, q);
            }
        }
        let headers = copy_terms(&rule.head.args);
        let tx_id = match self.tx_manager.last_tx_id() {
            Ok(t) => t,
            Err(e) => {
                return Err(e);
            },
        };
        let plan = match self.query_planner.plan(rule, tx_id) {
            Ok(p) => p,
            Err(e) => {
                return Err(e);
            },
        };
        let executor = DefaultQueryExecutor::new(self.tx_manager.storage(), self.tx_manager.index());
        let ghost pv = plan@;
        proof {
            assert(pv == query_plan(q, self@.store.tx_id));
            assert(plan_query(pv) == q) by {
                reveal_with_fuel(plan_query, 2);
            }
            assert(executor.store_view() == self@.store);
            assert(executor.index_view() == self@.index);
        }
        let atoms = match executor.execute(plan) {
            Ok(atoms) => atoms,
            Err(e) => {
                return Err(e);
            },
        };
        let ghost av = atoms_view(atoms@);
        let query0 = query0_string();
        let mut results: Vec<AssocMap<String, String>> = Vec::new();
        let mut i: usize = 0;
        proof {
            assert(av.take(0) =~= Seq::<AtomV>::empty());
            assert(rows_view(results@) =~= answer_rows(av.take(0), q.head.args));
        }
        while i < atoms.len()
            invariant
                i <= atoms@.len(),
                av == atoms_view(atoms@),
                query0@ == query0_name(),
                terms_view(headers@) == q.head.args,
                forall|j: int| 0 <= j < q.head.args.len() ==> (#[trigger] q.head.args[j]) is Var,
                forall|j: int| 0 <= j < av.len() ==> is_ground(#[trigger] av[j]),
                rows_view(results@) == answer_rows(av.take(i as int), q.head.args),
            decreases atoms@.len() - i,
        {
            let row = &atoms[i];
            proof {
                assert(av.take(i + 1).drop_last() =~= av.take(i as int));
                assert(av.take(i + 1).last() == row@);
                assert(is_ground(av[i as int]));
            }
            let is_answer = match &row.relation {
                Term::Sym(s) => *s == query0,
                Term::Var(_) => false,
            };
            if is_answer {
                let row_map = build_row(&headers, &row.args);
                let ghost before = rows_view(results@);
                results.push(row_map);
                proof {
                    assert(rows_view(results@) =~= before.push(row_map@));
                }
            }
            i = i + 1;
        }
        proof {
            assert(av.take(atoms@.len() as int) =~= av);
            if db_consistent(self@) && no_answer_facts(self@.store) && scannable_body(q) {
                let rs = choose|rs: Seq<crate::engine::RuleV>|
                    #[trigger] rs.to_set() == plan_loaded(pv, self@.store, self@.index).insert(q)
                        && is_least_model(rs, av.to_set());
                law_query_answers_its_instances(self@, q, av, rs);
            }
        }
        Ok(results)
    }
}

/// A copy of the terms.
fn copy_terms(ts: &Vec<Term>) -> (r: Vec<Term>)
    ensures
        terms_view(r@) == terms_view(ts@),
{
    let mut out: Vec<Term> = Vec::new();
    let mut i: usize = 0;
    while i < ts.len()
        invariant
            i <= ts@.len(),
            terms_view(out@) =~= terms_view(ts@).take(i as int),
        decreases ts@.len() - i,
    {
        let t = ts[i].duplicate();
        let ghost before = out@;
        out.push(t);
        proof {
            assert(terms_view(out@) =~= terms_view(before).push(t@));
            assert(terms_view(ts@).take(i + 1) =~= terms_view(ts@).take(i as int).push(terms_view(ts@)[i as int]));
        }
        i = i + 1;
    }
    proof {
        assert(terms_view(ts@).take(ts@.len() as int) =~= terms_view(ts@));
    }
    out
}

/// The row that binds each header variable to the symbol in the same position of `args`.
fn build_row(headers: &Vec<Term>, args: &Vec<Term>) -> (r: AssocMap<String, String>)
    requires
        forall|j: int| 0 <= j < headers@.len() ==> (#[trigger] terms_view(headers@)[j]) is Var,
        forall|j: int| 0 <= j < args@.len() ==> (#[trigger] terms_view(args@)[j]) is Sym,
    ensures
        r@ == row_of(terms_view(headers@), terms_view(args@)),
{
    let ghost hv = terms_view(headers@);
    let ghost xv = terms_view(args@);
    let n = if headers.len() < args.len() {
        headers.len()
    } else {
        args.len()
    };
    let mut row: AssocMap<String, String> = AssocMap::new();
    let mut i: usize = 0;
    proof {
        assert(row_of(hv.take(0), xv.take(0)) =~= Map::<Seq<char>, Seq<char>>::empty());
    }
    while i < n
        invariant
            i <= n,
            n <= headers@.len(),
            n <= args@.len(),
            n == headers@.len() || n == args@.len(),
            hv == terms_view(headers@),
            xv == terms_view(args@),
            forall|j: int| 0 <= j < headers@.len() ==> (#[trigger] hv[j]) is Var,
            forall|j: int| 0 <= j < args@.len() ==> (#[trigger] xv[j]) is Sym,
            row@ == row_of(hv.take(i as int), xv.take(i as int)),
        decreases n - i,
    {
        proof {
            assert(hv[i as int] is Var);
            assert(xv[i as int] is Sym);
            assert(hv.take(i + 1).take(i as int) =~= hv.take(i as int));
            assert(xv.take(i + 1).take(i as int) =~= xv.take(i as int));
        }
        match (&headers[i], &args[i]) {
            (Term::Var(name), Term::Sym(value)) => {
                row.insert(name.clone(), value.clone());
            },
            _ => {
                // headers are variables and answers are ground
                proof {
                    assert(false);
                }
            },
        }
        i = i + 1;
    }
    proof {
        assert(row_of(hv, xv) == row_of(hv.take(n as int), xv.take(n as int))) by {
            assert(hv.take(n as int).len() == n && xv.take(n as int).len() == n);
            if headers@.len() <= args@.len() {
                assert(hv.take(n as int) =~= hv);
            } else {
                assert(xv.take(n as int) =~= xv);
            }
            lemma_row_of_trim(hv, xv);
        }
    }
    row
}

/// Only the first `min(len)` positions of the headers and the arguments matter.
pub proof fn lemma_row_of_trim(headers: Seq<TermV>, args: Seq<TermV>)
    ensures
        ({
            let n = if headers.len() < args.len() {
                headers.len()
            } else {
                args.len()
            };
            row_of(headers, args) == row_of(headers.take(n as int), args.take(n as int))
        }),
{
    let n = if headers.len() < args.len() {
        headers.len()
    } else {
        args.len()
    };
    if n > 0 {
        assert(headers.take(n as int).take(n - 1) =~= headers.take(n - 1));
        assert(args.take(n as int).take(n - 1) =~= args.take(n - 1));
        assert(headers.take(n as int)[n - 1] == headers[n - 1]);
        assert(args.take(n as int)[n - 1] == args[n - 1]);
    }
}

/// Every atom of a parsed query has an entity and a value.
pub proof fn lemma_query_body_binary(items: Seq<ExprV>)
    ensures
        body_binary(query_body(items)),
    decreases items.len(),
{
    if items.len() >= 3 {
        lemma_query_body_binary(items.skip(3));
        let b = query_body(items);
        assert forall|j: int| 0 <= j < b.len() implies (#[trigger] b[j]).args.len() >= 2 by {
            if j > 0 {
                assert(b[j] == query_body(items.skip(3))[j - 1]);
            }
        }
    }
}

/// The head of a parsed query holds only variables.
pub proof fn lemma_query_head_vars(items: Seq<ExprV>)
    ensures
        forall|j: int|
            0 <= j < query_head_args(items).len() ==> (#[trigger] query_head_args(items)[j]) is Var,
    decreases items.len(),
{
    if items.len() >= 3 {
        lemma_query_head_vars(items.skip(3));
        let v = vars_in(triple_terms(items));
        let h = query_head_args(items);
        assert forall|j: int| 0 <= j < h.len() implies (#[trigger] h[j]) is Var by {
            if j < v.len() {
                assert(v.contains(v[j]));
                assert(h[j] == v[j]);
            } else {
                assert(h[j] == query_head_args(items.skip(3))[j - v.len()]);
            }
        }
    }
}

} // verus!
