//! Query execution: load the facts a plan's scans find, then solve the query rule
//! against them.

use vstd::prelude::*;

use crate::assoc::ViewEq;
use crate::backend::memory::{InMemoryIndex, InMemoryStore, StoreV};
use crate::engine::{
    all_range_restricted, atom_has_var, atoms_view, is_ground, range_restricted, rules_view, Atom,
    AtomV, Rule, RuleV, Solver, Term, TermV,
};
use crate::error::{PachaError, PachaResult};
use crate::fixpoint::is_least_model;
use crate::index::{key_text, IndexKeyV};
use crate::model::{uris_view, FactV, Uri};
use crate::query_planner::{scan_prefix, scans_view, QueryPlan, QueryPlanV, Scan, ScanV};
use crate::tx_manager::TxId;
use crate::value::value_text;

verus! {

/// The rule that states a fact: `field(entity, value)` with an empty body.
pub open spec fn fact_rule(f: FactV) -> RuleV {
    RuleV {
        head: AtomV {
            relation: TermV::Sym(f.field),
            args: seq![TermV::Sym(f.entity), TermV::Sym(value_text(f.value))],
        },
        body: Seq::empty(),
    }
}

/// The key is one of the scans' and belongs to a transaction before `tx`.
pub open spec fn key_scanned(k: IndexKeyV, scans: Seq<ScanV>, tx: u64) -> bool {
    &&& k.tx_id < tx
    &&& exists|j: int| 0 <= j < scans.len() && scan_prefix(#[trigger] scans[j]).is_prefix_of(key_text(k))
}

/// The ids of the facts that the scans find before transaction `tx`.
pub open spec fn scanned_ids(index: Map<IndexKeyV, Seq<char>>, scans: Seq<ScanV>, tx: u64) -> Set<
    Seq<char>,
> {
    Set::new(
        |u: Seq<char>|
            exists|k: IndexKeyV| #[trigger] index.contains_key(k) && key_scanned(k, scans, tx) && index[k] == u,
    )
}

/// Some fact the scans find is missing from the store.
pub open spec fn scan_fails(store: StoreV, index: Map<IndexKeyV, Seq<char>>, scans: Seq<ScanV>, tx: u64) -> bool {
    exists|u: Seq<char>| #[trigger] scanned_ids(index, scans, tx).contains(u) && !store.facts.contains_key(u)
}

/// The fact rules the scans load.
pub open spec fn loaded_rules(store: StoreV, index: Map<IndexKeyV, Seq<char>>, scans: Seq<ScanV>, tx: u64) -> Set<RuleV> {
    scanned_ids(index, scans, tx).map(|u: Seq<char>| fact_rule(store.facts[u]))
}

/// The fact rules of the stored facts named by `ids`, in order.
pub open spec fn fact_rules_of(store: StoreV, ids: Seq<Seq<char>>) -> Seq<RuleV> {
    ids.map_values(|u: Seq<char>| fact_rule(store.facts[u]))
}

/// Some scan of the plan finds a fact missing from the store.
pub open spec fn plan_fails(p: QueryPlanV, store: StoreV, index: Map<IndexKeyV, Seq<char>>) -> bool
    decreases p,
{
    match p {
        QueryPlanV::RunScan(tx, scans, next) => scan_fails(store, index, scans, tx) || plan_fails(*next, store, index),
        QueryPlanV::Solve(_) => false,
    }
}

/// The fact rules all the scans of the plan load.
pub open spec fn plan_loaded(p: QueryPlanV, store: StoreV, index: Map<IndexKeyV, Seq<char>>) -> Set<RuleV>
    decreases p,
{
    match p {
        QueryPlanV::RunScan(tx, scans, next) => loaded_rules(store, index, scans, tx).union(
            plan_loaded(*next, store, index),
        ),
        QueryPlanV::Solve(_) => Set::empty(),
    }
}

/// The rule the plan solves for.
pub open spec fn plan_query(p: QueryPlanV) -> RuleV
    decreases p,
{
    match p {
        QueryPlanV::RunScan(_, _, next) => plan_query(*next),
        QueryPlanV::Solve(q) => q,
    }
}

/// The rule states a ground fact.
pub open spec fn is_fact_rule(r: RuleV) -> bool {
    r.body.len() == 0 && is_ground(r.head)
}

pub proof fn lemma_fact_rule_restricted(r: RuleV)
    requires
        is_fact_rule(r),
    ensures
        range_restricted(r),
{
    assert forall|t: TermV| atom_has_var(r.head, t) implies crate::engine::body_has_var(r.body, t) by {
        let i = choose|i: int| 0 <= i < r.head.args.len() && r.head.args[i] == t;
        assert(is_ground(r.head));
        assert(r.head.args[i] is Sym);
    }
}

pub open spec fn missing_fact_message() -> Seq<char> {
    "missing fact from store! is the index corrupted?"@
}

/// Runs plans against an index and a store.
pub struct DefaultQueryExecutor<'a> {
    index: &'a InMemoryIndex,
    store: &'a InMemoryStore,
    solver: Solver,
}

impl<'a> DefaultQueryExecutor<'a> {
    pub closed spec fn store_view(&self) -> StoreV {
        self.store@
    }

    pub closed spec fn index_view(&self) -> Map<IndexKeyV, Seq<char>> {
        self.index@
    }

    pub fn new(store: &'a InMemoryStore, index: &'a InMemoryIndex) -> (r: DefaultQueryExecutor<'a>)
        ensures
            r.store_view() == store@,
            r.index_view() == index@,
    {
        DefaultQueryExecutor { index, store, solver: Solver }
    }

    /// The facts the plan's query rule entails from the facts its scans load.
    pub fn execute(&self, plan: QueryPlan) -> (r: PachaResult<Vec<Atom>>)
        requires
            !plan_fails(plan@, self.store_view(), self.index_view()) ==> range_restricted(
                plan_query(plan@),
            ),
        ensures
            plan_fails(plan@, self.store_view(), self.index_view()) ==> (r matches Err(
                PachaError::UnrecoverableStorageError(m),
            ) && m@ == missing_fact_message()),
            !plan_fails(plan@, self.store_view(), self.index_view()) ==> (r matches Ok(atoms) && {
                &&& atoms_view(atoms@).no_duplicates()
                &&& forall|j: int| 0 <= j < atoms@.len() ==> is_ground(#[trigger] atoms_view(atoms@)[j])
                &&& exists|rs: Seq<RuleV>|
                    #[trigger] rs.to_set() == plan_loaded(plan@, self.store_view(), self.index_view()).insert(
                        plan_query(plan@),
                    ) && is_least_model(rs, atoms_view(atoms@).to_set())
            }),
    {
        let rules: Vec<Rule> = Vec::new();
        proof {
            assert(rules_view(rules@) =~= Seq::<RuleV>::empty());
        }
        self.do_run_query(plan, rules)
    }

    fn do_run_query(&self, plan: QueryPlan, rules: Vec<Rule>) -> (r: PachaResult<Vec<Atom>>)
        requires
            forall|i: int| 0 <= i < rules@.len() ==> is_fact_rule(#[trigger] rules_view(rules@)[i]),
            !plan_fails(plan@, self.store_view(), self.index_view()) ==> range_restricted(
                plan_query(plan@),
            ),
        ensures
            plan_fails(plan@, self.store_view(), self.index_view()) ==> (r matches Err(
                PachaError::UnrecoverableStorageError(m),
            ) && m@ == missing_fact_message()),
            !plan_fails(plan@, self.store_view(), self.index_view()) ==> (r matches Ok(atoms) && {
                &&& atoms_view(atoms@).no_duplicates()
                &&& forall|j: int| 0 <= j < atoms@.len() ==> is_ground(#[trigger] atoms_view(atoms@)[j])
                &&& exists|rs: Seq<RuleV>|
                    #[trigger] rs.to_set() == rules_view(rules@).to_set().union(
                        plan_loaded(plan@, self.store_view(), self.index_view()),
                    ).insert(plan_query(plan@)) && is_least_model(rs, atoms_view(atoms@).to_set())
            }),
        decreases plan,
    {
        let ghost pv = plan@;
        match plan {
            QueryPlan::RunScan(tx_id, scans, next) => {
                let ghost nv = (*next)@;
                proof {
                    assert(pv == QueryPlanV::RunScan(tx_id.0, scans_view(scans@), Box::new(nv)));
                }
                let rules2 = match self.do_run_scan(tx_id, scans, rules) {
                    Ok(rs) => rs,
                    Err(e) => {
                        return Err(e);
                    },
                };
                let r = self.do_run_query(*next, rules2);
                proof {
                    if !plan_fails(pv, self.store_view(), self.index_view()) {
                        let atoms = r->Ok_0;
                        let rs = choose|rs: Seq<RuleV>|
                            #[trigger] rs.to_set() == rules_view(rules2@).to_set().union(
                                plan_loaded(nv, self.store_view(), self.index_view()),
                            ).insert(plan_query(nv)) && is_least_model(rs, atoms_view(atoms@).to_set());
                        assert(rs.to_set() =~= rules_view(rules@).to_set().union(
                            plan_loaded(pv, self.store_view(), self.index_view()),
                        ).insert(plan_query(pv)));
                    }
                }
                r
            },
            QueryPlan::Solve(query) => {
                let ghost qv = query@;
                let ghost before = rules_view(rules@);
                let mut rules = rules;
                rules.push(query);
                proof {
                    let rv = rules_view(rules@);
                    assert(rv =~= before.push(qv));
                    assert forall|i: int| 0 <= i < rv.len() implies range_restricted(#[trigger] rv[i]) by {
                        if i < before.len() {
                            assert(rv[i] == before[i]);
                            lemma_fact_rule_restricted(before[i]);
                        }
                    }
                }
                let atoms = self.solver.solve(rules);
                proof {
                    let rv = before.push(qv);
                    assert forall|x: RuleV| rv.to_set().contains(x) <==> before.to_set().union(
                        Set::<RuleV>::empty(),
                    ).insert(qv).contains(x) by {
                        crate::seq_facts::lemma_push_contains(before, qv, x);
                    }
                    assert(rv.to_set() =~= before.to_set().union(Set::<RuleV>::empty()).insert(qv));
                }
                Ok(atoms)
            },
        }
    }

    fn do_run_scan(&self, tx_id: TxId, scans: Vec<Scan>, rules: Vec<Rule>) -> (r: PachaResult<Vec<Rule>>)
        requires
            forall|i: int| 0 <= i < rules@.len() ==> is_fact_rule(#[trigger] rules_view(rules@)[i]),
        ensures
            scan_fails(self.store_view(), self.index_view(), scans_view(scans@), tx_id.0) ==> (r matches Err(
                PachaError::UnrecoverableStorageError(m),
            ) && m@ == missing_fact_message()),
            !scan_fails(self.store_view(), self.index_view(), scans_view(scans@), tx_id.0) ==> (r matches Ok(out) && {
                &&& forall|i: int| 0 <= i < out@.len() ==> is_fact_rule(#[trigger] rules_view(out@)[i])
                &&& rules_view(out@).to_set() == rules_view(rules@).to_set().union(
                    loaded_rules(self.store_view(), self.index_view(), scans_view(scans@), tx_id.0),
                )
                &&& exists|ids: Seq<Seq<char>>|
                    #![trigger fact_rules_of(self.store_view(), ids)]
                    {
                        &&& ids.no_duplicates()
                        &&& ids.to_set() == scanned_ids(self.index_view(), scans_view(scans@), tx_id.0)
                        &&& rules_view(out@) == rules_view(rules@) + fact_rules_of(self.store_view(), ids)
                    }
            }),
    {
        let ghost sv = scans_view(scans@);
        let ghost idx = self.index@;
        let ghost st = self.store@;
        let ghost ids = scanned_ids(idx, sv, tx_id.0);
        let mut uris: Vec<Uri> = Vec::new();
        let mut s: usize = 0;
        proof {
            assert forall|u: Seq<char>|
                #![trigger uris_view(uris@).contains(u)]
                uris_view(uris@).contains(u) <==> scanned_ids(idx, sv.take(0), tx_id.0).contains(u) by {
                if scanned_ids(idx, sv.take(0), tx_id.0).contains(u) {
                    let k = choose|k: IndexKeyV|
                        #[trigger] idx.contains_key(k) && key_scanned(k, sv.take(0), tx_id.0) && idx[k] == u;
                }
            }
        }
        while s < scans.len()
            invariant
                s <= scans@.len(),
                sv == scans_view(scans@),
                idx == self.index@,
                st == self.store@,
                ids == scanned_ids(idx, sv, tx_id.0),
                uris_view(uris@).no_duplicates(),
                forall|u: Seq<char>|
                    #![trigger uris_view(uris@).contains(u)]
                    uris_view(uris@).contains(u) <==> scanned_ids(idx, sv.take(s as int), tx_id.0).contains(u),
            decreases scans@.len() - s,
        {
            let scan = scans[s].clone_scan();
            let ghost sc = scan@;
            proof {
                assert(sc == sv[s as int]);
            }
            let keys = match self.index.scan(scan) {
                Ok(ks) => ks,
                Err(e) => {
                    return Err(e);
                },
            };
            let ghost kv = crate::index::keys_view(keys@);
            let mut k: usize = 0;
            let ghost base = uris_view(uris@);
            while k < keys.len()
                invariant
                    k <= keys@.len(),
                    idx == self.index@,
                    kv == crate::index::keys_view(keys@),
                    forall|kk: IndexKeyV|
                        kv.contains(kk) <==> (idx.contains_key(kk) && scan_prefix(sc).is_prefix_of(key_text(kk))),
                    uris_view(uris@).no_duplicates(),
                    forall|u: Seq<char>|
                        #![trigger uris_view(uris@).contains(u)]
                        uris_view(uris@).contains(u) <==> (base.contains(u) || exists|m: int|
                            0 <= m < k && (#[trigger] kv[m]).tx_id < tx_id.0 && idx[kv[m]] == u),
                decreases keys@.len() - k,
            {
                let key = &keys[k];
                proof {
                    assert(kv[k as int] == key@);
                    assert(kv.contains(key@));
                }
                let ghost before = uris_view(uris@);
                if key.tx_id.0 < tx_id.0 {
                    let uri = match self.index.get(key.duplicate()) {
                        Ok(Some(u)) => u,
                        Ok(None) => {
                            return Err(
                                PachaError::UnrecoverableStorageError(
                                    "missing fact from index! is the index corrupted?".to_string(),
                                ),
                            );
                        },
                        Err(e) => {
                            return Err(e);
                        },
                    };
                    let present = contains_uri(&uris, &uri);
                    if !present {
                        uris.push(uri);
                        proof {
                            assert(uris_view(uris@) =~= before.push(uri@));
                            assert(uris_view(uris@).no_duplicates()) by {
                                let nu = uris_view(uris@);
                                assert forall|x: int, y: int|
                                    0 <= x < nu.len() && 0 <= y < nu.len() && x != y implies nu[x] != nu[y] by {
                                    if x < before.len() && y < before.len() {
                                    } else if x < before.len() {
                                        assert(nu[x] == before[x]);
                                        assert(before.contains(before[x]));
                                    } else {
                                        assert(nu[y] == before[y]);
                                        assert(before.contains(before[y]));
                                    }
                                }
                            }
                        }
                    }
                    proof {
                        assert forall|u: Seq<char>|
                            #![trigger uris_view(uris@).contains(u)]
                            uris_view(uris@).contains(u) <==> (base.contains(u) || exists|m: int|
                                0 <= m < k + 1 && (#[trigger] kv[m]).tx_id < tx_id.0 && idx[kv[m]] == u) by {
                            crate::seq_facts::lemma_push_contains(before, uri@, u);
                            if exists|m: int| 0 <= m < k + 1 && (#[trigger] kv[m]).tx_id < tx_id.0 && idx[kv[m]] == u {
                                let m = choose|m: int| 0 <= m < k + 1 && (#[trigger] kv[m]).tx_id < tx_id.0 && idx[kv[m]] == u;
                                if m < k {
                                    assert(exists|m2: int| 0 <= m2 < k && (#[trigger] kv[m2]).tx_id < tx_id.0 && idx[kv[m2]] == u);
                                }
                            }
                            if exists|m: int| 0 <= m < k && (#[trigger] kv[m]).tx_id < tx_id.0 && idx[kv[m]] == u {
                                let m = choose|m: int| 0 <= m < k && (#[trigger] kv[m]).tx_id < tx_id.0 && idx[kv[m]] == u;
                                assert(0 <= m < k + 1);
                            }
                            if present {
                                assert(uris_view(uris@) == before);
                            }
                        }
                    }
                } else {
                    proof {
                        assert forall|u: Seq<char>|
                            #![trigger uris_view(uris@).contains(u)]
                            uris_view(uris@).contains(u) <==> (base.contains(u) || exists|m: int|
                                0 <= m < k + 1 && (#[trigger] kv[m]).tx_id < tx_id.0 && idx[kv[m]] == u) by {
                            if exists|m: int| 0 <= m < k + 1 && (#[trigger] kv[m]).tx_id < tx_id.0 && idx[kv[m]] == u {
                                let m = choose|m: int| 0 <= m < k + 1 && (#[trigger] kv[m]).tx_id < tx_id.0 && idx[kv[m]] == u;
                                assert(m < k);
                            }
                            if exists|m: int| 0 <= m < k && (#[trigger] kv[m]).tx_id < tx_id.0 && idx[kv[m]] == u {
                                let m = choose|m: int| 0 <= m < k && (#[trigger] kv[m]).tx_id < tx_id.0 && idx[kv[m]] == u;
                                assert(0 <= m < k + 1);
                            }
                        }
                    }
                }
                k = k + 1;
            }
            proof {
                assert forall|u: Seq<char>|
                    #![trigger uris_view(uris@).contains(u)]
                    uris_view(uris@).contains(u) <==> scanned_ids(idx, sv.take(s + 1), tx_id.0).contains(u) by {
                    lemma_scanned_ids_step(idx, sv, s as int, tx_id.0, u);
                    if exists|m: int| 0 <= m < keys@.len() && (#[trigger] kv[m]).tx_id < tx_id.0 && idx[kv[m]] == u {
                        let m = choose|m: int| 0 <= m < keys@.len() && (#[trigger] kv[m]).tx_id < tx_id.0 && idx[kv[m]] == u;
                        assert(kv.contains(kv[m]));
                        assert(idx.contains_key(kv[m]) && kv[m].tx_id < tx_id.0 && scan_prefix(sv[s as int]).is_prefix_of(key_text(kv[m])) && idx[kv[m]] == u);
                    }
                    if exists|kk: IndexKeyV|
                        #[trigger] idx.contains_key(kk) && kk.tx_id < tx_id.0 && scan_prefix(sv[s as int]).is_prefix_of(
                            key_text(kk),
                        ) && idx[kk] == u {
                        let kk = choose|kk: IndexKeyV|
                            #[trigger] idx.contains_key(kk) && kk.tx_id < tx_id.0 && scan_prefix(sv[s as int]).is_prefix_of(
                                key_text(kk),
                            ) && idx[kk] == u;
                        assert(kv.contains(kk));
                        let m = choose|m: int| 0 <= m < kv.len() && kv[m] == kk;
                        assert((#[trigger] kv[m]).tx_id < tx_id.0 && idx[kv[m]] == u);
                    }
                }
            }
            s = s + 1;
        }
        proof {
            assert(sv.take(scans@.len() as int) =~= sv);
            assert forall|u: Seq<char>|
                #![trigger uris_view(uris@).contains(u)]
                uris_view(uris@).contains(u) <==> ids.contains(u) by {}
        }
        let ghost rv0 = rules_view(rules@);
        let mut out = rules;
        let mut i: usize = 0;
        proof {
            assert(uris_view(uris@).take(0) =~= Seq::<Seq<char>>::empty());
            assert(rules_view(out@) =~= rv0 + fact_rules_of(st, uris_view(uris@).take(0)));
        }
        while i < uris.len()
            invariant
                i <= uris@.len(),
                st == self.store@,
                idx == self.index@,
                sv == scans_view(scans@),
                ids == scanned_ids(idx, sv, tx_id.0),
                forall|u: Seq<char>|
                    #![trigger uris_view(uris@).contains(u)]
                    uris_view(uris@).contains(u) <==> ids.contains(u),
                forall|j: int| 0 <= j < i ==> st.facts.contains_key(#[trigger] uris_view(uris@)[j]),
                forall|j: int| 0 <= j < out@.len() ==> is_fact_rule(#[trigger] rules_view(out@)[j]),
                uris_view(uris@).no_duplicates(),
                rules_view(out@) == rv0 + fact_rules_of(st, uris_view(uris@).take(i as int)),
                forall|r: RuleV|
                    #![trigger rules_view(out@).contains(r)]
                    rules_view(out@).contains(r) <==> (rv0.contains(r) || exists|j: int|
                        0 <= j < i && r == fact_rule(st.facts[#[trigger] uris_view(uris@)[j]])),
            decreases uris@.len() - i,
        {
            let ghost u = uris_view(uris@)[i as int];
            let fact = match self.store.get_fact(uris[i].duplicate()) {
                Ok(Some(f)) => f,
                Ok(None) => {
                    proof {
                        assert(uris_view(uris@).contains(u));
                        assert(ids.contains(u));
                        assert(scan_fails(st, idx, sv, tx_id.0));
                    }
                    return Err(
                        PachaError::UnrecoverableStorageError(
                            "missing fact from store! is the index corrupted?".to_string(),
                        ),
                    );
                },
                Err(e) => {
                    return Err(e);
                },
            };
            let mut args: Vec<Term> = Vec::new();
            args.push(Term::Sym(fact.entity.to_string()));
            args.push(Term::Sym(fact.value.to_string()));
            let head = Atom { relation: Term::Sym(fact.field.to_string()), args };
            let rule = Rule { head, body: Vec::new() };
            proof {
                assert(rule@.head.args =~= seq![TermV::Sym(fact@.entity), TermV::Sym(value_text(fact@.value))]);
                assert(rule@.body =~= Seq::<AtomV>::empty());
                assert(rule@ == fact_rule(st.facts[u]));
                assert(is_ground(rule@.head));
            }
            let ghost before = rules_view(out@);
            out.push(rule);
            proof {
                assert(rules_view(out@) =~= before.push(rule@));
                assert(uris_view(uris@).take(i + 1) =~= uris_view(uris@).take(i as int).push(u));
                assert(fact_rules_of(st, uris_view(uris@).take(i + 1)) =~= fact_rules_of(
                    st,
                    uris_view(uris@).take(i as int),
                ).push(fact_rule(st.facts[u])));
                assert(rules_view(out@) =~= rv0 + fact_rules_of(st, uris_view(uris@).take(i + 1)));
                assert forall|r: RuleV|
                    #![trigger rules_view(out@).contains(r)]
                    rules_view(out@).contains(r) <==> (rv0.contains(r) || exists|j: int|
                        0 <= j < i + 1 && r == fact_rule(st.facts[#[trigger] uris_view(uris@)[j]])) by {
                    crate::seq_facts::lemma_push_contains(before, rule@, r);
                    if exists|j: int| 0 <= j < i + 1 && r == fact_rule(st.facts[#[trigger] uris_view(uris@)[j]]) {
                        let j = choose|j: int| 0 <= j < i + 1 && r == fact_rule(st.facts[#[trigger] uris_view(uris@)[j]]);
                        if j < i {
                            assert(exists|j2: int| 0 <= j2 < i && r == fact_rule(st.facts[#[trigger] uris_view(uris@)[j2]]));
                        }
                    }
                    if exists|j: int| 0 <= j < i && r == fact_rule(st.facts[#[trigger] uris_view(uris@)[j]]) {
                        let j = choose|j: int| 0 <= j < i && r == fact_rule(st.facts[#[trigger] uris_view(uris@)[j]]);
                        assert(0 <= j < i + 1);
                    }
                }
            }
            i = i + 1;
        }
        proof {
            let lr = loaded_rules(st, idx, sv, tx_id.0);
            assert(!scan_fails(st, idx, sv, tx_id.0)) by {
                assert forall|u: Seq<char>| #[trigger] ids.contains(u) implies st.facts.contains_key(u) by {
                    assert(uris_view(uris@).contains(u));
                    let j = choose|j: int| 0 <= j < uris_view(uris@).len() && uris_view(uris@)[j] == u;
                }
            }
            assert(rules_view(out@).to_set() =~= rv0.to_set().union(lr)) by {
                assert forall|r: RuleV| rules_view(out@).to_set().contains(r) <==> rv0.to_set().union(lr).contains(r) by {
                    if exists|j: int| 0 <= j < uris@.len() && r == fact_rule(st.facts[#[trigger] uris_view(uris@)[j]]) {
                        let j = choose|j: int| 0 <= j < uris@.len() && r == fact_rule(st.facts[#[trigger] uris_view(uris@)[j]]);
                        assert(uris_view(uris@).contains(uris_view(uris@)[j]));
                        assert(ids.contains(uris_view(uris@)[j]));
                    }
                    if lr.contains(r) {
                        let u = choose|u: Seq<char>| ids.contains(u) && r == fact_rule(st.facts[u]);
                        assert(uris_view(uris@).contains(u));
                        let j = choose|j: int| 0 <= j < uris_view(uris@).len() && uris_view(uris@)[j] == u;
                        assert(r == fact_rule(st.facts[#[trigger] uris_view(uris@)[j]]));
                    }
                }
            }
            let uv = uris_view(uris@);
            assert(uv.take(uv.len() as int) =~= uv);
            assert(uv.to_set() =~= ids);
            assert(rules_view(out@) == rv0 + fact_rules_of(st, uv));
        }
        Ok(out)
    }
}

/// What the scans up to and including scan `s` find is what those before it find and
/// what scan `s` finds.
pub proof fn lemma_scanned_ids_step(
    index: Map<IndexKeyV, Seq<char>>,
    sv: Seq<ScanV>,
    s: int,
    tx: u64,
    u: Seq<char>,
)
    requires
        0 <= s < sv.len(),
    ensures
        scanned_ids(index, sv.take(s + 1), tx).contains(u) <==> (scanned_ids(index, sv.take(s), tx).contains(u)
            || exists|k: IndexKeyV|
            #[trigger] index.contains_key(k) && k.tx_id < tx && scan_prefix(sv[s]).is_prefix_of(key_text(k))
                && index[k] == u),
{
    let t1 = sv.take(s + 1);
    let t0 = sv.take(s);
    if scanned_ids(index, t1, tx).contains(u) {
        let k = choose|k: IndexKeyV| #[trigger] index.contains_key(k) && key_scanned(k, t1, tx) && index[k] == u;
        let j = choose|j: int| 0 <= j < t1.len() && scan_prefix(#[trigger] t1[j]).is_prefix_of(key_text(k));
        if j < s {
            assert(t0[j] == t1[j]);
            assert(key_scanned(k, t0, tx));
        } else {
            assert(t1[j] == sv[s]);
        }
    }
    if scanned_ids(index, t0, tx).contains(u) {
        let k = choose|k: IndexKeyV| #[trigger] index.contains_key(k) && key_scanned(k, t0, tx) && index[k] == u;
        let j = choose|j: int| 0 <= j < t0.len() && scan_prefix(#[trigger] t0[j]).is_prefix_of(key_text(k));
        assert(t0[j] == t1[j]);
        assert(key_scanned(k, t1, tx));
    }
    if exists|k: IndexKeyV|
        #[trigger] index.contains_key(k) && k.tx_id < tx && scan_prefix(sv[s]).is_prefix_of(key_text(k))
            && index[k] == u {
        let k = choose|k: IndexKeyV|
            #[trigger] index.contains_key(k) && k.tx_id < tx && scan_prefix(sv[s]).is_prefix_of(key_text(k))
                && index[k] == u;
        assert(t1[s] == sv[s]);
        assert(key_scanned(k, t1, tx));
    }
}

/// Whether a URI with the same text as `u` is in `us`.
fn contains_uri(us: &Vec<Uri>, u: &Uri) -> (r: bool)
    ensures
        r == uris_view(us@).contains(u@),
{
    let mut i: usize = 0;
    while i < us.len()
        invariant
            i <= us@.len(),
            forall|j: int| 0 <= j < i ==> us@[j]@ != u@,
        decreases us@.len() - i,
    {
        if us[i].view_eq(u) {
            proof {
                assert(uris_view(us@)[i as int] == u@);
            }
            return true;
        }
        i = i + 1;
    }
    proof {
        if uris_view(us@).contains(u@) {
            let j = choose|j: int| 0 <= j < us@.len() && #[trigger] uris_view(us@)[j] == u@;
            assert(us@[j]@ == u@);
        }
    }
    false
}

} // verus!
