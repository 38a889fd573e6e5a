//! What holds of the library as a whole: of matching and substitution, of what a
//! commit keeps and adds, and of what a query sees of what was stated before it.

use vstd::prelude::*;

use crate::ast::ExprV;
use crate::backend::memory::{consolidate_fact, consolidate_facts, index_facts, index_keys, insert_facts};
use crate::backend::memory::StoreV;
use crate::db::{answer_rows, query_plan, row_of, stated};
use crate::tx_manager::TransactionV;
use crate::engine::{
    is_ground, spec_find, spec_substitute, spec_unify, subst_term, unify_args, AtomV, RuleV, SubV,
    TermV,
};
use crate::fixpoint::{consequence, derives, extends_by, is_least_model, lemma_derives_mono, satisfies};
use crate::index::{fact_key, fact_keys, join_values, key_text, IndexKeyV};
use crate::model::{EntityV, FactV};
use crate::parser::{query0_name, query_body, query_head_args, query_rule, triple_terms, vars_in};
use crate::query_executor::{fact_rule, key_scanned, plan_fails, plan_loaded, scan_fails, scanned_ids};
use crate::query_planner::{body_scans, scan_prefix, ScanV};
use crate::tx_manager::TxManagerV;
use crate::value::{value_text, ValueV};

verus! {

/// Where unification of two argument lists succeeds, the bindings it returns send
/// every variable of the pattern to the symbol facing it, and every symbol of the
/// pattern faces itself.
pub(crate) proof fn lemma_unify_args_binds(xs: Seq<TermV>, ys: Seq<TermV>)
    requires
        xs.len() == ys.len(),
        unify_args(xs, ys) is Some,
    ensures
        forall|i: int|
            #![trigger xs[i]]
            0 <= i < xs.len() ==> ys[i] is Sym && (xs[i] is Var ==> spec_find(
                unify_args(xs, ys)->Some_0,
                xs[i],
            ) == Some(ys[i])) && (xs[i] is Sym ==> xs[i] == ys[i]),
    decreases xs.len(),
{
    if xs.len() > 0 {
        let xr = xs.drop_first();
        let yr = ys.drop_first();
        lemma_unify_args_binds(xr, yr);
        let inc = unify_args(xr, yr)->Some_0;
        let theta = unify_args(xs, ys)->Some_0;
        assert forall|i: int|
            #![trigger xs[i]]
            0 <= i < xs.len() implies ys[i] is Sym && (xs[i] is Var ==> spec_find(theta, xs[i])
                == Some(ys[i])) && (xs[i] is Sym ==> xs[i] == ys[i]) by {
            if i > 0 {
                assert(xr[i - 1] == xs[i]);
                assert(yr[i - 1] == ys[i]);
            }
            match (xs[0], ys[0]) {
                (TermV::Sym(a), TermV::Sym(b)) => {},
                (TermV::Var(_), TermV::Sym(_)) => {
                    assert(theta == seq![(xs[0], ys[0])] + inc);
                    assert(theta.drop_first() =~= inc);
                    if i > 0 && xs[i] is Var && xs[i] == xs[0] {
                        assert(spec_find(inc, xs[0]) == Some(ys[i]));
                    }
                },
                _ => {},
            }
        }
    }
}

/// Matching a pattern against a fact and substituting the bindings it returns
/// into the pattern gives back the fact.
pub proof fn law_unify_then_substitute(pattern: AtomV, fact: AtomV)
    requires
        spec_unify(pattern, fact) is Some,
    ensures
        spec_substitute(pattern, spec_unify(pattern, fact)->Some_0) == fact,
{
    let theta = spec_unify(pattern, fact)->Some_0;
    lemma_unify_args_binds(pattern.args, fact.args);
    let s = spec_substitute(pattern, theta);
    assert forall|i: int| 0 <= i < fact.args.len() implies s.args[i] == fact.args[i] by {
        assert(pattern.args[i] == pattern.args[i]);
        assert(s.args[i] == subst_term(pattern.args[i], theta));
    }
    assert(s.args =~= fact.args);
}

/// Every key of the index points at the id of the fact it names.
pub open spec fn index_names_facts(index: Map<IndexKeyV, Seq<char>>) -> bool {
    forall|k: IndexKeyV| #[trigger] index.contains_key(k) ==> index[k] == k.fact_uri
}

/// Every id the index points at is the id of a stored fact.
pub open spec fn index_backed(facts: Map<Seq<char>, FactV>, index: Map<IndexKeyV, Seq<char>>) -> bool {
    forall|k: IndexKeyV| #[trigger] index.contains_key(k) ==> facts.contains_key(index[k])
}

/// No fact of `fs` after position `i` has the id of the fact at `i`.
pub open spec fn id_not_reused(fs: Seq<FactV>, i: int) -> bool {
    forall|j: int| i < j < fs.len() ==> (#[trigger] fs[j]).id != fs[i].id
}

proof fn lemma_index_keys(m: Map<IndexKeyV, Seq<char>>, ks: Seq<IndexKeyV>, id: Seq<char>, k: IndexKeyV)
    ensures
        index_keys(m, ks, id).contains_key(k) <==> (m.contains_key(k) || ks.contains(k)),
        ks.contains(k) ==> index_keys(m, ks, id)[k] == id,
        !ks.contains(k) && m.contains_key(k) ==> index_keys(m, ks, id)[k] == m[k],
    decreases ks.len(),
{
    if ks.len() > 0 {
        lemma_index_keys(m, ks.drop_last(), id, k);
        if ks.drop_last().contains(k) {
            let j = choose|j: int| 0 <= j < ks.drop_last().len() && ks.drop_last()[j] == k;
            assert(ks[j] == k);
        }
        if ks.contains(k) && k != ks.last() {
            let j = choose|j: int| 0 <= j < ks.len() && ks[j] == k;
            assert(ks.drop_last()[j] == k);
        }
    }
}

/// The keys of a fact all name it.
pub(crate) proof fn lemma_fact_keys_name(f: FactV, k: IndexKeyV)
    requires
        fact_keys(f).contains(k),
    ensures
        k.fact_uri == f.id,
        k.tx_id == f.tx_id,
{
    let j = choose|j: int| 0 <= j < fact_keys(f).len() && fact_keys(f)[j] == k;
    assert(0 <= j < 5);
}

/// What indexing the facts `fs` keeps and adds.
pub(crate) proof fn lemma_index_facts(m: Map<IndexKeyV, Seq<char>>, fs: Seq<FactV>, k: IndexKeyV)
    requires
        index_names_facts(m),
    ensures
        index_names_facts(index_facts(m, fs)),
        m.contains_key(k) ==> index_facts(m, fs).contains_key(k) && index_facts(m, fs)[k] == m[k],
        index_facts(m, fs).contains_key(k) ==> m.contains_key(k) || exists|j: int|
            0 <= j < fs.len() && #[trigger] fact_keys(fs[j]).contains(k),
        forall|j: int|
            0 <= j < fs.len() && #[trigger] fact_keys(fs[j]).contains(k) ==> index_facts(
                m,
                fs,
            ).contains_key(k) && index_facts(m, fs)[k] == fs[j].id,
    decreases fs.len(),
{
    if fs.len() > 0 {
        let prev = index_facts(m, fs.drop_last());
        let f = fs.last();
        lemma_index_facts(m, fs.drop_last(), k);
        lemma_index_keys(prev, fact_keys(f), f.id, k);
        assert forall|k2: IndexKeyV| #[trigger] index_facts(m, fs).contains_key(k2) implies index_facts(
            m,
            fs,
        )[k2] == k2.fact_uri by {
            lemma_index_facts(m, fs.drop_last(), k2);
            lemma_index_keys(prev, fact_keys(f), f.id, k2);
            if fact_keys(f).contains(k2) {
                lemma_fact_keys_name(f, k2);
            }
        }
        if fact_keys(f).contains(k) {
            lemma_fact_keys_name(f, k);
        }
        if m.contains_key(k) && fact_keys(f).contains(k) {
            lemma_fact_keys_name(f, k);
        }
        assert forall|j: int| 0 <= j < fs.len() && #[trigger] fact_keys(fs[j]).contains(k) implies index_facts(
            m,
            fs,
        ).contains_key(k) && index_facts(m, fs)[k] == fs[j].id by {
            lemma_fact_keys_name(fs[j], k);
            if j < fs.len() - 1 {
                assert(fs.drop_last()[j] == fs[j]);
                assert(fact_keys(fs.drop_last()[j]).contains(k));
                if fact_keys(f).contains(k) {
                    lemma_fact_keys_name(f, k);
                }
            }
        }
        if index_facts(m, fs).contains_key(k) && !m.contains_key(k) {
            if !fact_keys(f).contains(k) {
                let j = choose|j: int|
                    0 <= j < fs.drop_last().len() && #[trigger] fact_keys(fs.drop_last()[j]).contains(k);
                assert(fs[j] == fs.drop_last()[j]);
            } else {
                assert(fact_keys(fs[fs.len() - 1]).contains(k));
            }
        }
    }
}

/// Which ids storing the facts `fs` holds.
pub(crate) proof fn lemma_insert_facts_dom(m: Map<Seq<char>, FactV>, fs: Seq<FactV>, u: Seq<char>)
    ensures
        insert_facts(m, fs).contains_key(u) <==> (m.contains_key(u) || exists|j: int|
            0 <= j < fs.len() && (#[trigger] fs[j]).id == u),
    decreases fs.len(),
{
    if fs.len() > 0 {
        let rest = fs.drop_last();
        lemma_insert_facts_dom(m, rest, u);
        if exists|j: int| 0 <= j < rest.len() && (#[trigger] rest[j]).id == u {
            let j = choose|j: int| 0 <= j < rest.len() && (#[trigger] rest[j]).id == u;
            assert(fs[j].id == u);
        }
        if exists|j: int| 0 <= j < fs.len() && (#[trigger] fs[j]).id == u {
            let j = choose|j: int| 0 <= j < fs.len() && (#[trigger] fs[j]).id == u;
            if j < fs.len() - 1 {
                assert(rest[j].id == u);
            }
        }
    }
}

/// Storing facts of other ids leaves a stored fact as it was.
pub(crate) proof fn lemma_insert_facts_other(m: Map<Seq<char>, FactV>, fs: Seq<FactV>, u: Seq<char>)
    requires
        forall|j: int| 0 <= j < fs.len() ==> (#[trigger] fs[j]).id != u,
    ensures
        insert_facts(m, fs)[u] == m[u],
    decreases fs.len(),
{
    if fs.len() > 0 {
        let rest = fs.drop_last();
        assert forall|j: int| 0 <= j < rest.len() implies (#[trigger] rest[j]).id != u by {
            assert(rest[j] == fs[j]);
        }
        lemma_insert_facts_other(m, rest, u);
        assert(fs[fs.len() - 1].id != u);
    }
}

/// A stored fact whose id no later fact takes is found under its id.
pub(crate) proof fn lemma_insert_facts_own(m: Map<Seq<char>, FactV>, fs: Seq<FactV>, i: int)
    requires
        0 <= i < fs.len(),
        id_not_reused(fs, i),
    ensures
        insert_facts(m, fs).contains_key(fs[i].id),
        insert_facts(m, fs)[fs[i].id] == fs[i],
    decreases fs.len(),
{
    let rest = fs.drop_last();
    if i < fs.len() - 1 {
        assert(fs[fs.len() - 1].id != fs[i].id);
        assert(rest[i] == fs[i]);
        assert forall|j: int| i < j < rest.len() implies (#[trigger] rest[j]).id != rest[i].id by {
            assert(rest[j] == fs[j]);
        }
        lemma_insert_facts_own(m, rest, i);
    }
}

/// Stating facts loses nothing: every earlier transaction stays, in order; every
/// stored fact stays unless a new fact takes its id; every index entry stays. Each
/// new fact is stored under its id (unless a later fact of the same transaction
/// takes that id) and indexed under each of its keys, and the index still points
/// every key at the fact it names, and only at stored facts.
pub proof fn law_state_loses_nothing(before: TxManagerV, fs: Seq<FactV>)
    requires
        index_names_facts(before.index),
    ensures
        ({
            let after = stated(before, fs);
            &&& before.store.txs.is_prefix_of(after.store.txs)
            &&& forall|u: Seq<char>|
                #![trigger after.store.facts.contains_key(u)]
                #![trigger after.store.facts[u]]
                before.store.facts.contains_key(u) && (forall|j: int|
                    0 <= j < fs.len() ==> (#[trigger] fs[j]).id != u) ==> after.store.facts.contains_key(u)
                    && after.store.facts[u] == before.store.facts[u]
            &&& forall|k: IndexKeyV|
                #![trigger after.index.contains_key(k)]
                #![trigger after.index[k]]
                before.index.contains_key(k) ==> after.index.contains_key(k) && after.index[k]
                    == before.index[k]
            &&& forall|i: int|
                0 <= i < fs.len() && id_not_reused(fs, i) ==> after.store.facts.contains_key(
                    (#[trigger] fs[i]).id,
                ) && after.store.facts[fs[i].id] == fs[i]
            &&& forall|i: int, k: IndexKeyV|
                0 <= i < fs.len() && #[trigger] fact_keys(fs[i]).contains(k) ==> after.index.contains_key(k)
                    && after.index[k] == fs[i].id
            &&& index_names_facts(after.index)
            &&& index_backed(before.store.facts, before.index) ==> index_backed(
                after.store.facts,
                after.index,
            )
        }),
{
    let after = stated(before, fs);
    assert(before.store.txs =~= after.store.txs.take(before.store.txs.len() as int));
    assert forall|u: Seq<char>|
        #![trigger after.store.facts.contains_key(u)]
                #![trigger after.store.facts[u]]
        before.store.facts.contains_key(u) && (forall|j: int|
            0 <= j < fs.len() ==> (#[trigger] fs[j]).id != u) implies after.store.facts.contains_key(u)
        && after.store.facts[u] == before.store.facts[u] by {
        lemma_insert_facts_dom(before.store.facts, fs, u);
        lemma_insert_facts_other(before.store.facts, fs, u);
    }
    assert forall|k: IndexKeyV|
        #![trigger after.index.contains_key(k)]
                #![trigger after.index[k]]
        before.index.contains_key(k) implies after.index.contains_key(k) && after.index[k]
        == before.index[k] by {
        lemma_index_facts(before.index, fs, k);
    }
    assert forall|i: int|
        0 <= i < fs.len() && id_not_reused(fs, i) implies after.store.facts.contains_key(
        (#[trigger] fs[i]).id,
    ) && after.store.facts[fs[i].id] == fs[i] by {
        lemma_insert_facts_own(before.store.facts, fs, i);
    }
    assert forall|i: int, k: IndexKeyV|
        0 <= i < fs.len() && #[trigger] fact_keys(fs[i]).contains(k) implies after.index.contains_key(k)
        && after.index[k] == fs[i].id by {
        lemma_index_facts(before.index, fs, k);
    }
    lemma_index_facts(before.index, fs, arbitrary());
    if index_backed(before.store.facts, before.index) {
        assert forall|k: IndexKeyV| #[trigger] after.index.contains_key(k) implies after.store.facts.contains_key(
            after.index[k],
        ) by {
            lemma_index_facts(before.index, fs, k);
            lemma_insert_facts_dom(before.store.facts, fs, after.index[k]);
            if !before.index.contains_key(k) {
                let j = choose|j: int| 0 <= j < fs.len() && #[trigger] fact_keys(fs[j]).contains(k);
                assert(fs[j].id == after.index[k]);
            }
        }
    }
    assert(before.store.txs.is_prefix_of(after.store.txs));
    assert(index_names_facts(after.index));
}

/// An answer atom among `atoms` gives its row among the answer rows.
pub(crate) proof fn lemma_answer_rows_contains(atoms: Seq<AtomV>, headers: Seq<TermV>, a: AtomV)
    requires
        atoms.contains(a),
        a.relation == TermV::Sym(query0_name()),
    ensures
        answer_rows(atoms, headers).contains(row_of(headers, a.args)),
    decreases atoms.len(),
{
    let rest = answer_rows(atoms.drop_last(), headers);
    if a == atoms.last() {
        assert(answer_rows(atoms, headers) == rest.push(row_of(headers, a.args)));
        assert(answer_rows(atoms, headers)[rest.len() as int] == row_of(headers, a.args));
    } else {
        let j = choose|j: int| 0 <= j < atoms.len() && atoms[j] == a;
        assert(atoms.drop_last()[j] == a);
        lemma_answer_rows_contains(atoms.drop_last(), headers, a);
        let k = choose|k: int| 0 <= k < rest.len() && rest[k] == row_of(headers, a.args);
        if atoms.last().relation == TermV::Sym(query0_name()) {
            assert(answer_rows(atoms, headers)[k] == rest[k]);
        }
    }
}

/// A fact rule among the rules puts its fact in their least model.
proof fn lemma_model_has_fact(rs: Seq<RuleV>, m: Set<AtomV>, f: FactV)
    requires
        is_least_model(rs, m),
        rs.contains(fact_rule(f)),
    ensures
        m.contains(fact_rule(f).head),
{
    let r = fact_rule(f);
    let i = choose|i: int| 0 <= i < rs.len() && rs[i] == r;
    let empty = Seq::<(TermV, TermV)>::empty();
    assert(spec_substitute(r.head, empty).args =~= r.head.args);
    assert(satisfies(m, rs[i].body, empty));
    assert(derives(rs, m, spec_substitute(rs[i].head, empty)));
}

/// The variables of the triple `?x field ?y` are `?x` and `?y`.
proof fn lemma_triple_vars(x: Seq<char>, f: Seq<char>, y: Seq<char>)
    ensures
        vars_in(seq![TermV::Var(x), TermV::Sym(f), TermV::Var(y)]) == seq![TermV::Var(x), TermV::Var(y)],
{
    let ts = seq![TermV::Var(x), TermV::Sym(f), TermV::Var(y)];
    reveal_with_fuel(Seq::filter, 4);
    assert(ts.drop_last() =~= seq![TermV::Var(x), TermV::Sym(f)]);
    assert(ts.drop_last().drop_last() =~= seq![TermV::Var(x)]);
    assert(ts.drop_last().drop_last().drop_last() =~= Seq::<TermV>::empty());
    assert(vars_in(ts) =~= seq![TermV::Var(x), TermV::Var(y)]);
}

/// The rule of the query `?x field ?y`: `query0(?x, ?y) :- field(?x, ?y)`.
proof fn lemma_triple_query(x: Seq<char>, f: Seq<char>, y: Seq<char>)
    ensures
        ({
            let q = query_rule(seq![ExprV::Variable(x), ExprV::Symbol(f), ExprV::Variable(y)]);
            &&& q.head == AtomV {
                relation: TermV::Sym(query0_name()),
                args: seq![TermV::Var(x), TermV::Var(y)],
            }
            &&& q.body == seq![AtomV { relation: TermV::Sym(f), args: seq![TermV::Var(x), TermV::Var(y)] }]
            &&& body_scans(q.body) == seq![ScanV::Field(f)]
        }),
{
    let items = seq![ExprV::Variable(x), ExprV::Symbol(f), ExprV::Variable(y)];
    let q = query_rule(items);
    lemma_triple_vars(x, f, y);
    assert(triple_terms(items) =~= seq![TermV::Var(x), TermV::Sym(f), TermV::Var(y)]);
    assert(items.skip(3) =~= Seq::<ExprV>::empty());
    assert(query_head_args(Seq::<ExprV>::empty()) == Seq::<TermV>::empty());
    assert(query_body(Seq::<ExprV>::empty()) == Seq::<AtomV>::empty());
    assert(query_head_args(items) =~= seq![TermV::Var(x), TermV::Var(y)]);
    assert(query_body(items) =~= seq![
        AtomV { relation: TermV::Sym(f), args: seq![TermV::Var(x), TermV::Var(y)] },
    ]);
    assert(q.body.drop_last() =~= Seq::<AtomV>::empty());
    assert(body_scans(Seq::<AtomV>::empty()) == Seq::<ScanV>::empty());
    assert(crate::query_planner::atom_scans(q.body.last()) =~= seq![ScanV::Field(f)]);
    assert(body_scans(q.body) =~= seq![ScanV::Field(f)]);
}

/// The row of the answer `query0(e, v)` to the query `?x field ?y`.
proof fn lemma_triple_row(x: Seq<char>, y: Seq<char>, e: Seq<char>, v: Seq<char>)
    ensures
        row_of(seq![TermV::Var(x), TermV::Var(y)], seq![TermV::Sym(e), TermV::Sym(v)])
            == Map::<Seq<char>, Seq<char>>::empty().insert(x, e).insert(y, v),
{
    let hs = seq![TermV::Var(x), TermV::Var(y)];
    let xs = seq![TermV::Sym(e), TermV::Sym(v)];
    assert(hs.take(1).take(0) =~= Seq::<TermV>::empty());
    assert(xs.take(1).take(0) =~= Seq::<TermV>::empty());
    assert(row_of(Seq::<TermV>::empty(), Seq::<TermV>::empty()) == Map::<Seq<char>, Seq<char>>::empty());
    assert(hs.take(1)[0] == TermV::Var(x));
    assert(xs.take(1)[0] == TermV::Sym(e));
    assert(row_of(hs.take(1), xs.take(1)) == Map::<Seq<char>, Seq<char>>::empty().insert(x, e));
}

/// A query `?x field ?y` run after facts were stated finds, for every stated fact
/// of that field, the row binding `?x` to its entity and `?y` to its value; and
/// where the index pointed only at stored facts before, running it does not fail.
/// (Of the facts of one transaction that share an id, only the last is stored:
/// the law speaks of a fact whose id no later fact of its transaction takes.)
pub proof fn law_query_sees_stated_fact(
    before: TxManagerV,
    fs: Seq<FactV>,
    i: int,
    x: Seq<char>,
    y: Seq<char>,
    atoms: Seq<AtomV>,
    rs: Seq<RuleV>,
)
    requires
        index_names_facts(before.index),
        index_backed(before.store.facts, before.index),
        before.store.tx_id < u64::MAX,
        0 <= i < fs.len(),
        fs[i].tx_id == before.store.tx_id,
        id_not_reused(fs, i),
        x != y,
    ensures
        ({
            let after = stated(before, fs);
            let q = query_rule(seq![ExprV::Variable(x), ExprV::Symbol(fs[i].field), ExprV::Variable(y)]);
            let plan = query_plan(q, after.store.tx_id);
            &&& !plan_fails(plan, after.store, after.index)
            &&& rs.to_set() == plan_loaded(plan, after.store, after.index).insert(q) && is_least_model(
                rs,
                atoms.to_set(),
            ) ==> answer_rows(atoms, q.head.args).contains(
                Map::empty().insert(x, fs[i].entity).insert(y, value_text(fs[i].value)),
            )
        }),
{
    let after = stated(before, fs);
    let fa = fs[i];
    let f = fa.field;
    let q = query_rule(seq![ExprV::Variable(x), ExprV::Symbol(f), ExprV::Variable(y)]);
    let tx = after.store.tx_id;
    let plan = query_plan(q, tx);
    let scans = seq![ScanV::Field(f)];
    law_state_loses_nothing(before, fs);
    lemma_triple_query(x, f, y);
    assert(plan_loaded(plan, after.store, after.index) == loaded_of(after, scans, tx)) by {
        reveal_with_fuel(plan_loaded, 2);
        assert(loaded_of(after, scans, tx).union(Set::empty()) =~= loaded_of(after, scans, tx));
    }
    // no scan of the plan fails: the index points only at stored facts
    assert(!scan_fails(after.store, after.index, scans, tx)) by {
        if scan_fails(after.store, after.index, scans, tx) {
            let u = choose|u: Seq<char>|
                #[trigger] scanned_ids(after.index, scans, tx).contains(u) && !after.store.facts.contains_key(u);
            let k = choose|k: IndexKeyV|
                #[trigger] after.index.contains_key(k) && key_scanned(k, scans, tx) && after.index[k] == u;
        }
    }
    assert(!plan_fails(plan, after.store, after.index)) by {
        reveal_with_fuel(plan_fails, 2);
    }
    // the field key of the fact is found by the scan
    let k = fact_key(fa, seq![ValueV::Uri(f)]);
    assert(fact_keys(fa)[2] == k);
    assert(fact_keys(fa).contains(k));
    assert(after.index.contains_key(k) && after.index[k] == fa.id);
    assert(join_values(k.prefix) == f);
    assert(key_text(k).take(f.len() as int) =~= f);
    assert(scan_prefix(scans[0]).is_prefix_of(key_text(k)));
    assert(key_scanned(k, scans, tx));
    assert(scanned_ids(after.index, scans, tx).contains(fa.id));
    assert(after.store.facts[fa.id] == fa);
    assert(loaded_of(after, scans, tx).contains(fact_rule(fa)));
    if rs.to_set() == plan_loaded(plan, after.store, after.index).insert(q) && is_least_model(
        rs,
        atoms.to_set(),
    ) {
        assert(rs.to_set().contains(fact_rule(fa)));
        assert(rs.to_set().contains(q));
        lemma_loaded_fact_answers(x, y, fa, atoms, rs);
    }
}

/// Later facts change nothing a scan finds before `tx`: it finds the same ids, and
/// the store holds the same facts under them.
proof fn lemma_scans_before_unchanged(before: TxManagerV, fs: Seq<FactV>, scans: Seq<ScanV>, tx: u64)
    requires
        index_names_facts(before.index),
        index_backed(before.store.facts, before.index),
        forall|j: int| 0 <= j < fs.len() ==> tx <= (#[trigger] fs[j]).tx_id,
        forall|j: int| 0 <= j < fs.len() ==> !before.store.facts.contains_key((#[trigger] fs[j]).id),
    ensures
        ({
            let after = stated(before, fs);
            &&& scanned_ids(after.index, scans, tx) == scanned_ids(before.index, scans, tx)
            &&& forall|u: Seq<char>|
                #[trigger] scanned_ids(before.index, scans, tx).contains(u) ==> after.store.facts.contains_key(u)
                    && before.store.facts.contains_key(u) && after.store.facts[u] == before.store.facts[u]
        }),
{
    let after = stated(before, fs);
    law_state_loses_nothing(before, fs);
    assert forall|u: Seq<char>| scanned_ids(after.index, scans, tx).contains(u) implies scanned_ids(
        before.index,
        scans,
        tx,
    ).contains(u) by {
        let k = choose|k: IndexKeyV|
            #[trigger] after.index.contains_key(k) && key_scanned(k, scans, tx) && after.index[k] == u;
        lemma_index_facts(before.index, fs, k);
        if !before.index.contains_key(k) {
            let j = choose|j: int| 0 <= j < fs.len() && #[trigger] fact_keys(fs[j]).contains(k);
            lemma_fact_keys_name(fs[j], k);
        }
    }
    assert forall|u: Seq<char>| scanned_ids(before.index, scans, tx).contains(u) implies scanned_ids(
        after.index,
        scans,
        tx,
    ).contains(u) by {
        let k = choose|k: IndexKeyV|
            #[trigger] before.index.contains_key(k) && key_scanned(k, scans, tx) && before.index[k] == u;
        assert(after.index.contains_key(k));
    }
    assert(scanned_ids(after.index, scans, tx) =~= scanned_ids(before.index, scans, tx));
    assert forall|u: Seq<char>|
        #[trigger] scanned_ids(before.index, scans, tx).contains(u) implies after.store.facts.contains_key(u)
        && before.store.facts.contains_key(u) && after.store.facts[u] == before.store.facts[u] by {
        let k = choose|k: IndexKeyV|
            #[trigger] before.index.contains_key(k) && key_scanned(k, scans, tx) && before.index[k] == u;
        assert(before.store.facts.contains_key(u));
        assert forall|j: int| 0 <= j < fs.len() implies (#[trigger] fs[j]).id != u by {}
        assert(after.store.facts.contains_key(u) && after.store.facts[u] == before.store.facts[u]);
    }
}

/// A query as of an earlier transaction sees the same facts after later facts are
/// stated: its plan loads the same fact rules and fails exactly when it failed
/// before. (The law speaks of new facts whose ids are not already taken.)
pub proof fn law_query_as_of_unchanged(before: TxManagerV, fs: Seq<FactV>, q: RuleV, tx: u64)
    requires
        index_names_facts(before.index),
        index_backed(before.store.facts, before.index),
        tx <= before.store.tx_id,
        forall|j: int| 0 <= j < fs.len() ==> (#[trigger] fs[j]).tx_id == before.store.tx_id,
        forall|j: int| 0 <= j < fs.len() ==> !before.store.facts.contains_key((#[trigger] fs[j]).id),
    ensures
        ({
            let after = stated(before, fs);
            let plan = query_plan(q, tx);
            &&& plan_loaded(plan, after.store, after.index) == plan_loaded(plan, before.store, before.index)
            &&& plan_fails(plan, after.store, after.index) == plan_fails(plan, before.store, before.index)
        }),
{
    let after = stated(before, fs);
    let plan = query_plan(q, tx);
    let scans = body_scans(q.body);
    lemma_scans_before_unchanged(before, fs, scans, tx);
    let ids = scanned_ids(before.index, scans, tx);
    assert(loaded_of(after, scans, tx) =~= loaded_of(before, scans, tx)) by {
        assert forall|r: RuleV| loaded_of(after, scans, tx).contains(r) implies loaded_of(
            before,
            scans,
            tx,
        ).contains(r) by {
            let u = choose|u: Seq<char>| ids.contains(u) && fact_rule(after.store.facts[u]) == r;
            assert(ids.contains(u) && fact_rule(before.store.facts[u]) == r);
        }
        assert forall|r: RuleV| loaded_of(before, scans, tx).contains(r) implies loaded_of(
            after,
            scans,
            tx,
        ).contains(r) by {
            let u = choose|u: Seq<char>| ids.contains(u) && fact_rule(before.store.facts[u]) == r;
            assert(ids.contains(u) && fact_rule(after.store.facts[u]) == r);
        }
    }
    assert(scan_fails(after.store, after.index, scans, tx) == scan_fails(
        before.store,
        before.index,
        scans,
        tx,
    )) by {
        if scan_fails(after.store, after.index, scans, tx) {
            let u = choose|u: Seq<char>|
                #[trigger] scanned_ids(after.index, scans, tx).contains(u) && !after.store.facts.contains_key(u);
        }
        if scan_fails(before.store, before.index, scans, tx) {
            let u = choose|u: Seq<char>|
                #[trigger] scanned_ids(before.index, scans, tx).contains(u) && !before.store.facts.contains_key(u);
        }
    }
    reveal_with_fuel(plan_loaded, 2);
    reveal_with_fuel(plan_fails, 2);
}

/// Every entity is filed under its name, and each of its fields holds the value
/// of the fact recorded for that field, a fact about that entity and field.
pub open spec fn entities_consistent(m: Map<Seq<char>, EntityV>) -> bool {
    forall|e: Seq<char>|
        #[trigger] m.contains_key(e) ==> {
            &&& m[e].uri == e
            &&& m[e].fields.dom() == m[e].prior_facts.dom()
            &&& forall|fd: Seq<char>|
                #[trigger] m[e].prior_facts.contains_key(fd) ==> {
                    &&& m[e].fields[fd] == m[e].prior_facts[fd].value
                    &&& m[e].prior_facts[fd].entity == e
                    &&& m[e].prior_facts[fd].field == fd
                }
        }
}

/// The fact recorded for field `fd` of entity `e` in `m`, if any.
pub open spec fn recorded_fact(m: Map<Seq<char>, EntityV>, e: Seq<char>, fd: Seq<char>) -> Option<FactV> {
    if m.contains_key(e) && m[e].prior_facts.contains_key(fd) {
        Some(m[e].prior_facts[fd])
    } else {
        None
    }
}

/// The step of one fact: what consolidating `f` keeps and changes.
proof fn lemma_consolidate_fact(m: Map<Seq<char>, EntityV>, f: FactV)
    requires
        entities_consistent(m),
    ensures
        entities_consistent(consolidate_fact(m, f)),
        recorded_fact(consolidate_fact(m, f), f.entity, f.field) is Some,
        f.stated_at <= recorded_fact(consolidate_fact(m, f), f.entity, f.field)->Some_0.stated_at,
        recorded_fact(consolidate_fact(m, f), f.entity, f.field) == Some(f) || recorded_fact(
            consolidate_fact(m, f),
            f.entity,
            f.field,
        ) == recorded_fact(m, f.entity, f.field),
        forall|e: Seq<char>, fd: Seq<char>|
            #![trigger recorded_fact(consolidate_fact(m, f), e, fd)]
            (e != f.entity || fd != f.field) ==> recorded_fact(consolidate_fact(m, f), e, fd)
                == recorded_fact(m, e, fd),
        forall|e: Seq<char>, fd: Seq<char>|
            #![trigger recorded_fact(consolidate_fact(m, f), e, fd)]
            recorded_fact(m, e, fd) is Some ==> recorded_fact(consolidate_fact(m, f), e, fd) is Some
                && recorded_fact(m, e, fd)->Some_0.stated_at <= recorded_fact(
                consolidate_fact(m, f),
                e,
                fd,
            )->Some_0.stated_at,
{
    let m2 = consolidate_fact(m, f);
    assert forall|e: Seq<char>| #[trigger] m2.contains_key(e) implies {
        &&& m2[e].uri == e
        &&& m2[e].fields.dom() == m2[e].prior_facts.dom()
        &&& forall|fd: Seq<char>|
            #[trigger] m2[e].prior_facts.contains_key(fd) ==> {
                &&& m2[e].fields[fd] == m2[e].prior_facts[fd].value
                &&& m2[e].prior_facts[fd].entity == e
                &&& m2[e].prior_facts[fd].field == fd
            }
    } by {
        if e == f.entity {
            assert(m2[e].fields.dom() =~= m2[e].prior_facts.dom());
        }
    }
}

/// Consolidation keeps, for every field of every entity, the latest-stated fact:
/// after the facts `fs` are taken into account, each field of each entity holds
/// the value of a fact stated no earlier than any fact of `fs` about it, and no
/// earlier than the fact it held before; that fact is the one it held before or
/// one of `fs`. The entities stay consistent.
pub proof fn law_consolidation_latest_wins(m: Map<Seq<char>, EntityV>, fs: Seq<FactV>)
    requires
        entities_consistent(m),
    ensures
        ({
            let m2 = consolidate_facts(m, fs);
            &&& entities_consistent(m2)
            &&& forall|j: int|
                0 <= j < fs.len() ==> recorded_fact(m2, (#[trigger] fs[j]).entity, fs[j].field) is Some
                    && fs[j].stated_at <= recorded_fact(m2, fs[j].entity, fs[j].field)->Some_0.stated_at
            &&& forall|e: Seq<char>, fd: Seq<char>|
                #![trigger recorded_fact(m2, e, fd)]
                recorded_fact(m, e, fd) is Some ==> recorded_fact(m2, e, fd) is Some && recorded_fact(
                    m,
                    e,
                    fd,
                )->Some_0.stated_at <= recorded_fact(m2, e, fd)->Some_0.stated_at
            &&& forall|e: Seq<char>, fd: Seq<char>|
                #![trigger recorded_fact(m2, e, fd)]
                recorded_fact(m2, e, fd) is Some ==> recorded_fact(m, e, fd) == recorded_fact(m2, e, fd)
                    || fs.contains(recorded_fact(m2, e, fd)->Some_0)
        }),
    decreases fs.len(),
{
    if fs.len() > 0 {
        let rest = fs.drop_last();
        let f = fs.last();
        let m1 = consolidate_facts(m, rest);
        let m2 = consolidate_facts(m, fs);
        law_consolidation_latest_wins(m, rest);
        lemma_consolidate_fact(m1, f);
        assert(m2 == consolidate_fact(m1, f));
        assert forall|j: int| 0 <= j < fs.len() implies recorded_fact(
            m2,
            (#[trigger] fs[j]).entity,
            fs[j].field,
        ) is Some && fs[j].stated_at <= recorded_fact(m2, fs[j].entity, fs[j].field)->Some_0.stated_at by {
            if j < fs.len() - 1 {
                assert(rest[j] == fs[j]);
                assert(recorded_fact(m1, rest[j].entity, rest[j].field) is Some);
                assert(recorded_fact(m2, fs[j].entity, fs[j].field) == recorded_fact(
                    consolidate_fact(m1, f),
                    fs[j].entity,
                    fs[j].field,
                ));
            }
        }
        assert forall|e: Seq<char>, fd: Seq<char>|
            #![trigger recorded_fact(m2, e, fd)]
            recorded_fact(m2, e, fd) is Some implies recorded_fact(m, e, fd) == recorded_fact(m2, e, fd)
            || fs.contains(recorded_fact(m2, e, fd)->Some_0) by {
            let h = recorded_fact(m2, e, fd)->Some_0;
            assert(recorded_fact(m2, e, fd) == recorded_fact(consolidate_fact(m1, f), e, fd));
            if recorded_fact(m2, e, fd) == recorded_fact(m1, e, fd) {
                if rest.contains(h) {
                    let j = choose|j: int| 0 <= j < rest.len() && rest[j] == h;
                    assert(fs[j] == h);
                }
            } else {
                assert(h == f);
                assert(fs[fs.len() - 1] == h);
            }
        }
        assert forall|e: Seq<char>, fd: Seq<char>|
            #![trigger recorded_fact(m2, e, fd)]
            recorded_fact(m, e, fd) is Some implies recorded_fact(m2, e, fd) is Some && recorded_fact(
            m,
            e,
            fd,
        )->Some_0.stated_at <= recorded_fact(m2, e, fd)->Some_0.stated_at by {
            assert(recorded_fact(m2, e, fd) == recorded_fact(consolidate_fact(m1, f), e, fd));
            assert(recorded_fact(m1, e, fd) is Some);
        }
    }
}

/// An empty index loads nothing and fails no scan.
proof fn lemma_empty_index_loads_nothing(p: crate::query_planner::QueryPlanV, store: crate::backend::memory::StoreV)
    ensures
        plan_loaded(p, store, Map::empty()) == Set::<RuleV>::empty(),
        !plan_fails(p, store, Map::empty()),
    decreases p,
{
    match p {
        crate::query_planner::QueryPlanV::RunScan(tx, scans, next) => {
            lemma_empty_index_loads_nothing(*next, store);
            let idx = Map::<IndexKeyV, Seq<char>>::empty();
            assert(scanned_ids(idx, scans, tx) =~= Set::<Seq<char>>::empty());
            assert(crate::query_executor::loaded_rules(store, idx, scans, tx) =~= Set::<RuleV>::empty());
            assert(plan_loaded(p, store, idx) =~= Set::<RuleV>::empty());
            if scan_fails(store, idx, scans, tx) {
                let u = choose|u: Seq<char>|
                    #[trigger] scanned_ids(idx, scans, tx).contains(u) && !store.facts.contains_key(u);
                assert(scanned_ids(idx, scans, tx).contains(u));
            }
        },
        crate::query_planner::QueryPlanV::Solve(_) => {
            assert(plan_loaded(p, store, Map::empty()) =~= Set::<RuleV>::empty());
        },
    }
}

/// Over an empty index a plan does not fail, and a query with a body finds no
/// facts at all: nothing is loaded, and the query rule alone yields nothing.
/// (A query with an empty body yields its own head.)
pub proof fn law_empty_index_answers_nothing(
    p: crate::query_planner::QueryPlanV,
    store: crate::backend::memory::StoreV,
    rs: Seq<RuleV>,
    atoms: Seq<AtomV>,
)
    requires
        crate::query_executor::plan_query(p).body.len() > 0,
    ensures
        !plan_fails(p, store, Map::empty()),
        rs.to_set() == plan_loaded(p, store, Map::empty()).insert(crate::query_executor::plan_query(p))
            && is_least_model(rs, atoms.to_set()) ==> atoms.len() == 0,
{
    lemma_empty_index_loads_nothing(p, store);
    let q = crate::query_executor::plan_query(p);
    if rs.to_set() == plan_loaded(p, store, Map::empty()).insert(q) && is_least_model(rs, atoms.to_set()) {
        let none = Set::<AtomV>::empty();
        assert(rs.to_set() =~= set![q]);
        assert forall|a: AtomV| #[trigger] derives(rs, none, a) implies none.contains(a) by {
            let (i, theta) = choose|i: int, theta: SubV|
                #![trigger satisfies(none, rs[i].body, theta), spec_substitute(rs[i].head, theta)]
                0 <= i < rs.len() && satisfies(none, rs[i].body, theta) && a == spec_substitute(
                    rs[i].head,
                    theta,
                );
            assert(rs.to_set().contains(rs[i]));
            assert(rs[i] == q);
            let (t1, g) = choose|t1: SubV, g: AtomV|
                #![trigger extends_by(q.body[0], t1, g, theta)]
                satisfies(none, q.body.drop_first(), t1) && none.contains(g) && extends_by(
                    q.body[0],
                    t1,
                    g,
                    theta,
                );
        }
        assert(crate::fixpoint::closed_under(rs, none));
        assert(atoms.to_set().subset_of(none));
        if atoms.len() > 0 {
            assert(atoms.to_set().contains(atoms[0]));
        }
    }
}

/// The row `{?x: entity, ?y: value}` of a fact.
pub open spec fn fact_row(x: Seq<char>, y: Seq<char>, f: FactV) -> Map<Seq<char>, Seq<char>> {
    Map::empty().insert(x, f.entity).insert(y, value_text(f.value))
}

/// The query `?x field ?y`.
pub open spec fn triple_query(x: Seq<char>, f: Seq<char>, y: Seq<char>) -> RuleV {
    query_rule(seq![ExprV::Variable(x), ExprV::Symbol(f), ExprV::Variable(y)])
}

/// Where a fact's rule stands beside the query `?x field ?y` of its field, the
/// least model answers the fact's row.
proof fn lemma_loaded_fact_answers(x: Seq<char>, y: Seq<char>, fa: FactV, atoms: Seq<AtomV>, rs: Seq<RuleV>)
    requires
        x != y,
        rs.contains(fact_rule(fa)),
        rs.contains(triple_query(x, fa.field, y)),
        is_least_model(rs, atoms.to_set()),
    ensures
        answer_rows(atoms, triple_query(x, fa.field, y).head.args).contains(fact_row(x, y, fa)),
{
    let f = fa.field;
    let q = triple_query(x, f, y);
    lemma_triple_query(x, f, y);
    let m = atoms.to_set();
    lemma_model_has_fact(rs, m, fa);
    let e = fa.entity;
    let v = value_text(fa.value);
    let g = fact_rule(fa).head;
    assert(g == AtomV { relation: TermV::Sym(f), args: seq![TermV::Sym(e), TermV::Sym(v)] });
    // the query rule matches the fact
    let b0 = q.body[0];
    let empty = Seq::<(TermV, TermV)>::empty();
    assert(spec_substitute(b0, empty).args =~= b0.args);
    let theta: SubV = seq![(TermV::Var(x), TermV::Sym(e)), (TermV::Var(y), TermV::Sym(v))];
    assert(b0.args.drop_first() =~= seq![TermV::Var(y)]);
    assert(g.args.drop_first() =~= seq![TermV::Sym(v)]);
    assert(b0.args.drop_first().drop_first() =~= Seq::<TermV>::empty());
    assert(g.args.drop_first().drop_first() =~= Seq::<TermV>::empty());
    assert(seq![TermV::Var(y)].drop_first() =~= Seq::<TermV>::empty());
    assert(seq![TermV::Sym(v)].drop_first() =~= Seq::<TermV>::empty());
    assert(unify_args(Seq::<TermV>::empty(), Seq::<TermV>::empty()) == Some(Seq::<(TermV, TermV)>::empty()));
    assert(seq![(TermV::Var(y), TermV::Sym(v))] + Seq::<(TermV, TermV)>::empty() =~= seq![(TermV::Var(y), TermV::Sym(v))]);
    assert(unify_args(seq![TermV::Var(y)], seq![TermV::Sym(v)]) == Some(
        seq![(TermV::Var(y), TermV::Sym(v))],
    ));
    assert(spec_find(seq![(TermV::Var(y), TermV::Sym(v))], TermV::Var(x)) is None) by {
        assert(seq![(TermV::Var(y), TermV::Sym(v))].drop_first() =~= Seq::<(TermV, TermV)>::empty());
    }
    assert(spec_unify(spec_substitute(b0, empty), g) == Some(theta)) by {
        assert(seq![(TermV::Var(x), TermV::Sym(e))] + seq![(TermV::Var(y), TermV::Sym(v))] =~= theta);
    }
    assert(empty + theta =~= theta);
    assert(extends_by(b0, empty, g, theta));
    assert(q.body.drop_first() =~= Seq::<AtomV>::empty());
    assert(satisfies(m, q.body.drop_first(), empty));
    assert(satisfies(m, q.body, theta));
    // so the rule yields the answer
    let ans = AtomV {
        relation: TermV::Sym(query0_name()),
        args: seq![TermV::Sym(e), TermV::Sym(v)],
    };
    assert(theta.drop_first() =~= seq![(TermV::Var(y), TermV::Sym(v))]);
    assert(spec_find(theta.drop_first(), TermV::Var(y)) == Some(TermV::Sym(v)));
    assert(subst_term(TermV::Var(x), theta) == TermV::Sym(e));
    assert(subst_term(TermV::Var(y), theta) == TermV::Sym(v));
    assert(spec_substitute(q.head, theta).args =~= ans.args);
    let qi = choose|j: int| 0 <= j < rs.len() && rs[j] == q;
    assert(satisfies(m, rs[qi].body, theta));
    assert(derives(rs, m, spec_substitute(rs[qi].head, theta)));
    assert(m.contains(ans));
    assert(atoms.contains(ans));
    lemma_answer_rows_contains(atoms, q.head.args, ans);
    lemma_triple_row(x, y, e, v);
}

/// A fresh database: no transaction yet, and nothing stored, indexed or consolidated.
pub open spec fn fresh_db() -> TxManagerV {
    TxManagerV {
        store: StoreV { tx_id: 0, facts: Map::empty(), txs: Seq::empty() },
        index: Map::empty(),
        entities: Map::empty(),
    }
}

/// The database after the batches of facts are stated in order, each by one
/// `state` call, starting from a fresh one. `PachaDb::new` over default backends
/// has the view `fresh_db()`, and `PachaDb::state` takes the view `run(b)` to
/// `run(b.push(fs))`, where `fs` are the facts it records (numbered by the call).
pub open spec fn run(batches: Seq<Seq<FactV>>) -> TxManagerV
    decreases batches.len(),
{
    if batches.len() == 0 {
        fresh_db()
    } else {
        stated(run(batches.drop_last()), batches.last())
    }
}

/// Every fact of the batches, in the order they were stated.
pub open spec fn all_stated(batches: Seq<Seq<FactV>>) -> Seq<FactV>
    decreases batches.len(),
{
    if batches.len() == 0 {
        Seq::empty()
    } else {
        all_stated(batches.drop_last()) + batches.last()
    }
}

/// Each fact carries the number of the call that stated it, as `state` records.
pub open spec fn numbered(batches: Seq<Seq<FactV>>) -> bool {
    forall|k: int, j: int|
        0 <= k < batches.len() && 0 <= j < batches[k].len() ==> (#[trigger] batches[k][j]).tx_id == k
}

/// The rows `{?x: entity, ?y: value}` of the stated facts of field `f` that are
/// still stored: those whose id no later fact takes.
pub open spec fn stated_rows(facts: Seq<FactV>, f: Seq<char>, x: Seq<char>, y: Seq<char>) -> Set<
    Map<Seq<char>, Seq<char>>,
> {
    Set::new(
        |row: Map<Seq<char>, Seq<char>>|
            exists|p: int|
                0 <= p < facts.len() && id_not_reused(facts, p) && (#[trigger] facts[p]).field == f
                    && row == fact_row(x, y, facts[p]),
    )
}

/// Storing two runs of facts one after the other is storing them together.
proof fn lemma_insert_facts_concat(m: Map<Seq<char>, FactV>, a: Seq<FactV>, b: Seq<FactV>)
    ensures
        insert_facts(m, a + b) == insert_facts(insert_facts(m, a), b),
    decreases b.len(),
{
    if b.len() == 0 {
        assert(a + b =~= a);
    } else {
        assert((a + b).drop_last() =~= a + b.drop_last());
        assert((a + b).last() == b.last());
        lemma_insert_facts_concat(m, a, b.drop_last());
    }
}

/// Every stored fact is one of the facts stored, the last one under its id.
pub(crate) proof fn lemma_insert_facts_from(fs: Seq<FactV>, u: Seq<char>)
    requires
        insert_facts(Map::empty(), fs).contains_key(u),
    ensures
        exists|p: int|
            0 <= p < fs.len() && (#[trigger] fs[p]).id == u && id_not_reused(fs, p) && insert_facts(
                Map::empty(),
                fs,
            )[u] == fs[p],
    decreases fs.len(),
{
    let rest = fs.drop_last();
    let n = fs.len() - 1;
    if fs[n].id == u {
        assert(id_not_reused(fs, n));
    } else {
        lemma_insert_facts_from(rest, u);
        let p = choose|p: int|
            0 <= p < rest.len() && (#[trigger] rest[p]).id == u && id_not_reused(rest, p) && insert_facts(
                Map::empty(),
                rest,
            )[u] == rest[p];
        assert(fs[p] == rest[p]);
        assert forall|j: int| p < j < fs.len() implies (#[trigger] fs[j]).id != fs[p].id by {
            if j < n {
                assert(rest[j] == fs[j]);
            }
        }
    }
}

/// What a run of `state` calls from a fresh database holds: the counter is the
/// number of calls, the k-th transaction holds the k-th batch, the store holds the
/// stated facts (the last under each id), every key of every stated fact is
/// indexed, the index points each key at the fact it names and only at stored
/// facts, and every stated fact belongs to a transaction before the counter.
pub(crate) proof fn lemma_run(batches: Seq<Seq<FactV>>)
    requires
        numbered(batches),
        batches.len() < u64::MAX,
    ensures
        ({
            let db = run(batches);
            let facts = all_stated(batches);
            &&& db.store.tx_id == batches.len()
            &&& db.store.txs.len() == batches.len()
            &&& forall|k: int|
                0 <= k < batches.len() ==> (#[trigger] db.store.txs[k]).id == k && db.store.txs[k].facts
                    == batches[k]
            &&& db.store.facts == insert_facts(Map::empty(), facts)
            &&& index_names_facts(db.index)
            &&& index_backed(db.store.facts, db.index)
            &&& forall|p: int, k: IndexKeyV|
                0 <= p < facts.len() && #[trigger] fact_keys(facts[p]).contains(k) ==> db.index.contains_key(k)
            &&& forall|p: int| 0 <= p < facts.len() ==> (#[trigger] facts[p]).tx_id < batches.len()
        }),
    decreases batches.len(),
{
    let db = run(batches);
    let facts = all_stated(batches);
    if batches.len() == 0 {
        assert(index_names_facts(db.index));
        assert(index_backed(db.store.facts, db.index));
    } else {
        let prev_b = batches.drop_last();
        let fs = batches.last();
        let n = prev_b.len() as int;
        assert(numbered(prev_b)) by {
            assert forall|k: int, j: int|
                0 <= k < prev_b.len() && 0 <= j < prev_b[k].len() implies (#[trigger] prev_b[k][j]).tx_id == k by {
                assert(prev_b[k] == batches[k]);
                assert(batches[k][j] == prev_b[k][j]);
            }
        }
        lemma_run(prev_b);
        let prev = run(prev_b);
        let pf = all_stated(prev_b);
        law_state_loses_nothing(prev, fs);
        lemma_insert_facts_concat(Map::empty(), pf, fs);
        assert(facts == pf + fs);
        assert forall|k: int|
            0 <= k < batches.len() implies (#[trigger] db.store.txs[k]).id == k && db.store.txs[k].facts
            == batches[k] by {
            if k < n {
                assert(db.store.txs[k] == prev.store.txs[k]);
                assert(prev_b[k] == batches[k]);
            }
        }
        assert forall|p: int, k: IndexKeyV|
            0 <= p < facts.len() && #[trigger] fact_keys(facts[p]).contains(k) implies db.index.contains_key(k) by {
            if p < pf.len() {
                assert(facts[p] == pf[p]);
            } else {
                assert(facts[p] == fs[p - pf.len()]);
            }
        }
        assert forall|p: int| 0 <= p < facts.len() implies (#[trigger] facts[p]).tx_id < batches.len() by {
            if p < pf.len() {
                assert(facts[p] == pf[p]);
            } else {
                assert(facts[p] == fs[p - pf.len()]);
                assert(batches[n] == fs);
                assert(batches[n][p - pf.len()] == fs[p - pf.len()]);
            }
        }
    }
}

/// Over a run of `state` calls from a fresh database, the counter counts the calls
/// and the k-th transaction (from 0) holds the k-th batch: the (k+1)-th call was
/// answered with the id k.
pub proof fn law_run_numbers_transactions(batches: Seq<Seq<FactV>>)
    requires
        numbered(batches),
        batches.len() < u64::MAX,
    ensures
        run(batches).store.tx_id == batches.len(),
        run(batches).store.txs.len() == batches.len(),
        forall|k: int|
            0 <= k < batches.len() ==> (#[trigger] run(batches).store.txs[k]).id == k && run(
                batches,
            ).store.txs[k].facts == batches[k],
        forall|k: int| 0 <= k <= batches.len() ==> #[trigger] run(batches.take(k)).store.tx_id == k,
{
    lemma_run(batches);
    assert forall|k: int| 0 <= k <= batches.len() implies #[trigger] run(batches.take(k)).store.tx_id == k by {
        let b = batches.take(k);
        assert forall|i: int, j: int|
            0 <= i < b.len() && 0 <= j < b[i].len() implies (#[trigger] b[i][j]).tx_id == i by {
            assert(b[i] == batches[i]);
            assert(batches[i][j] == b[i][j]);
        }
        lemma_run(b);
    }
}

/// The answers of the query `?x field ?y` after any run of `state` calls from a
/// fresh database, at the current transaction: the plan does not fail, and the
/// rows, as a set, are exactly the rows `{?x: entity, ?y: value}` of the stated
/// facts of that field, each still stored (no later fact took its id). (The law
/// leaves out a stated fact named by the field `query0`, which the query's own
/// answers would be mistaken for, and the query `?x field ?x`.)
pub proof fn law_query_answers_exactly_the_stated_facts(
    batches: Seq<Seq<FactV>>,
    f: Seq<char>,
    x: Seq<char>,
    y: Seq<char>,
    atoms: Seq<AtomV>,
    rs: Seq<RuleV>,
)
    requires
        numbered(batches),
        batches.len() < u64::MAX,
        x != y,
        forall|p: int| 0 <= p < all_stated(batches).len() ==> (#[trigger] all_stated(batches)[p]).field != query0_name(),
    ensures
        ({
            let db = run(batches);
            let q = triple_query(x, f, y);
            let plan = query_plan(q, db.store.tx_id);
            &&& !plan_fails(plan, db.store, db.index)
            &&& rs.to_set() == plan_loaded(plan, db.store, db.index).insert(q) && is_least_model(
                rs,
                atoms.to_set(),
            ) ==> answer_rows(atoms, q.head.args).to_set() == stated_rows(all_stated(batches), f, x, y)
        }),
{
    let db = run(batches);
    let facts = all_stated(batches);
    let q = triple_query(x, f, y);
    let tx = db.store.tx_id;
    let plan = query_plan(q, tx);
    let scans = seq![ScanV::Field(f)];
    lemma_run(batches);
    lemma_triple_query(x, f, y);
    let lr = loaded_of(db, scans, tx);
    assert(plan_loaded(plan, db.store, db.index) == lr) by {
        reveal_with_fuel(plan_loaded, 2);
        assert(lr.union(Set::empty()) =~= lr);
    }
    assert(!scan_fails(db.store, db.index, scans, tx)) by {
        if scan_fails(db.store, db.index, scans, tx) {
            let u = choose|u: Seq<char>|
                #[trigger] scanned_ids(db.index, scans, tx).contains(u) && !db.store.facts.contains_key(u);
            let k = choose|k: IndexKeyV|
                #[trigger] db.index.contains_key(k) && key_scanned(k, scans, tx) && db.index[k] == u;
        }
    }
    assert(!plan_fails(plan, db.store, db.index)) by {
        reveal_with_fuel(plan_fails, 2);
    }
    if rs.to_set() == lr.insert(q) && is_least_model(rs, atoms.to_set()) {
        let rows = answer_rows(atoms, q.head.args);
        assert(rs.to_set().contains(q));
        // every still-stored fact of the field is answered
        assert forall|row: Map<Seq<char>, Seq<char>>| stated_rows(facts, f, x, y).contains(row) implies rows.to_set().contains(row) by {
            let p = choose|p: int|
                0 <= p < facts.len() && id_not_reused(facts, p) && (#[trigger] facts[p]).field == f
                    && row == fact_row(x, y, facts[p]);
            let fa = facts[p];
            lemma_insert_facts_own(Map::empty(), facts, p);
            let k = fact_key(fa, seq![ValueV::Uri(f)]);
            assert(fact_keys(fa)[2] == k);
            assert(fact_keys(fa).contains(k));
            assert(db.index.contains_key(k) && db.index[k] == fa.id);
            assert(join_values(k.prefix) == f);
            assert(key_text(k).take(f.len() as int) =~= f);
            assert(scan_prefix(scans[0]).is_prefix_of(key_text(k)));
            assert(key_scanned(k, scans, tx));
            assert(scanned_ids(db.index, scans, tx).contains(fa.id));
            assert(lr.contains(fact_rule(fa)));
            assert(rs.to_set().contains(fact_rule(fa)));
            lemma_loaded_fact_answers(x, y, fa, atoms, rs);
        }
        // every answer is the row of a still-stored fact of the field
        assert forall|r: RuleV| #[trigger] lr.contains(r) implies exists|p: int|
            0 <= p < facts.len() && id_not_reused(facts, p) && r == fact_rule(#[trigger] facts[p]) by {
            let u = choose|u: Seq<char>| scanned_ids(db.index, scans, tx).contains(u) && r == fact_rule(db.store.facts[u]);
            let k = choose|k: IndexKeyV|
                #[trigger] db.index.contains_key(k) && key_scanned(k, scans, tx) && db.index[k] == u;
            lemma_insert_facts_from(facts, u);
        }
        lemma_answers_come_from_facts(lr, facts, x, f, y, atoms, rs);
        assert forall|row: Map<Seq<char>, Seq<char>>| rows.to_set().contains(row) implies stated_rows(facts, f, x, y).contains(row) by {
            assert(rows.contains(row));
        }
        assert(rows.to_set() =~= stated_rows(facts, f, x, y));
    }
}

/// The answer atom `query0(entity, value)` of a fact.
spec fn answer_atom(g: FactV) -> AtomV {
    AtomV {
        relation: TermV::Sym(query0_name()),
        args: seq![TermV::Sym(g.entity), TermV::Sym(value_text(g.value))],
    }
}

/// Whatever the query `?x field ?y` answers beside fact rules of stated facts
/// (none named by the field `query0`) is the row of one of those facts of the field.
proof fn lemma_answers_come_from_facts(
    lr: Set<RuleV>,
    facts: Seq<FactV>,
    x: Seq<char>,
    f: Seq<char>,
    y: Seq<char>,
    atoms: Seq<AtomV>,
    rs: Seq<RuleV>,
)
    requires
        rs.to_set() == lr.insert(triple_query(x, f, y)),
        is_least_model(rs, atoms.to_set()),
        forall|r: RuleV| #[trigger] lr.contains(r) ==> exists|p: int|
            0 <= p < facts.len() && id_not_reused(facts, p) && r == fact_rule(#[trigger] facts[p]),
        forall|p: int| 0 <= p < facts.len() ==> (#[trigger] facts[p]).field != query0_name(),
    ensures
        forall|row: Map<Seq<char>, Seq<char>>|
            #[trigger] answer_rows(atoms, triple_query(x, f, y).head.args).contains(row) ==> exists|p: int|
                0 <= p < facts.len() && id_not_reused(facts, p) && (#[trigger] facts[p]).field == f
                    && row == fact_row(x, y, facts[p]),
{
    let q = triple_query(x, f, y);
    lemma_triple_query(x, f, y);
    let b0 = q.body[0];
    let kset = Set::new(
        |a: AtomV|
            (exists|p: int|
                0 <= p < facts.len() && id_not_reused(facts, p) && a == (#[trigger] fact_rule(facts[p])).head)
                || (exists|p: int|
                0 <= p < facts.len() && id_not_reused(facts, p) && facts[p].field == f && a == answer_atom(
                    #[trigger] facts[p],
                )),
    );
    assert forall|a: AtomV| #[trigger] derives(rs, kset, a) implies kset.contains(a) by {
        let (i, theta) = choose|i: int, theta: SubV|
            #![trigger satisfies(kset, rs[i].body, theta), spec_substitute(rs[i].head, theta)]
            0 <= i < rs.len() && satisfies(kset, rs[i].body, theta) && a == spec_substitute(
                rs[i].head,
                theta,
            );
        assert(rs.to_set().contains(rs[i]));
        if rs[i] != q {
            assert(lr.contains(rs[i]));
            let p = choose|p: int|
                0 <= p < facts.len() && id_not_reused(facts, p) && rs[i] == fact_rule(#[trigger] facts[p]);
            assert(theta.len() == 0);
            assert(spec_substitute(rs[i].head, theta).args =~= rs[i].head.args);
        } else {
            let (t1, g) = choose|t1: SubV, g: AtomV|
                #![trigger extends_by(q.body[0], t1, g, theta)]
                satisfies(kset, q.body.drop_first(), t1) && kset.contains(g) && extends_by(
                    q.body[0],
                    t1,
                    g,
                    theta,
                );
            assert(q.body.drop_first() =~= Seq::<AtomV>::empty());
            assert(t1.len() == 0);
            assert(spec_substitute(b0, t1).args =~= b0.args);
            assert(spec_substitute(b0, t1) == b0);
            assert(theta =~= spec_unify(b0, g)->Some_0);
            lemma_unify_args_binds(b0.args, g.args);
            assert(b0.args[0] == TermV::Var(x));
            assert(b0.args[1] == TermV::Var(y));
            assert(spec_find(theta, TermV::Var(x)) == Some(g.args[0]));
            assert(spec_find(theta, TermV::Var(y)) == Some(g.args[1]));
            assert(subst_term(TermV::Var(x), theta) == g.args[0]);
            assert(subst_term(TermV::Var(y), theta) == g.args[1]);
            assert(a.relation == TermV::Sym(query0_name()));
            assert(a.args =~= seq![g.args[0], g.args[1]]);
            if exists|p: int|
                0 <= p < facts.len() && id_not_reused(facts, p) && g == (#[trigger] fact_rule(facts[p])).head {
                let p = choose|p: int|
                    0 <= p < facts.len() && id_not_reused(facts, p) && g == (#[trigger] fact_rule(facts[p])).head;
                assert(a == answer_atom(facts[p]));
            } else {
                let p = choose|p: int|
                    0 <= p < facts.len() && id_not_reused(facts, p) && facts[p].field == f && g == answer_atom(
                        #[trigger] facts[p],
                    );
                assert(a == answer_atom(facts[p]));
            }
        }
    }
    assert(crate::fixpoint::closed_under(rs, kset));
    assert(atoms.to_set().subset_of(kset));
    assert forall|row: Map<Seq<char>, Seq<char>>|
        #[trigger] answer_rows(atoms, q.head.args).contains(row) implies exists|p: int|
        0 <= p < facts.len() && id_not_reused(facts, p) && (#[trigger] facts[p]).field == f && row == fact_row(
            x,
            y,
            facts[p],
        ) by {
        lemma_answer_rows_member(atoms, q.head.args, row);
        let a = choose|a: AtomV|
            atoms.contains(a) && a.relation == TermV::Sym(query0_name()) && row == row_of(q.head.args, a.args);
        assert(atoms.to_set().contains(a));
        if exists|p: int|
            0 <= p < facts.len() && id_not_reused(facts, p) && a == (#[trigger] fact_rule(facts[p])).head {
            let p = choose|p: int|
                0 <= p < facts.len() && id_not_reused(facts, p) && a == (#[trigger] fact_rule(facts[p])).head;
            assert(facts[p].field != query0_name());
        } else {
            let p = choose|p: int|
                0 <= p < facts.len() && id_not_reused(facts, p) && facts[p].field == f && a == answer_atom(
                    #[trigger] facts[p],
                );
            lemma_triple_row(x, y, facts[p].entity, value_text(facts[p].value));
        }
    }
}

/// Each answer row is the row of an answer atom.
pub(crate) proof fn lemma_answer_rows_member(atoms: Seq<AtomV>, headers: Seq<TermV>, row: Map<Seq<char>, Seq<char>>)
    requires
        answer_rows(atoms, headers).contains(row),
    ensures
        exists|a: AtomV|
            atoms.contains(a) && a.relation == TermV::Sym(query0_name()) && row == row_of(headers, a.args),
    decreases atoms.len(),
{
    if atoms.len() == 0 {
        assert(answer_rows(atoms, headers).len() == 0);
    }
    let rest = answer_rows(atoms.drop_last(), headers);
    let last = atoms.last();
    if last.relation == TermV::Sym(query0_name()) && row == row_of(headers, last.args) {
        assert(atoms[atoms.len() - 1] == last);
        assert(atoms.contains(last));
        assert(atoms.contains(last) && last.relation == TermV::Sym(query0_name()) && row == row_of(headers, last.args));
    } else {
        if last.relation == TermV::Sym(query0_name()) {
            let j = choose|j: int| 0 <= j < answer_rows(atoms, headers).len() && answer_rows(atoms, headers)[j] == row;
            assert(answer_rows(atoms, headers) == rest.push(row_of(headers, last.args)));
            assert(j < rest.len());
            assert(rest[j] == row);
        }
        assert(rest.contains(row));
        lemma_answer_rows_member(atoms.drop_last(), headers, row);
        let a = choose|a: AtomV|
            atoms.drop_last().contains(a) && a.relation == TermV::Sym(query0_name()) && row == row_of(headers, a.args);
        let i = choose|i: int| 0 <= i < atoms.drop_last().len() && atoms.drop_last()[i] == a;
        assert(atoms[i] == a);
        assert(atoms.contains(a));
        assert(atoms.contains(a) && a.relation == TermV::Sym(query0_name()) && row == row_of(headers, a.args));
    }
}

/// One round of evaluation (what the solver's immediate-consequence step
/// computes) keeps every fact it starts from and grows with them: from more facts
/// it yields at least as much.
pub proof fn law_consequence_monotone(rules: Seq<RuleV>, k1: Set<AtomV>, k2: Set<AtomV>)
    requires
        k1.subset_of(k2),
    ensures
        k1.subset_of(consequence(rules, k1)),
        consequence(rules, k1).subset_of(consequence(rules, k2)),
{
    assert forall|a: AtomV| consequence(rules, k1).contains(a) implies consequence(rules, k2).contains(a) by {
        if derives(rules, k1, a) {
            lemma_derives_mono(rules, k1, k2, a);
        }
    }
}

/// Every binding unification returns pairs a pattern argument with the fact
/// argument facing it.
pub(crate) proof fn lemma_unify_args_pairs(xs: Seq<TermV>, ys: Seq<TermV>)
    requires
        xs.len() == ys.len(),
        unify_args(xs, ys) is Some,
    ensures
        forall|j: int|
            0 <= j < unify_args(xs, ys)->Some_0.len() ==> exists|i: int|
                0 <= i < xs.len() && #[trigger] unify_args(xs, ys)->Some_0[j] == (xs[i], ys[i])
                    && xs[i] is Var,
    decreases xs.len(),
{
    if xs.len() > 0 {
        let xr = xs.drop_first();
        let yr = ys.drop_first();
        let theta = unify_args(xs, ys)->Some_0;
        match (xs[0], ys[0]) {
            (TermV::Sym(a), TermV::Sym(b)) => {
                lemma_unify_args_pairs(xr, yr);
                assert forall|j: int| 0 <= j < theta.len() implies exists|i: int|
                    0 <= i < xs.len() && #[trigger] theta[j] == (xs[i], ys[i]) && xs[i] is Var by {
                    let i = choose|i: int| 0 <= i < xr.len() && theta[j] == (xr[i], yr[i]) && xr[i] is Var;
                    assert(xr[i] == xs[i + 1] && yr[i] == ys[i + 1]);
                    assert(theta[j] == (xs[i + 1], ys[i + 1]));
                }
            },
            (TermV::Var(_), TermV::Sym(_)) => {
                lemma_unify_args_pairs(xr, yr);
                let inc = unify_args(xr, yr)->Some_0;
                assert(theta == seq![(xs[0], ys[0])] + inc);
                assert forall|j: int| 0 <= j < theta.len() implies exists|i: int|
                    0 <= i < xs.len() && #[trigger] theta[j] == (xs[i], ys[i]) && xs[i] is Var by {
                    if j == 0 {
                        assert(theta[0] == (xs[0], ys[0]));
                    } else {
                        assert(theta[j] == inc[j - 1]);
                        let i = choose|i: int| 0 <= i < xr.len() && inc[j - 1] == (xr[i], yr[i]) && xr[i] is Var;
                        assert(xr[i] == xs[i + 1] && yr[i] == ys[i + 1]);
                        assert(theta[j] == (xs[i + 1], ys[i + 1]));
                    }
                }
            },
            _ => {},
        }
    }
}

/// A binding found for `t` is a pair of the substitution.
pub(crate) proof fn lemma_find_pair(s: SubV, t: TermV)
    requires
        spec_find(s, t) is Some,
    ensures
        exists|j: int| 0 <= j < s.len() && #[trigger] s[j] == (t, spec_find(s, t)->Some_0),
    decreases s.len(),
{
    if s[0].0 == t {
        assert(s[0] == (t, spec_find(s, t)->Some_0));
    } else {
        lemma_find_pair(s.drop_first(), t);
        let j = choose|j: int|
            0 <= j < s.drop_first().len() && #[trigger] s.drop_first()[j] == (t, spec_find(s, t)->Some_0);
        assert(s[j + 1] == s.drop_first()[j]);
    }
}

/// Unification of argument lists succeeds wherever some substitution turns the
/// pattern arguments into the (ground) fact arguments.
proof fn lemma_unify_args_complete(xs: Seq<TermV>, ys: Seq<TermV>, t: SubV)
    requires
        xs.len() == ys.len(),
        forall|i: int| 0 <= i < xs.len() ==> subst_term(#[trigger] xs[i], t) == ys[i],
        forall|i: int| 0 <= i < ys.len() ==> (#[trigger] ys[i]) is Sym,
    ensures
        unify_args(xs, ys) is Some,
    decreases xs.len(),
{
    if xs.len() > 0 {
        let xr = xs.drop_first();
        let yr = ys.drop_first();
        assert forall|i: int| 0 <= i < xr.len() implies subst_term(#[trigger] xr[i], t) == yr[i] by {
            assert(xr[i] == xs[i + 1]);
        }
        assert forall|i: int| 0 <= i < yr.len() implies (#[trigger] yr[i]) is Sym by {
            assert(yr[i] == ys[i + 1]);
        }
        lemma_unify_args_complete(xr, yr, t);
        assert(ys[0] is Sym);
        assert(subst_term(xs[0], t) == ys[0]);
        if xs[0] is Var {
            let inc = unify_args(xr, yr)->Some_0;
            if spec_find(inc, xs[0]) is Some {
                lemma_find_pair(inc, xs[0]);
                lemma_unify_args_pairs(xr, yr);
                let j = choose|j: int| 0 <= j < inc.len() && #[trigger] inc[j] == (xs[0], spec_find(inc, xs[0])->Some_0);
                let i = choose|i: int| 0 <= i < xr.len() && #[trigger] inc[j] == (xr[i], yr[i]) && xr[i] is Var;
                assert(subst_term(xr[i], t) == yr[i]);
            }
        }
    }
}

/// Unification finds a match whenever one exists: if some substitution turns a
/// pattern into a ground fact, unifying the pattern with the fact succeeds.
pub proof fn law_unify_finds_every_match(pattern: AtomV, fact: AtomV, t: SubV)
    requires
        spec_substitute(pattern, t) == fact,
        is_ground(fact),
    ensures
        spec_unify(pattern, fact) is Some,
{
    assert forall|i: int| 0 <= i < pattern.args.len() implies subst_term(#[trigger] pattern.args[i], t)
        == fact.args[i] by {
        assert(spec_substitute(pattern, t).args[i] == subst_term(pattern.args[i], t));
    }
    assert forall|i: int| 0 <= i < fact.args.len() implies (#[trigger] fact.args[i]) is Sym by {}
    lemma_unify_args_complete(pattern.args, fact.args, t);
}

/// A text starts with any text it is made by extending.
proof fn lemma_prefix_of_concat(a: Seq<char>, b: Seq<char>)
    ensures
        a.is_prefix_of(a + b),
{
    assert((a + b).take(a.len() as int) =~= a);
}

/// Each index key of a fact is found by the scan built from that fact's parts:
/// its entity key by the entity scan, its entity/field key by the entity-field
/// scan, its field key by the field scan, its field/value key by the field-value
/// scan and its value key by the value scan.
pub proof fn law_fact_keys_found_by_their_scans(f: FactV)
    ensures
        ({
            let ks = fact_keys(f);
            let v = value_text(f.value);
            &&& scan_prefix(ScanV::Entity(f.entity)).is_prefix_of(key_text(ks[0]))
            &&& scan_prefix(ScanV::EntityField(f.entity, f.field)).is_prefix_of(key_text(ks[1]))
            &&& scan_prefix(ScanV::Field(f.field)).is_prefix_of(key_text(ks[2]))
            &&& scan_prefix(ScanV::FieldValue(f.field, v)).is_prefix_of(key_text(ks[3]))
            &&& scan_prefix(ScanV::Value(v)).is_prefix_of(key_text(ks[4]))
        }),
{
    let ks = fact_keys(f);
    let v = value_text(f.value);
    let tail = |k: IndexKeyV| seq!['/'] + crate::text::decimal(k.tx_id as nat);
    let e = f.entity;
    let d = f.field;
    assert(join_values(ks[0].prefix) == e);
    assert(ks[1].prefix.drop_last() =~= seq![ValueV::Uri(e)]);
    assert(join_values(ks[1].prefix) == e + seq!['/'] + d);
    assert(join_values(ks[2].prefix) == d);
    assert(ks[3].prefix.drop_last() =~= seq![ValueV::Uri(d)]);
    assert(join_values(ks[3].prefix) == d + seq!['/'] + v);
    assert(join_values(ks[4].prefix) == v);
    lemma_prefix_of_concat(e, tail(ks[0]));
    lemma_prefix_of_concat(e + seq!['/'] + d, tail(ks[1]));
    lemma_prefix_of_concat(d, tail(ks[2]));
    lemma_prefix_of_concat(d + seq!['/'] + v, tail(ks[3]));
    lemma_prefix_of_concat(v, tail(ks[4]));
    assert(key_text(ks[0]) == e + tail(ks[0]));
    assert(key_text(ks[1]) == (e + seq!['/'] + d) + tail(ks[1]));
    assert(key_text(ks[2]) == d + tail(ks[2]));
    assert(key_text(ks[3]) == (d + seq!['/'] + v) + tail(ks[3]));
    assert(key_text(ks[4]) == v + tail(ks[4]));
}

/// Evaluating any rule of `rules` against the facts `kb` (what `Solver::eval_rule`
/// returns) yields only facts of `kb`.
pub open spec fn closed_under_eval(rules: Seq<RuleV>, kb: Seq<AtomV>) -> bool {
    forall|i: int, a: AtomV|
        0 <= i < rules.len() && #[trigger] crate::engine::spec_eval_rule(kb, rules[i]).contains(a) ==> kb.contains(a)
}

/// Being closed under evaluation of the rules is being closed under what they derive.
proof fn lemma_closed_under_eval(rules: Seq<RuleV>, kb: Seq<AtomV>)
    ensures
        closed_under_eval(rules, kb) <==> crate::fixpoint::closed_under(rules, kb.to_set()),
{
    if closed_under_eval(rules, kb) {
        assert forall|a: AtomV| #[trigger] derives(rules, kb.to_set(), a) implies kb.to_set().contains(a) by {
            let (i, theta) = choose|i: int, theta: SubV|
                #![trigger satisfies(kb.to_set(), rules[i].body, theta), spec_substitute(rules[i].head, theta)]
                0 <= i < rules.len() && satisfies(kb.to_set(), rules[i].body, theta) && a == spec_substitute(
                    rules[i].head,
                    theta,
                );
            crate::fixpoint::lemma_eval_rule_member(kb, rules[i], a);
        }
    }
    if crate::fixpoint::closed_under(rules, kb.to_set()) {
        assert forall|i: int, a: AtomV|
            0 <= i < rules.len() && #[trigger] crate::engine::spec_eval_rule(kb, rules[i]).contains(a) implies kb.contains(a) by {
            crate::fixpoint::lemma_eval_rule_member(kb, rules[i], a);
            let theta = choose|theta: SubV|
                satisfies(kb.to_set(), rules[i].body, theta) && a == #[trigger] spec_substitute(rules[i].head, theta);
            assert(derives(rules, kb.to_set(), a));
            assert(kb.to_set().contains(a));
        }
    }
}

/// The solver's answer read through rule evaluation: the facts `Solver::solve`
/// returns (a least model of the rules) are closed under evaluating each rule
/// against them, and lie within every list of facts so closed.
pub proof fn law_solution_least_closed_under_eval(rules: Seq<RuleV>, s: Seq<AtomV>, t: Seq<AtomV>)
    requires
        is_least_model(rules, s.to_set()),
    ensures
        closed_under_eval(rules, s),
        closed_under_eval(rules, t) ==> s.to_set().subset_of(t.to_set()),
{
    lemma_closed_under_eval(rules, s);
    lemma_closed_under_eval(rules, t);
}

/// A decimal digit reads back as the number it was written for.
proof fn lemma_digit_reads_back(d: nat)
    requires
        d < 10,
    ensures
        crate::scanner::digit_value(crate::text::digit_char(d)) == d,
        crate::scanner::is_digit(crate::text::digit_char(d)),
        (crate::text::digit_char(d) == '0') == (d == 0),
{
}

/// The decimal text of a number (what `u64_to_string`, `TxId::to_string` and the
/// end of every index key's text are) is a non-empty run of decimal digits, with
/// no leading zero unless the number is zero, and reads back, digit by digit in
/// base ten, as the number itself.
pub proof fn law_decimal_reads_back(n: nat)
    ensures
        crate::scanner::digits_value(crate::text::decimal(n)) == n,
        crate::text::decimal(n).len() > 0,
        forall|i: int|
            0 <= i < crate::text::decimal(n).len() ==> crate::scanner::is_digit(
                #[trigger] crate::text::decimal(n)[i],
            ),
        n > 0 ==> crate::text::decimal(n)[0] != '0',
    decreases n,
{
    let d = crate::text::decimal(n);
    if n < 10 {
        lemma_digit_reads_back(n);
        assert(d.drop_last() =~= Seq::<char>::empty());
        assert(crate::scanner::digits_value(Seq::<char>::empty()) == 0);
        assert(crate::scanner::digits_value(d) == crate::scanner::digits_value(d.drop_last()) * 10
            + crate::scanner::digit_value(d.last()));
    } else {
        law_decimal_reads_back(n / 10);
        lemma_digit_reads_back(n % 10);
        let h = crate::text::decimal(n / 10);
        assert(d == h.push(crate::text::digit_char(n % 10)));
        assert(d.drop_last() =~= h);
        assert((n / 10) * 10 + n % 10 == n);
        assert(crate::scanner::digits_value(d) == crate::scanner::digits_value(d.drop_last()) * 10
            + crate::scanner::digit_value(d.last()));
        assert forall|i: int| 0 <= i < d.len() implies crate::scanner::is_digit(#[trigger] d[i]) by {
            if i < h.len() {
                assert(d[i] == h[i]);
            }
        }
        assert(d[0] == h[0]);
    }
}

/// The last segment of a text ending with `/` and then a run without `/` is that run.
proof fn lemma_last_segment_after_slash(a: Seq<char>, t: Seq<char>)
    requires
        forall|i: int| 0 <= i < t.len() ==> #[trigger] t[i] != '/',
    ensures
        crate::scanner::last_segment(a + seq!['/'] + t) == t,
    decreases t.len(),
{
    let s = a + seq!['/'] + t;
    if t.len() == 0 {
        assert(s.last() == '/');
    } else {
        assert(s.drop_last() =~= a + seq!['/'] + t.drop_last());
        assert(s.last() == t.last());
        lemma_last_segment_after_slash(a, t.drop_last());
        assert(t.drop_last().push(t.last()) =~= t);
    }
}

/// An index key's text ends with its transaction: reading the number after its
/// last `/` gives back the key's transaction id.
pub proof fn law_key_text_reads_back(k: IndexKeyV)
    ensures
        crate::scanner::readable_key(key_text(k)),
        crate::scanner::key_tx(key_text(k)) == k.tx_id,
{
    let d = crate::text::decimal(k.tx_id as nat);
    law_decimal_reads_back(k.tx_id as nat);
    assert forall|i: int| 0 <= i < d.len() implies #[trigger] d[i] != '/' by {
        assert(crate::scanner::is_digit(d[i]));
    }
    lemma_last_segment_after_slash(join_values(k.prefix), d);
    assert(crate::scanner::is_digit(d[0]));
    assert(crate::scanner::unsigned_digits(d) == d);
}

/// The engine variable a variable expression `?v` of a stand-alone rule names
/// (`??v`), as a list of one, or nothing for a symbol.
pub open spec fn rule_var(e: ExprV) -> Seq<TermV> {
    match e {
        ExprV::Variable(v) => seq![TermV::Var(seq!['?'] + v)],
        _ => Seq::empty(),
    }
}

/// The engine term of a symbol `s` or a variable `?v` (`??v`) of a stand-alone rule.
pub open spec fn rule_arg(e: ExprV) -> TermV {
    match e {
        ExprV::Variable(v) => TermV::Var(seq!['?'] + v),
        ExprV::Symbol(s) => TermV::Sym(s),
        _ => TermV::Sym(Seq::empty()),
    }
}

/// The stand-alone parser reads the first triple `entity field value` of a list
/// into one rule: its head `query0` lists exactly the variables among entity,
/// field and value, in that order (a variable in any of the three places is a
/// head argument, and nothing else is), and its body is the one atom
/// `field(entity, value)`.
pub proof fn law_rule_of_first_triple(items: Seq<ExprV>)
    requires
        items.len() >= 3,
        forall|i: int| 0 <= i < 3 ==> crate::parser::is_simple(#[trigger] items[i]),
    ensures
        crate::nanolog_parser::first_triple_rules(items).len() == 1,
        crate::nanolog_parser::first_triple_rules(items)[0].head == (AtomV {
            relation: TermV::Sym(query0_name()),
            args: rule_var(items[0]) + rule_var(items[1]) + rule_var(items[2]),
        }),
        crate::nanolog_parser::first_triple_rules(items)[0].body == seq![
            AtomV { relation: rule_arg(items[1]), args: seq![rule_arg(items[0]), rule_arg(items[2])] },
        ],
{
    let r = crate::nanolog_parser::first_triple_rules(items)[0];
    let ts = seq![
        crate::nanolog_parser::rule_term(items[0]),
        crate::nanolog_parser::rule_term(items[1]),
        crate::nanolog_parser::rule_term(items[2]),
    ];
    assert(crate::parser::is_simple(items[0]) && crate::parser::is_simple(items[1])
        && crate::parser::is_simple(items[2]));
    reveal_with_fuel(Seq::filter, 4);
    assert(ts.drop_last() =~= seq![ts[0], ts[1]]);
    assert(ts.drop_last().drop_last() =~= seq![ts[0]]);
    assert(ts.drop_last().drop_last().drop_last() =~= Seq::<TermV>::empty());
    assert(r.head.args == vars_in(ts));
    assert(vars_in(ts) =~= rule_var(items[0]) + rule_var(items[1]) + rule_var(items[2]));
    assert(r.body =~= seq![
        AtomV { relation: rule_arg(items[1]), args: seq![rule_arg(items[0]), rule_arg(items[2])] },
    ]);
}

/// The variable a variable expression of a query names, as a list of one, or
/// nothing for a symbol.
pub open spec fn query_var(e: ExprV) -> Seq<TermV> {
    match e {
        ExprV::Variable(v) => seq![TermV::Var(v)],
        _ => Seq::empty(),
    }
}

/// The term of a symbol or variable expression of a query.
pub open spec fn query_arg(e: ExprV) -> TermV {
    match e {
        ExprV::Variable(v) => TermV::Var(v),
        ExprV::Symbol(s) => TermV::Sym(s),
        _ => TermV::Sym(Seq::empty()),
    }
}

/// The variables of the triples of `items`, triple by triple, each in the order
/// entity, field, value.
pub open spec fn triples_vars(items: Seq<ExprV>) -> Seq<TermV>
    decreases items.len(),
{
    if items.len() < 3 {
        Seq::empty()
    } else {
        query_var(items[0]) + query_var(items[1]) + query_var(items[2]) + triples_vars(items.skip(3))
    }
}

/// The query parser reads a list of triples `entity field value` into one rule:
/// its body has one atom `field(entity, value)` per triple, in order, and its head
/// `query0` lists every variable of every triple (entity, field and value alike),
/// triple by triple, repetitions kept.
pub proof fn law_query_rule_of_triples(items: Seq<ExprV>)
    requires
        items.len() % 3 == 0,
        forall|i: int| 0 <= i < items.len() ==> crate::parser::is_simple(#[trigger] items[i]),
    ensures
        query_rule(items).head == (AtomV { relation: TermV::Sym(query0_name()), args: triples_vars(items) }),
        query_rule(items).body.len() == items.len() / 3,
        forall|j: int|
            0 <= j < items.len() / 3 ==> #[trigger] query_rule(items).body[j] == (AtomV {
                relation: query_arg(items[3 * j + 1]),
                args: seq![query_arg(items[3 * j]), query_arg(items[3 * j + 2])],
            }),
    decreases items.len(),
{
    if items.len() >= 3 {
        let rest = items.skip(3);
        assert forall|i: int| 0 <= i < rest.len() implies crate::parser::is_simple(#[trigger] rest[i]) by {
            assert(rest[i] == items[i + 3]);
        }
        law_query_rule_of_triples(rest);
        let ts = triple_terms(items);
        assert(crate::parser::is_simple(items[0]) && crate::parser::is_simple(items[1])
            && crate::parser::is_simple(items[2]));
        reveal_with_fuel(Seq::filter, 4);
        assert(ts.drop_last() =~= seq![ts[0], ts[1]]);
        assert(ts.drop_last().drop_last() =~= seq![ts[0]]);
        assert(ts.drop_last().drop_last().drop_last() =~= Seq::<TermV>::empty());
        assert(vars_in(ts) =~= query_var(items[0]) + query_var(items[1]) + query_var(items[2]));
        assert(query_head_args(items) =~= triples_vars(items));
        let b = query_body(items);
        let br = query_body(rest);
        assert forall|j: int| 0 <= j < items.len() / 3 implies #[trigger] b[j] == (AtomV {
            relation: query_arg(items[3 * j + 1]),
            args: seq![query_arg(items[3 * j]), query_arg(items[3 * j + 2])],
        }) by {
            if j == 0 {
                assert(b[0] == crate::parser::triple_atom(items));
                assert(b[0].args =~= seq![query_arg(items[0]), query_arg(items[2])]);
            } else {
                assert(b[j] == br[j - 1]);
                assert(rest[3 * (j - 1)] == items[3 * j]);
                assert(rest[3 * (j - 1) + 1] == items[3 * j + 1]);
                assert(rest[3 * (j - 1) + 2] == items[3 * j + 2]);
            }
        }
    } else {
        assert(items.len() == 0);
    }
}

/// The fact rules the scans load from the store and index of `db`.
spec fn loaded_of(db: TxManagerV, scans: Seq<ScanV>, tx: u64) -> Set<RuleV> {
    crate::query_executor::loaded_rules(db.store, db.index, scans, tx)
}

} // verus!
