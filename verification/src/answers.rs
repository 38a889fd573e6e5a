//! What a query answers: the instances of its head under the substitutions that
//! make every atom of its body a stored fact.

use vstd::prelude::*;

use crate::engine::{
    body_has_var, is_ground, range_restricted, spec_find, spec_substitute, spec_unify, subst_term,
    AtomV, RuleV, SubV, TermV,
};
use crate::fixpoint::{
    derives, extends_by, is_least_model, kb_args_in, lemma_find_concat, lemma_satisfies_facts,
    satisfies, terms_in, values_in,
};
use crate::backend::memory::StoreV;
use crate::db::{answer_rows, query_plan, row_of, stated};
use crate::index::{fact_keys, key_text, IndexKeyV};
use crate::laws::{
    index_backed, index_names_facts, id_not_reused, law_fact_keys_found_by_their_scans,
    law_state_loses_nothing, law_unify_finds_every_match, law_unify_then_substitute,
    lemma_answer_rows_contains, lemma_answer_rows_member, lemma_find_pair, lemma_unify_args_pairs,
};
use crate::model::FactV;
use crate::parser::query0_name;
use crate::query_executor::{fact_rule, key_scanned, loaded_rules, plan_fails, plan_loaded, scan_fails, scanned_ids};
use crate::query_planner::{atom_scans, body_scans, scan_prefix, ScanV};
use crate::tx_manager::TxManagerV;
use crate::value::value_text;

verus! {

/// The symbols.
pub open spec fn syms() -> Set<TermV> {
    Set::new(|t: TermV| t is Sym)
}

/// The heads of `q` under the substitutions that turn every atom of its body
/// into a fact of `facts`.
pub open spec fn instances(q: RuleV, facts: Set<AtomV>) -> Set<AtomV> {
    Set::new(
        |a: AtomV|
            exists|theta: SubV|
                (forall|j: int|
                    0 <= j < q.body.len() ==> facts.contains(
                        #[trigger] spec_substitute(q.body[j], theta),
                    )) && a == #[trigger] spec_substitute(q.head, theta),
    )
}

/// Substituting `a + b` is substituting `a` and then `b`, where `a` binds only symbols.
proof fn lemma_subst_concat(t: TermV, a: SubV, b: SubV)
    requires
        values_in(a, syms()),
    ensures
        subst_term(t, a + b) == subst_term(subst_term(t, a), b),
{
    lemma_find_concat(a, b, t);
    if t is Var {
        if spec_find(a, t) is Some {
            crate::fixpoint::lemma_find_value(a, t, syms());
        }
    }
}

/// A substitution that satisfies a body against ground facts turns every atom of
/// the body into one of the facts.
pub proof fn lemma_satisfies_instances(kb: Set<AtomV>, body: Seq<AtomV>, theta: SubV)
    requires
        satisfies(kb, body, theta),
        kb_args_in(kb, syms()),
    ensures
        forall|j: int| 0 <= j < body.len() ==> kb.contains(#[trigger] spec_substitute(body[j], theta)),
    decreases body.len(),
{
    if body.len() > 0 {
        let rest = body.drop_first();
        let (t1, g) = choose|t1: SubV, g: AtomV|
            #![trigger extends_by(body[0], t1, g, theta)]
            satisfies(kb, rest, t1) && kb.contains(g) && extends_by(body[0], t1, g, theta);
        lemma_satisfies_instances(kb, rest, t1);
        lemma_satisfies_facts(kb, rest, t1, syms());
        let lowered = spec_substitute(body[0], t1);
        let s2 = spec_unify(lowered, g)->Some_0;
        assert(theta == t1 + s2);
        law_unify_then_substitute(lowered, g);
        assert forall|j: int| 0 <= j < body.len() implies kb.contains(
            #[trigger] spec_substitute(body[j], theta),
        ) by {
            let inst = spec_substitute(body[j], theta);
            if j == 0 {
                assert forall|i: int| 0 <= i < inst.args.len() implies inst.args[i] == g.args[i] by {
                    lemma_subst_concat(body[0].args[i], t1, s2);
                    assert(lowered.args[i] == subst_term(body[0].args[i], t1));
                    assert(spec_substitute(lowered, s2).args[i] == subst_term(lowered.args[i], s2));
                }
                assert(inst.args =~= g.args);
            } else {
                assert(rest[j - 1] == body[j]);
                let r1 = spec_substitute(body[j], t1);
                assert(kb.contains(r1));
                assert(terms_in(r1.args, syms()));
                assert forall|i: int| 0 <= i < inst.args.len() implies inst.args[i] == r1.args[i] by {
                    lemma_subst_concat(body[j].args[i], t1, s2);
                    assert(syms().contains(r1.args[i]));
                }
                assert(inst.args =~= r1.args);
            }
        }
    }
}

/// Where every atom of a body, under `theta`, is one of the ground facts, some
/// substitution satisfies the body against them; it binds every variable of the
/// body, and each to what `theta` puts in its place.
pub proof fn lemma_instances_satisfy(kb: Set<AtomV>, body: Seq<AtomV>, theta: SubV) -> (t: SubV)
    requires
        kb_args_in(kb, syms()),
        forall|j: int| 0 <= j < body.len() ==> kb.contains(#[trigger] spec_substitute(body[j], theta)),
    ensures
        satisfies(kb, body, t),
        values_in(t, syms()),
        forall|v: TermV| #[trigger] spec_find(t, v) is Some ==> spec_find(t, v) == Some(subst_term(v, theta)),
        forall|v: TermV| body_has_var(body, v) ==> (#[trigger] spec_find(t, v)) is Some,
    decreases body.len(),
{
    if body.len() == 0 {
        let e = Seq::<(TermV, TermV)>::empty();
        assert(satisfies(kb, body, e));
        e
    } else {
        let rest = body.drop_first();
        assert forall|j: int| 0 <= j < rest.len() implies kb.contains(
            #[trigger] spec_substitute(rest[j], theta),
        ) by {
            assert(rest[j] == body[j + 1]);
        }
        let t1 = lemma_instances_satisfy(kb, rest, theta);
        let g = spec_substitute(body[0], theta);
        assert(kb.contains(g));
        assert(terms_in(g.args, syms()));
        let lowered = spec_substitute(body[0], t1);
        assert forall|i: int| 0 <= i < lowered.args.len() implies subst_term(
            lowered.args[i],
            theta,
        ) == g.args[i] by {
            assert(lowered.args[i] == subst_term(body[0].args[i], t1));
            assert(g.args[i] == subst_term(body[0].args[i], theta));
            assert(syms().contains(g.args[i]));
            if body[0].args[i] is Var && spec_find(t1, body[0].args[i]) is Some {
                crate::fixpoint::lemma_find_value(t1, body[0].args[i], syms());
            }
        }
        assert(spec_substitute(lowered, theta).args =~= g.args);
        assert(is_ground(g)) by {
            assert forall|i: int| 0 <= i < g.args.len() implies #[trigger] g.args[i] is Sym by {
                assert(syms().contains(g.args[i]));
            }
        }
        law_unify_finds_every_match(lowered, g, theta);
        let s2 = spec_unify(lowered, g)->Some_0;
        let t = t1 + s2;
        assert(extends_by(body[0], t1, g, t));
        assert(satisfies(kb, body, t));
        crate::laws::lemma_unify_args_binds(lowered.args, g.args);
        lemma_unify_args_pairs(lowered.args, g.args);
        crate::fixpoint::lemma_unify_args_facts(lowered.args, g.args, syms());
        crate::fixpoint::lemma_values_concat(t1, s2, syms());
        assert forall|v: TermV| #[trigger] spec_find(t, v) is Some implies spec_find(t, v) == Some(
            subst_term(v, theta),
        ) by {
            lemma_find_concat(t1, s2, v);
            if spec_find(t1, v) is None {
                lemma_find_pair(s2, v);
                let j = choose|j: int| 0 <= j < s2.len() && #[trigger] s2[j] == (v, spec_find(s2, v)->Some_0);
                let i = choose|i: int|
                    0 <= i < lowered.args.len() && #[trigger] s2[j] == (lowered.args[i], g.args[i])
                        && lowered.args[i] is Var;
                assert(lowered.args[i] == v);
                assert(lowered.args[i] == subst_term(body[0].args[i], t1));
                if body[0].args[i] is Var && spec_find(t1, body[0].args[i]) is Some {
                    crate::fixpoint::lemma_find_value(t1, body[0].args[i], syms());
                }
                assert(body[0].args[i] == v);
                assert(g.args[i] == subst_term(body[0].args[i], theta));
            }
        }
        assert forall|v: TermV| body_has_var(body, v) implies (#[trigger] spec_find(t, v)) is Some by {
            lemma_find_concat(t1, s2, v);
            let j = choose|j: int| 0 <= j < body.len() && crate::engine::atom_has_var(#[trigger] body[j], v);
            if j > 0 {
                assert(rest[j - 1] == body[j]);
                assert(body_has_var(rest, v));
            } else if spec_find(t1, v) is None {
                let i = choose|i: int| 0 <= i < body[0].args.len() && body[0].args[i] == v;
                assert(lowered.args[i] == v);
            }
        }
        t
    }
}

/// The instances of a range-restricted rule over ground facts are ground.
proof fn lemma_instances_ground(q: RuleV, facts: Set<AtomV>, theta: SubV)
    requires
        range_restricted(q),
        kb_args_in(facts, syms()),
        forall|j: int| 0 <= j < q.body.len() ==> facts.contains(#[trigger] spec_substitute(q.body[j], theta)),
    ensures
        terms_in(spec_substitute(q.head, theta).args, syms()),
{
    let a = spec_substitute(q.head, theta);
    assert forall|i: int| 0 <= i < a.args.len() implies syms().contains(#[trigger] a.args[i]) by {
        let v = q.head.args[i];
        assert(a.args[i] == subst_term(v, theta));
        if v is Var {
            assert(crate::engine::atom_has_var(q.head, v)) by {
                assert(q.head.args[i] == v);
            }
            let j = choose|j: int| 0 <= j < q.body.len() && crate::engine::atom_has_var(#[trigger] q.body[j], v);
            let k = choose|k: int| 0 <= k < q.body[j].args.len() && q.body[j].args[k] == v;
            let inst = spec_substitute(q.body[j], theta);
            assert(facts.contains(inst));
            assert(terms_in(inst.args, syms()));
            assert(inst.args[k] == subst_term(v, theta));
        }
    }
}

/// The answers of a query rule solved beside fact rules: the facts of its least
/// model in the query's relation are exactly the query's instances over the facts,
/// where neither the facts nor the query's body are in the query's relation.
pub proof fn lemma_model_answers(rs: Seq<RuleV>, m: Set<AtomV>, facts: Set<AtomV>, q: RuleV, rel: TermV)
    requires
        is_least_model(rs, m),
        rs.contains(q),
        forall|i: int| 0 <= i < rs.len() && rs[i] != q ==> (#[trigger] rs[i]).body.len() == 0 && facts.contains(rs[i].head),
        forall|g: AtomV| #[trigger] facts.contains(g) ==> exists|i: int| 0 <= i < rs.len() && (#[trigger] rs[i]).body.len() == 0 && rs[i].head == g,
        kb_args_in(facts, syms()),
        forall|g: AtomV| #[trigger] facts.contains(g) ==> g.relation != rel,
        q.head.relation == rel,
        forall|j: int| 0 <= j < q.body.len() ==> (#[trigger] q.body[j]).relation != rel,
        range_restricted(q),
    ensures
        forall|a: AtomV| (#[trigger] m.contains(a) && a.relation == rel) <==> instances(q, facts).contains(a),
{
    let inst = instances(q, facts);
    let k = facts.union(inst);
    assert(kb_args_in(k, syms())) by {
        assert forall|g: AtomV| k.contains(g) implies #[trigger] terms_in(g.args, syms()) by {
            if !facts.contains(g) {
                let theta = choose|theta: SubV|
                    (forall|j: int|
                        0 <= j < q.body.len() ==> facts.contains(#[trigger] spec_substitute(q.body[j], theta)))
                        && g == #[trigger] spec_substitute(q.head, theta);
                lemma_instances_ground(q, facts, theta);
            }
        }
    }
    assert forall|a: AtomV| #[trigger] derives(rs, k, a) implies k.contains(a) by {
        let (i, theta) = choose|i: int, theta: SubV|
            #![trigger satisfies(k, rs[i].body, theta), spec_substitute(rs[i].head, theta)]
            0 <= i < rs.len() && satisfies(k, rs[i].body, theta) && a == spec_substitute(rs[i].head, theta);
        if rs[i] == q {
            lemma_satisfies_instances(k, q.body, theta);
            assert forall|j: int| 0 <= j < q.body.len() implies facts.contains(
                #[trigger] spec_substitute(q.body[j], theta),
            ) by {
                let b = spec_substitute(q.body[j], theta);
                assert(k.contains(b));
                if inst.contains(b) {
                    let t2 = choose|t2: SubV|
                        (forall|jj: int|
                            0 <= jj < q.body.len() ==> facts.contains(#[trigger] spec_substitute(q.body[jj], t2)))
                            && b == #[trigger] spec_substitute(q.head, t2);
                    assert(b.relation == rel);
                }
            }
            assert(inst.contains(a));
        } else {
            assert(theta.len() == 0);
            let h = rs[i].head;
            assert(facts.contains(h));
            assert(terms_in(h.args, syms()));
            assert forall|j: int| 0 <= j < h.args.len() implies spec_substitute(h, theta).args[j] == h.args[j] by {
                assert(syms().contains(h.args[j]));
            }
            assert(spec_substitute(h, theta).args =~= h.args);
        }
    }
    assert(crate::fixpoint::closed_under(rs, k));
    assert(m.subset_of(k));
    // every fact is in the model
    assert forall|g: AtomV| facts.contains(g) implies m.contains(g) by {
        let i = choose|i: int| 0 <= i < rs.len() && (#[trigger] rs[i]).body.len() == 0 && rs[i].head == g;
        let e = Seq::<(TermV, TermV)>::empty();
        assert(terms_in(g.args, syms()));
        assert forall|j: int| 0 <= j < g.args.len() implies spec_substitute(g, e).args[j] == g.args[j] by {
            assert(syms().contains(g.args[j]));
        }
        assert(spec_substitute(rs[i].head, e).args =~= g.args);
        assert(rs[i].body =~= Seq::<AtomV>::empty());
        assert(satisfies(m, rs[i].body, e));
        assert(derives(rs, m, spec_substitute(rs[i].head, e)));
    }
    assert(kb_args_in(m, syms())) by {
        assert forall|g: AtomV| m.contains(g) implies #[trigger] terms_in(g.args, syms()) by {
            assert(k.contains(g));
        }
    }
    assert forall|a: AtomV| (#[trigger] m.contains(a) && a.relation == rel) <==> inst.contains(a) by {
        if m.contains(a) && a.relation == rel {
            assert(k.contains(a));
        }
        if inst.contains(a) {
            let theta = choose|theta: SubV|
                (forall|j: int|
                    0 <= j < q.body.len() ==> facts.contains(#[trigger] spec_substitute(q.body[j], theta)))
                    && a == #[trigger] spec_substitute(q.head, theta);
            assert forall|j: int| 0 <= j < q.body.len() implies m.contains(
                #[trigger] spec_substitute(q.body[j], theta),
            ) by {
                assert(facts.contains(spec_substitute(q.body[j], theta)));
            }
            let t = lemma_instances_satisfy(m, q.body, theta);
            assert forall|i: int| 0 <= i < q.head.args.len() implies spec_substitute(q.head, t).args[i]
                == a.args[i] by {
                let v = q.head.args[i];
                if v is Var {
                    assert(crate::engine::atom_has_var(q.head, v)) by {
                        assert(q.head.args[i] == v);
                    }
                    assert(spec_find(t, v) is Some);
                }
            }
            assert(spec_substitute(q.head, t).args =~= a.args);
            let qi = choose|i: int| 0 <= i < rs.len() && rs[i] == q;
            assert(satisfies(m, rs[qi].body, t));
            assert(derives(rs, m, spec_substitute(rs[qi].head, t)));
        }
    }
}

/// The stored facts, as atoms `field(entity, value)`.
pub open spec fn stored_atoms(store: StoreV) -> Set<AtomV> {
    Set::new(
        |a: AtomV|
            exists|u: Seq<char>| #[trigger] store.facts.contains_key(u) && a == fact_rule(store.facts[u]).head,
    )
}

/// The database is consistent: each stored fact is stored under its own id,
/// belongs to a transaction before the counter, and is indexed under each of its
/// keys; the index points each key at the fact it names, and only at stored facts.
pub open spec fn db_consistent(db: TxManagerV) -> bool {
    &&& index_names_facts(db.index)
    &&& index_backed(db.store.facts, db.index)
    &&& forall|u: Seq<char>|
        #[trigger] db.store.facts.contains_key(u) ==> {
            &&& db.store.facts[u].id == u
            &&& db.store.facts[u].tx_id < db.store.tx_id
            &&& forall|k: IndexKeyV| fact_keys(db.store.facts[u]).contains(k) ==> #[trigger] db.index.contains_key(k)
        }
}

/// No stored fact is in the relation `query0`, where a query's answers go.
pub open spec fn no_answer_facts(store: StoreV) -> bool {
    forall|u: Seq<char>| #[trigger] store.facts.contains_key(u) ==> store.facts[u].field != query0_name()
}

/// A body atom whose scans find every stored fact it can match: an entity and a
/// value, and either a variable relation, or a symbol relation other than
/// `query0` with a variable entity or value.
pub open spec fn scannable(a: AtomV) -> bool {
    &&& a.args.len() == 2
    &&& (a.relation is Var || (a.relation != TermV::Sym(query0_name()) && (a.args[0] is Var
        || a.args[1] is Var)))
}

/// Every atom of the query's body is scannable.
pub open spec fn scannable_body(q: RuleV) -> bool {
    forall|j: int| 0 <= j < q.body.len() ==> scannable(#[trigger] q.body[j])
}

/// The rows a query should answer over a store: for every substitution that makes
/// each atom of its body a stored fact, its head variables bound to what stands in
/// their place.
pub open spec fn expected_rows(q: RuleV, store: StoreV) -> Set<Map<Seq<char>, Seq<char>>> {
    Set::new(
        |row: Map<Seq<char>, Seq<char>>|
            exists|a: AtomV| #[trigger] instances(q, stored_atoms(store)).contains(a) && row == row_of(q.head.args, a.args),
    )
}

/// The scans of a body include the scans of each of its atoms.
proof fn lemma_body_scans_contains(body: Seq<AtomV>, j: int, s: ScanV)
    requires
        0 <= j < body.len(),
        atom_scans(body[j]).contains(s),
    ensures
        body_scans(body).contains(s),
    decreases body.len(),
{
    let rest = body.drop_last();
    let n = body.len() - 1;
    let i = choose|i: int| 0 <= i < atom_scans(body[j]).len() && atom_scans(body[j])[i] == s;
    if j == n {
        assert(body_scans(body)[body_scans(rest).len() + i] == s);
    } else {
        assert(rest[j] == body[j]);
        lemma_body_scans_contains(rest, j, s);
        let m = choose|m: int| 0 <= m < body_scans(rest).len() && body_scans(rest)[m] == s;
        assert(body_scans(body)[m] == s);
    }
}

/// A stored fact that an atom of a scannable body can match, under a consistent
/// index, is found by the scans of the body before the counter.
proof fn lemma_matchable_fact_scanned(db: TxManagerV, body: Seq<AtomV>, j: int, theta: SubV, u: Seq<char>)
    requires
        db_consistent(db),
        0 <= j < body.len(),
        scannable(body[j]),
        db.store.facts.contains_key(u),
        spec_substitute(body[j], theta) == fact_rule(db.store.facts[u]).head,
    ensures
        scanned_ids(db.index, body_scans(body), db.store.tx_id).contains(u),
{
    let h = db.store.facts[u];
    let b = body[j];
    let inst = spec_substitute(b, theta);
    let ks = fact_keys(h);
    let v = value_text(h.value);
    law_fact_keys_found_by_their_scans(h);
    assert(b.relation == TermV::Sym(h.field));
    assert(inst.args[0] == subst_term(b.args[0], theta));
    assert(inst.args[1] == subst_term(b.args[1], theta));
    let ki: int = if b.args[0] is Var && b.args[1] is Var {
        2
    } else if b.args[0] is Var {
        3
    } else {
        1
    };
    let s: ScanV = if b.args[0] is Var && b.args[1] is Var {
        ScanV::Field(h.field)
    } else if b.args[0] is Var {
        ScanV::FieldValue(h.field, v)
    } else {
        ScanV::EntityField(h.entity, h.field)
    };
    assert(atom_scans(b) == seq![s]);
    assert(atom_scans(b)[0] == s);
    lemma_body_scans_contains(body, j, s);
    let k = ks[ki];
    assert(ks.contains(k));
    assert(db.index.contains_key(k));
    assert(db.index[k] == k.fact_uri);
    assert(k.fact_uri == u);
    let scans = body_scans(body);
    let m = choose|m: int| 0 <= m < scans.len() && scans[m] == s;
    assert(scan_prefix(scans[m]).is_prefix_of(key_text(k)));
    assert(key_scanned(k, scans, db.store.tx_id));
}

/// Stating facts keeps a database consistent, where the facts belong to the
/// transaction the counter names.
pub proof fn law_state_keeps_db_consistent(before: TxManagerV, fs: Seq<FactV>)
    requires
        db_consistent(before),
        before.store.tx_id < u64::MAX,
        forall|j: int| 0 <= j < fs.len() ==> (#[trigger] fs[j]).tx_id == before.store.tx_id,
    ensures
        db_consistent(stated(before, fs)),
{
    let after = stated(before, fs);
    law_state_loses_nothing(before, fs);
    assert forall|u: Seq<char>| #[trigger] after.store.facts.contains_key(u) implies {
        &&& after.store.facts[u].id == u
        &&& after.store.facts[u].tx_id < after.store.tx_id
        &&& forall|k: IndexKeyV| fact_keys(after.store.facts[u]).contains(k) ==> #[trigger] after.index.contains_key(k)
    } by {
        crate::laws::lemma_insert_facts_dom(before.store.facts, fs, u);
        if exists|j: int| 0 <= j < fs.len() && (#[trigger] fs[j]).id == u {
            let p = lemma_last_with_id(fs, u);
            crate::laws::lemma_insert_facts_own(before.store.facts, fs, p);
            assert forall|k: IndexKeyV| fact_keys(after.store.facts[u]).contains(k) implies #[trigger] after.index.contains_key(k) by {
                assert(fact_keys(fs[p]).contains(k));
            }
        } else {
            crate::laws::lemma_insert_facts_other(before.store.facts, fs, u);
            assert forall|k: IndexKeyV| fact_keys(after.store.facts[u]).contains(k) implies #[trigger] after.index.contains_key(k) by {
                assert(before.index.contains_key(k));
            }
        }
    }
}

/// The last fact under an id that some fact has.
proof fn lemma_last_with_id(fs: Seq<FactV>, u: Seq<char>) -> (p: int)
    requires
        exists|j: int| 0 <= j < fs.len() && (#[trigger] fs[j]).id == u,
    ensures
        0 <= p < fs.len(),
        fs[p].id == u,
        id_not_reused(fs, p),
    decreases fs.len(),
{
    let n = fs.len() - 1;
    if fs[n].id == u {
        n
    } else {
        let rest = fs.drop_last();
        let j = choose|j: int| 0 <= j < fs.len() && (#[trigger] fs[j]).id == u;
        assert(rest[j].id == u);
        let p = lemma_last_with_id(rest, u);
        assert(fs[p] == rest[p]);
        assert forall|i: int| p < i < fs.len() implies (#[trigger] fs[i]).id != fs[p].id by {
            if i < n {
                assert(rest[i] == fs[i]);
            }
        }
        p
    }
}

/// A fresh database is consistent and holds no answers.
pub proof fn law_fresh_db_consistent()
    ensures
        db_consistent(crate::laws::fresh_db()),
        no_answer_facts(crate::laws::fresh_db().store),
{
}

/// A run of `state` calls from a fresh database leaves it consistent, and holds no
/// answers where no stated fact is in the relation `query0`.
pub proof fn law_runs_stay_consistent(batches: Seq<Seq<FactV>>)
    requires
        crate::laws::numbered(batches),
        batches.len() < u64::MAX,
    ensures
        db_consistent(crate::laws::run(batches)),
        (forall|p: int|
            0 <= p < crate::laws::all_stated(batches).len() ==> (#[trigger] crate::laws::all_stated(
                batches,
            )[p]).field != query0_name()) ==> no_answer_facts(crate::laws::run(batches).store),
    decreases batches.len(),
{
    let db = crate::laws::run(batches);
    crate::laws::lemma_run(batches);
    if batches.len() > 0 {
        let prev = batches.drop_last();
        assert(crate::laws::numbered(prev)) by {
            assert forall|k: int, j: int|
                0 <= k < prev.len() && 0 <= j < prev[k].len() implies (#[trigger] prev[k][j]).tx_id == k by {
                assert(prev[k] == batches[k]);
                assert(batches[k][j] == prev[k][j]);
            }
        }
        law_runs_stay_consistent(prev);
        crate::laws::lemma_run(prev);
        let n = prev.len() as int;
        assert forall|j: int| 0 <= j < batches.last().len() implies (#[trigger] batches.last()[j]).tx_id
            == crate::laws::run(prev).store.tx_id by {
            assert(batches[n] == batches.last());
            assert(batches[n][j] == batches.last()[j]);
        }
        law_state_keeps_db_consistent(crate::laws::run(prev), batches.last());
    }
    let facts = crate::laws::all_stated(batches);
    if forall|p: int| 0 <= p < facts.len() ==> (#[trigger] facts[p]).field != query0_name() {
        assert forall|u: Seq<char>| #[trigger] db.store.facts.contains_key(u) implies db.store.facts[u].field
            != query0_name() by {
            crate::laws::lemma_insert_facts_from(facts, u);
        }
    }
}

/// Over a consistent database no query plan at the current transaction fails:
/// every id the index points at is stored.
pub proof fn law_consistent_plans_do_not_fail(db: TxManagerV, q: RuleV)
    requires
        db_consistent(db),
    ensures
        !plan_fails(query_plan(q, db.store.tx_id), db.store, db.index),
{
    let tx = db.store.tx_id;
    let scans = body_scans(q.body);
    assert(!scan_fails(db.store, db.index, scans, tx)) by {
        if scan_fails(db.store, db.index, scans, tx) {
            let u = choose|u: Seq<char>|
                #[trigger] scanned_ids(db.index, scans, tx).contains(u) && !db.store.facts.contains_key(u);
            let k = choose|k: IndexKeyV|
                #[trigger] db.index.contains_key(k) && key_scanned(k, scans, tx) && db.index[k] == u;
        }
    }
    reveal_with_fuel(plan_fails, 2);
}

/// What a query answers: over a consistent database with no stored fact in the
/// relation `query0`, a query `query0(vars) :- body` whose body atoms are all
/// scannable and whose head variables all occur in its body does not fail, and its
/// rows, as a set, are exactly the rows of its head under every substitution that
/// makes each atom of its body a stored fact. (A body atom with a symbol relation
/// and both entity and value symbols has no scan, and one in the relation `query0`
/// could match the query's own answers: such queries are left out.)
pub proof fn law_query_answers_its_instances(db: TxManagerV, q: RuleV, atoms: Seq<AtomV>, rs: Seq<RuleV>)
    requires
        db_consistent(db),
        no_answer_facts(db.store),
        q.head.relation == TermV::Sym(query0_name()),
        scannable_body(q),
        range_restricted(q),
    ensures
        ({
            let plan = query_plan(q, db.store.tx_id);
            &&& !plan_fails(plan, db.store, db.index)
            &&& rs.to_set() == plan_loaded(plan, db.store, db.index).insert(q) && is_least_model(
                rs,
                atoms.to_set(),
            ) ==> answer_rows(atoms, q.head.args).to_set() == expected_rows(q, db.store)
        }),
{
    let tx = db.store.tx_id;
    let plan = query_plan(q, tx);
    let scans = body_scans(q.body);
    let lr = loaded_rules(db.store, db.index, scans, tx);
    let rel = TermV::Sym(query0_name());
    assert(plan_loaded(plan, db.store, db.index) == lr) by {
        reveal_with_fuel(plan_loaded, 2);
        assert(lr.union(Set::empty()) =~= lr);
    }
    law_consistent_plans_do_not_fail(db, q);
    if rs.to_set() == lr.insert(q) && is_least_model(rs, atoms.to_set()) {
        let m = atoms.to_set();
        let stored = stored_atoms(db.store);
        let f = Set::new(|g: AtomV| exists|r: RuleV| #[trigger] lr.contains(r) && g == r.head);
        // the loaded facts are stored, ground, and not answers
        assert forall|r: RuleV| #[trigger] lr.contains(r) implies exists|u: Seq<char>|
            db.store.facts.contains_key(u) && r == fact_rule(#[trigger] db.store.facts[u]) by {
            let u = choose|u: Seq<char>| scanned_ids(db.index, scans, tx).contains(u) && r == fact_rule(db.store.facts[u]);
            let k = choose|k: IndexKeyV|
                #[trigger] db.index.contains_key(k) && key_scanned(k, scans, tx) && db.index[k] == u;
        }
        assert(kb_args_in(f, syms())) by {
            assert forall|g: AtomV| f.contains(g) implies #[trigger] terms_in(g.args, syms()) by {
                let r = choose|r: RuleV| #[trigger] lr.contains(r) && g == r.head;
                let u = choose|u: Seq<char>| db.store.facts.contains_key(u) && r == fact_rule(#[trigger] db.store.facts[u]);
                assert forall|i: int| 0 <= i < g.args.len() implies syms().contains(#[trigger] g.args[i]) by {}
            }
        }
        assert forall|g: AtomV| #[trigger] f.contains(g) implies g.relation != rel && stored.contains(g) by {
            let r = choose|r: RuleV| #[trigger] lr.contains(r) && g == r.head;
            let u = choose|u: Seq<char>| db.store.facts.contains_key(u) && r == fact_rule(#[trigger] db.store.facts[u]);
        }
        assert forall|i: int| 0 <= i < rs.len() && rs[i] != q implies (#[trigger] rs[i]).body.len() == 0
            && f.contains(rs[i].head) by {
            assert(rs.to_set().contains(rs[i]));
            assert(lr.contains(rs[i]));
            let u = choose|u: Seq<char>| db.store.facts.contains_key(u) && rs[i] == fact_rule(#[trigger] db.store.facts[u]);
        }
        assert forall|g: AtomV| #[trigger] f.contains(g) implies exists|i: int|
            0 <= i < rs.len() && (#[trigger] rs[i]).body.len() == 0 && rs[i].head == g by {
            let r = choose|r: RuleV| #[trigger] lr.contains(r) && g == r.head;
            let u = choose|u: Seq<char>| db.store.facts.contains_key(u) && r == fact_rule(#[trigger] db.store.facts[u]);
            assert(rs.to_set().contains(r));
            let i = choose|i: int| 0 <= i < rs.len() && rs[i] == r;
        }
        assert(rs.to_set().contains(q));
        assert(rs.contains(q));
        assert forall|j: int| 0 <= j < q.body.len() implies (#[trigger] q.body[j]).relation != rel by {
            assert(scannable(q.body[j]));
        }
        lemma_model_answers(rs, m, f, q, rel);
        // the instances over the loaded facts are those over the stored facts
        assert forall|a: AtomV| instances(q, stored).contains(a) implies #[trigger] instances(q, f).contains(a) by {
            let theta = choose|theta: SubV|
                (forall|j: int|
                    0 <= j < q.body.len() ==> stored.contains(#[trigger] spec_substitute(q.body[j], theta)))
                    && a == #[trigger] spec_substitute(q.head, theta);
            assert forall|j: int| 0 <= j < q.body.len() implies f.contains(
                #[trigger] spec_substitute(q.body[j], theta),
            ) by {
                let b = spec_substitute(q.body[j], theta);
                assert(stored.contains(b));
                let u = choose|u: Seq<char>| #[trigger] db.store.facts.contains_key(u) && b == fact_rule(db.store.facts[u]).head;
                assert(scannable(q.body[j]));
                lemma_matchable_fact_scanned(db, q.body, j, theta, u);
                assert(lr.contains(fact_rule(db.store.facts[u])));
            }
        }
        assert forall|a: AtomV| instances(q, f).contains(a) implies #[trigger] instances(q, stored).contains(a) by {
            let theta = choose|theta: SubV|
                (forall|j: int|
                    0 <= j < q.body.len() ==> f.contains(#[trigger] spec_substitute(q.body[j], theta)))
                    && a == #[trigger] spec_substitute(q.head, theta);
            assert forall|j: int| 0 <= j < q.body.len() implies stored.contains(
                #[trigger] spec_substitute(q.body[j], theta),
            ) by {
                assert(f.contains(spec_substitute(q.body[j], theta)));
            }
        }
        let rows = answer_rows(atoms, q.head.args);
        assert forall|row: Map<Seq<char>, Seq<char>>| rows.to_set().contains(row) <==> expected_rows(q, db.store).contains(row) by {
            if rows.contains(row) {
                lemma_answer_rows_member(atoms, q.head.args, row);
                let a = choose|a: AtomV|
                    atoms.contains(a) && a.relation == rel && row == row_of(q.head.args, a.args);
                assert(m.contains(a));
                assert(instances(q, f).contains(a));
                assert(instances(q, stored).contains(a));
            }
            if expected_rows(q, db.store).contains(row) {
                let a = choose|a: AtomV| #[trigger] instances(q, stored).contains(a) && row == row_of(q.head.args, a.args);
                assert(instances(q, f).contains(a));
                let theta = choose|theta: SubV|
                    (forall|j: int|
                        0 <= j < q.body.len() ==> f.contains(#[trigger] spec_substitute(q.body[j], theta)))
                        && a == #[trigger] spec_substitute(q.head, theta);
                assert(a.relation == rel);
                assert(m.contains(a));
                assert(atoms.contains(a));
                lemma_answer_rows_contains(atoms, q.head.args, a);
            }
        }
        assert(rows.to_set() =~= expected_rows(q, db.store));
    }
}

} // verus!
