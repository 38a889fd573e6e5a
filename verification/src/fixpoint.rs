//! The meaning of a rule set: the facts it entails, as the least set of facts
//! closed under its rules, and the facts that the engine's evaluation order
//! computes for it.

use vstd::prelude::*;

use crate::engine::{
    atom_has_var, body_has_var, is_ground, range_restricted, spec_eval_atom,
    spec_eval_atom_one, spec_eval_rule, spec_find, spec_substitute, spec_unify, subst_term,
    unify_args, unify_args_defined, unify_defined, walk, walk_defined, eval_atom_defined, AtomV,
    RuleV, SubV, TermV,
};
use crate::seq_facts::{lemma_concat_contains, lemma_push_contains};

verus! {

/// `x` is `sub` extended with the bindings that match `atom` (under `sub`) against `g`.
pub open spec fn extends_by(atom: AtomV, sub: SubV, g: AtomV, x: SubV) -> bool {
    match spec_unify(spec_substitute(atom, sub), g) {
        Some(s2) => x == sub + s2,
        None => false,
    }
}

/// `theta` satisfies every atom of `body` against the facts of `kb`, having been
/// built by matching the atoms from last to first.
pub open spec fn satisfies(kb: Set<AtomV>, body: Seq<AtomV>, theta: SubV) -> bool
    decreases body.len(),
{
    if body.len() == 0 {
        theta.len() == 0
    } else {
        exists|t1: SubV, g: AtomV|
            #![trigger extends_by(body[0], t1, g, theta)]
            satisfies(kb, body.drop_first(), t1) && kb.contains(g) && extends_by(
                body[0],
                t1,
                g,
                theta,
            )
    }
}

/// Some rule of `rules` yields `a` from the facts of `kb`.
pub open spec fn derives(rules: Seq<RuleV>, kb: Set<AtomV>, a: AtomV) -> bool {
    exists|i: int, theta: SubV|
        #![trigger satisfies(kb, rules[i].body, theta), spec_substitute(rules[i].head, theta)]
        0 <= i < rules.len() && satisfies(kb, rules[i].body, theta) && a == spec_substitute(
            rules[i].head,
            theta,
        )
}

/// `kb` holds every fact that the rules yield from it.
pub open spec fn closed_under(rules: Seq<RuleV>, kb: Set<AtomV>) -> bool {
    forall|a: AtomV| #[trigger] derives(rules, kb, a) ==> kb.contains(a)
}

/// `m` is the least set of facts closed under the rules: the facts the rules entail.
pub open spec fn is_least_model(rules: Seq<RuleV>, m: Set<AtomV>) -> bool {
    &&& closed_under(rules, m)
    &&& forall|k: Set<AtomV>| #[trigger] closed_under(rules, k) ==> m.subset_of(k)
}

/// One round of evaluation: the facts of `kb` and those the rules yield from it.
pub open spec fn consequence(rules: Seq<RuleV>, kb: Set<AtomV>) -> Set<AtomV> {
    Set::new(|a: AtomV| kb.contains(a) || derives(rules, kb, a))
}

pub proof fn lemma_eval_atom_one_member(kb: Seq<AtomV>, sub: SubV, atom: AtomV, x: SubV)
    ensures
        spec_eval_atom_one(kb, sub, atom).contains(x) <==> exists|j: int|
            0 <= j < kb.len() && #[trigger] extends_by(atom, sub, kb[j], x),
    decreases kb.len(),
{
    if kb.len() > 0 {
        let rest = spec_eval_atom_one(kb.drop_last(), sub, atom);
        lemma_eval_atom_one_member(kb.drop_last(), sub, atom, x);
        match spec_unify(spec_substitute(atom, sub), kb.last()) {
            Some(s2) => {
                lemma_push_contains(rest, sub + s2, x);
                if x == sub + s2 {
                    assert(extends_by(atom, sub, kb[kb.len() - 1], x));
                }
            },
            None => {},
        }
        if exists|j: int| 0 <= j < kb.len() && #[trigger] extends_by(atom, sub, kb[j], x) {
            let j = choose|j: int| 0 <= j < kb.len() && #[trigger] extends_by(atom, sub, kb[j], x);
            if j < kb.len() - 1 {
                assert(kb.drop_last()[j] == kb[j]);
            }
        }
        if exists|j: int|
            0 <= j < kb.drop_last().len() && #[trigger] extends_by(atom, sub, kb.drop_last()[j], x) {
            let j = choose|j: int|
                0 <= j < kb.drop_last().len() && #[trigger] extends_by(
                    atom,
                    sub,
                    kb.drop_last()[j],
                    x,
                );
            assert(kb.drop_last()[j] == kb[j]);
        }
    }
}

pub proof fn lemma_eval_atom_member(kb: Seq<AtomV>, subs: Seq<SubV>, atom: AtomV, x: SubV)
    ensures
        spec_eval_atom(kb, subs, atom).contains(x) <==> exists|i: int, j: int|
            0 <= i < subs.len() && 0 <= j < kb.len() && #[trigger] extends_by(
                atom,
                subs[i],
                kb[j],
                x,
            ),
    decreases subs.len(),
{
    if subs.len() > 0 {
        lemma_eval_atom_member(kb, subs.drop_last(), atom, x);
        lemma_eval_atom_one_member(kb, subs.last(), atom, x);
        lemma_concat_contains(
            spec_eval_atom(kb, subs.drop_last(), atom),
            spec_eval_atom_one(kb, subs.last(), atom),
            x,
        );
        if exists|i: int, j: int|
            0 <= i < subs.len() && 0 <= j < kb.len() && #[trigger] extends_by(
                atom,
                subs[i],
                kb[j],
                x,
            ) {
            let (i, j) = choose|i: int, j: int|
                0 <= i < subs.len() && 0 <= j < kb.len() && #[trigger] extends_by(
                    atom,
                    subs[i],
                    kb[j],
                    x,
                );
            if i < subs.len() - 1 {
                assert(subs.drop_last()[i] == subs[i]);
            }
        }
        if exists|i: int, j: int|
            0 <= i < subs.drop_last().len() && 0 <= j < kb.len() && #[trigger] extends_by(
                atom,
                subs.drop_last()[i],
                kb[j],
                x,
            ) {
            let (i, j) = choose|i: int, j: int|
                0 <= i < subs.drop_last().len() && 0 <= j < kb.len() && #[trigger] extends_by(
                    atom,
                    subs.drop_last()[i],
                    kb[j],
                    x,
                );
            assert(subs.drop_last()[i] == subs[i]);
        }
    }
}

/// The walked substitutions are exactly those that satisfy the body against the facts.
pub proof fn lemma_walk_member(kb: Seq<AtomV>, body: Seq<AtomV>, theta: SubV)
    ensures
        walk(kb, body).contains(theta) <==> satisfies(kb.to_set(), body, theta),
    decreases body.len(),
{
    if body.len() == 0 {
        let e = Seq::<(TermV, TermV)>::empty();
        if theta.len() == 0 {
            assert(theta =~= e);
            assert(walk(kb, body)[0] == e);
        }
        if walk(kb, body).contains(theta) {
            assert(walk(kb, body)[0] == theta);
        }
    } else {
        let rest = body.drop_first();
        let ws = walk(kb, rest);
        lemma_eval_atom_member(kb, ws, body[0], theta);
        if walk(kb, body).contains(theta) {
            let (i, j) = choose|i: int, j: int|
                0 <= i < ws.len() && 0 <= j < kb.len() && #[trigger] extends_by(
                    body[0],
                    ws[i],
                    kb[j],
                    theta,
                );
            assert(ws.contains(ws[i]));
            lemma_walk_member(kb, rest, ws[i]);
            assert(kb.to_set().contains(kb[j]));
            assert(extends_by(body[0], ws[i], kb[j], theta));
        }
        if satisfies(kb.to_set(), body, theta) {
            let (t1, g) = choose|t1: SubV, g: AtomV|
                #![trigger extends_by(body[0], t1, g, theta)]
                satisfies(kb.to_set(), rest, t1) && kb.to_set().contains(g) && extends_by(
                    body[0],
                    t1,
                    g,
                    theta,
                );
            lemma_walk_member(kb, rest, t1);
            let i = choose|i: int| 0 <= i < ws.len() && ws[i] == t1;
            let j = choose|j: int| 0 <= j < kb.len() && kb[j] == g;
            assert(extends_by(body[0], ws[i], kb[j], theta));
        }
    }
}

/// The facts a rule yields against `kb` are its head under each satisfying substitution.
pub proof fn lemma_eval_rule_member(kb: Seq<AtomV>, rule: RuleV, a: AtomV)
    ensures
        spec_eval_rule(kb, rule).contains(a) <==> exists|theta: SubV|
            satisfies(kb.to_set(), rule.body, theta) && a == #[trigger] spec_substitute(
                rule.head,
                theta,
            ),
{
    let ws = walk(kb, rule.body);
    if spec_eval_rule(kb, rule).contains(a) {
        let i = choose|i: int|
            0 <= i < spec_eval_rule(kb, rule).len() && spec_eval_rule(kb, rule)[i] == a;
        assert(ws.contains(ws[i]));
        lemma_walk_member(kb, rule.body, ws[i]);
        assert(a == spec_substitute(rule.head, ws[i]));
    }
    if exists|theta: SubV|
        satisfies(kb.to_set(), rule.body, theta) && a == #[trigger] spec_substitute(
            rule.head,
            theta,
        ) {
        let theta = choose|theta: SubV|
            satisfies(kb.to_set(), rule.body, theta) && a == #[trigger] spec_substitute(
                rule.head,
                theta,
            );
        lemma_walk_member(kb, rule.body, theta);
        let i = choose|i: int| 0 <= i < ws.len() && ws[i] == theta;
        assert(spec_eval_rule(kb, rule)[i] == a);
    }
}

/// Satisfaction only grows with the set of facts.
pub proof fn lemma_satisfies_mono(k1: Set<AtomV>, k2: Set<AtomV>, body: Seq<AtomV>, theta: SubV)
    requires
        k1.subset_of(k2),
        satisfies(k1, body, theta),
    ensures
        satisfies(k2, body, theta),
    decreases body.len(),
{
    if body.len() > 0 {
        let (t1, g) = choose|t1: SubV, g: AtomV|
            #![trigger extends_by(body[0], t1, g, theta)]
            satisfies(k1, body.drop_first(), t1) && k1.contains(g) && extends_by(
                body[0],
                t1,
                g,
                theta,
            );
        lemma_satisfies_mono(k1, k2, body.drop_first(), t1);
        assert(extends_by(body[0], t1, g, theta));
    }
}

/// What rules yield only grows with the set of facts.
pub proof fn lemma_derives_mono(rules: Seq<RuleV>, k1: Set<AtomV>, k2: Set<AtomV>, a: AtomV)
    requires
        k1.subset_of(k2),
        derives(rules, k1, a),
    ensures
        derives(rules, k2, a),
{
    let (i, theta) = choose|i: int, theta: SubV|
        #![trigger satisfies(k1, rules[i].body, theta), spec_substitute(rules[i].head, theta)]
        0 <= i < rules.len() && satisfies(k1, rules[i].body, theta) && a == spec_substitute(
            rules[i].head,
            theta,
        );
    lemma_satisfies_mono(k1, k2, rules[i].body, theta);
    assert(satisfies(k2, rules[i].body, theta));
}


/// Every term of `ts` belongs to `p`.
pub open spec fn terms_in(ts: Seq<TermV>, p: Set<TermV>) -> bool {
    forall|i: int| 0 <= i < ts.len() ==> p.contains(#[trigger] ts[i])
}

/// Every replacement of `s` belongs to `p`.
pub open spec fn values_in(s: SubV, p: Set<TermV>) -> bool {
    forall|k: int| 0 <= k < s.len() ==> p.contains(#[trigger] s[k].1)
}

/// Every argument of every fact of `kb` belongs to `p`.
pub open spec fn kb_args_in(kb: Set<AtomV>, p: Set<TermV>) -> bool {
    forall|g: AtomV| kb.contains(g) ==> #[trigger] terms_in(g.args, p)
}

pub proof fn lemma_find_concat(a: SubV, b: SubV, t: TermV)
    ensures
        spec_find(a + b, t) == (match spec_find(a, t) {
            Some(v) => Some(v),
            None => spec_find(b, t),
        }),
    decreases a.len(),
{
    if a.len() == 0 {
        assert(a + b =~= b);
    } else {
        assert((a + b).drop_first() =~= a.drop_first() + b);
        lemma_find_concat(a.drop_first(), b, t);
    }
}

pub proof fn lemma_find_value(s: SubV, t: TermV, p: Set<TermV>)
    requires
        values_in(s, p),
        spec_find(s, t) is Some,
    ensures
        p.contains(spec_find(s, t)->0),
    decreases s.len(),
{
    if s[0].0 != t {
        assert(values_in(s.drop_first(), p)) by {
            assert forall|k: int| 0 <= k < s.drop_first().len() implies p.contains(
                #[trigger] s.drop_first()[k].1,
            ) by {
                assert(s.drop_first()[k] == s[k + 1]);
            }
        }
        lemma_find_value(s.drop_first(), t, p);
    } else {
        assert(p.contains(s[0].1));
    }
}

pub proof fn lemma_values_concat(a: SubV, b: SubV, p: Set<TermV>)
    requires
        values_in(a, p),
        values_in(b, p),
    ensures
        values_in(a + b, p),
{
    assert forall|k: int| 0 <= k < (a + b).len() implies p.contains(#[trigger] (a + b)[k].1) by {
        if k < a.len() {
            assert((a + b)[k] == a[k]);
        } else {
            assert((a + b)[k] == b[k - a.len()]);
        }
    }
}

/// Unifying against facts whose arguments lie in `p` binds only terms of `p`,
/// and binds every variable of the pattern.
pub proof fn lemma_unify_args_facts(xs: Seq<TermV>, ys: Seq<TermV>, p: Set<TermV>)
    requires
        unify_args(xs, ys) is Some,
        xs.len() == ys.len(),
        terms_in(ys, p),
    ensures
        values_in(unify_args(xs, ys)->0, p),
        forall|i: int|
            0 <= i < xs.len() && (#[trigger] xs[i]) is Var ==> spec_find(
                unify_args(xs, ys)->0,
                xs[i],
            ) is Some,
    decreases xs.len(),
{
    if xs.len() > 0 {
        let rx = xs.drop_first();
        let ry = ys.drop_first();
        assert(terms_in(ry, p)) by {
            assert forall|i: int| 0 <= i < ry.len() implies p.contains(#[trigger] ry[i]) by {
                assert(ry[i] == ys[i + 1]);
            }
        }
        assert(unify_args(rx, ry) is Some);
        lemma_unify_args_facts(rx, ry, p);
        let inc = unify_args(rx, ry)->0;
        let s = unify_args(xs, ys)->0;
        assert(p.contains(ys[0]));
        if xs[0] is Var {
            assert(s == seq![(xs[0], ys[0])] + inc);
            lemma_values_concat(seq![(xs[0], ys[0])], inc, p);
        }
        assert forall|i: int| 0 <= i < xs.len() && (#[trigger] xs[i]) is Var implies spec_find(
            s,
            xs[i],
        ) is Some by {
            if xs[0] is Var {
                if xs[i] != xs[0] {
                    assert(s.drop_first() =~= inc);
                    assert(rx[i - 1] == xs[i]);
                }
            } else {
                assert(rx[i - 1] == xs[i]);
            }
        }
    }
}

/// A variable that the substitution does not bind stays in place.
pub proof fn lemma_substitute_keeps_unbound(a: AtomV, theta: SubV, i: int)
    requires
        0 <= i < a.args.len(),
        a.args[i] is Var,
        spec_find(theta, a.args[i]) is None,
    ensures
        spec_substitute(a, theta).args[i] == a.args[i],
{
}

/// A substitution that satisfies a body against facts over `p` binds only terms
/// of `p` and binds every variable of the body.
pub proof fn lemma_satisfies_facts(kb: Set<AtomV>, body: Seq<AtomV>, theta: SubV, p: Set<TermV>)
    requires
        satisfies(kb, body, theta),
        kb_args_in(kb, p),
    ensures
        values_in(theta, p),
        forall|t: TermV| body_has_var(body, t) ==> (#[trigger] spec_find(theta, t)) is Some,
    decreases body.len(),
{
    if body.len() > 0 {
        let rest = body.drop_first();
        let (t1, g) = choose|t1: SubV, g: AtomV|
            #![trigger extends_by(body[0], t1, g, theta)]
            satisfies(kb, rest, t1) && kb.contains(g) && extends_by(body[0], t1, g, theta);
        lemma_satisfies_facts(kb, rest, t1, p);
        let lowered = spec_substitute(body[0], t1);
        let s2 = spec_unify(lowered, g)->0;
        assert(terms_in(g.args, p));
        lemma_unify_args_facts(lowered.args, g.args, p);
        lemma_values_concat(t1, s2, p);
        assert forall|t: TermV| body_has_var(body, t) implies (#[trigger] spec_find(
            theta,
            t,
        )) is Some by {
            lemma_find_concat(t1, s2, t);
            let j = choose|j: int| 0 <= j < body.len() && atom_has_var(#[trigger] body[j], t);
            if j > 0 {
                assert(rest[j - 1] == body[j]);
                assert(body_has_var(rest, t));
            } else if spec_find(t1, t) is None {
                let i = choose|i: int| 0 <= i < body[0].args.len() && body[0].args[i] == t;
                lemma_substitute_keeps_unbound(body[0], t1, i);
                assert(lowered.args[i] == t);
            }
        }
    }
}

/// Every head symbol of the rules.
pub open spec fn head_syms(rules: Seq<RuleV>) -> Set<TermV>
    decreases rules.len(),
{
    if rules.len() == 0 {
        Set::empty()
    } else {
        head_syms(rules.drop_last()).union(
            rules.last().head.args.to_set().filter(|t: TermV| t is Sym),
        )
    }
}

pub proof fn lemma_head_syms(rules: Seq<RuleV>)
    ensures
        head_syms(rules).finite(),
        forall|t: TermV| #[trigger] head_syms(rules).contains(t) ==> t is Sym,
        forall|i: int, k: int|
            0 <= i < rules.len() && 0 <= k < rules[i].head.args.len() && (
            #[trigger] rules[i].head.args[k]) is Sym ==> head_syms(rules).contains(
                rules[i].head.args[k],
            ),
    decreases rules.len(),
{
    if rules.len() > 0 {
        let init = rules.drop_last();
        lemma_head_syms(init);
        let last = rules.last().head.args.to_set().filter(|t: TermV| t is Sym);
        assert(last.finite()) by {
            vstd::seq_lib::seq_to_set_is_finite(rules.last().head.args);
            vstd::set_lib::lemma_set_subset_finite(rules.last().head.args.to_set(), last);
        }
        vstd::set_lib::lemma_set_union_finite_iff(head_syms(init), last);
        assert forall|i: int, k: int|
            0 <= i < rules.len() && 0 <= k < rules[i].head.args.len() && (
            #[trigger] rules[i].head.args[k]) is Sym implies head_syms(rules).contains(
                rules[i].head.args[k],
            ) by {
            if i < rules.len() - 1 {
                assert(init[i] == rules[i]);
                assert(head_syms(init).contains(init[i].head.args[k]));
            } else {
                assert(rules.last().head.args.contains(rules[i].head.args[k]));
            }
        }
    }
}

/// The sequences of length `n` over `p`.
pub open spec fn seqs_over(p: Set<TermV>, n: nat) -> Set<Seq<TermV>>
    decreases n,
{
    if n == 0 {
        set![Seq::empty()]
    } else {
        seqs_over(p, (n - 1) as nat).map(
            |s: Seq<TermV>| p.map(|t: TermV| s.push(t)),
        ).flatten()
    }
}

pub proof fn lemma_seqs_over(p: Set<TermV>, n: nat)
    requires
        p.finite(),
    ensures
        seqs_over(p, n).finite(),
        forall|s: Seq<TermV>| s.len() == n && terms_in(s, p) ==> #[trigger] seqs_over(
            p,
            n,
        ).contains(s),
    decreases n,
{
    if n == 0 {
        assert forall|s: Seq<TermV>| s.len() == n && terms_in(s, p) implies #[trigger] seqs_over(
            p,
            n,
        ).contains(s) by {
            assert(s =~= Seq::<TermV>::empty());
        }
    } else {
        let prev = seqs_over(p, (n - 1) as nat);
        lemma_seqs_over(p, (n - 1) as nat);
        let f = |s: Seq<TermV>| p.map(|t: TermV| s.push(t));
        prev.lemma_map_finite(f);
        assert forall|e: Set<Seq<TermV>>| prev.map(f).contains(e) implies #[trigger] e.finite() by {
            let s = choose|s: Seq<TermV>| prev.contains(s) && e == f(s);
            p.lemma_map_finite(|t: TermV| s.push(t));
        }
        prev.map(f).lemma_flatten_finite();
        assert forall|s: Seq<TermV>| s.len() == n && terms_in(s, p) implies #[trigger] seqs_over(
            p,
            n,
        ).contains(s) by {
            let init = s.drop_last();
            assert(terms_in(init, p)) by {
                assert forall|i: int| 0 <= i < init.len() implies p.contains(#[trigger] init[i]) by {
                    assert(init[i] == s[i]);
                }
            }
            assert(prev.contains(init));
            assert(p.contains(s.last()));
            assert(init.push(s.last()) =~= s);
            assert(f(init).contains(s));
            assert(prev.map(f).contains(f(init)));
        }
    }
}

/// The atoms that agree with some rule head in relation and arity and whose
/// arguments are all terms of `p`.
pub open spec fn universe(rules: Seq<RuleV>, p: Set<TermV>) -> Set<AtomV>
    decreases rules.len(),
{
    if rules.len() == 0 {
        Set::empty()
    } else {
        let h = rules.last().head;
        universe(rules.drop_last(), p).union(
            seqs_over(p, h.args.len()).map(|s: Seq<TermV>| AtomV { relation: h.relation, args: s }),
        )
    }
}

pub proof fn lemma_universe(rules: Seq<RuleV>, p: Set<TermV>)
    requires
        p.finite(),
    ensures
        universe(rules, p).finite(),
        forall|i: int, a: AtomV|
            0 <= i < rules.len() && a.relation == rules[i].head.relation && a.args.len()
                == rules[i].head.args.len() && terms_in(a.args, p) ==> #[trigger] universe(
                rules,
                p,
            ).contains(a) && #[trigger] rules[i].head == rules[i].head,
    decreases rules.len(),
{
    if rules.len() > 0 {
        let init = rules.drop_last();
        let h = rules.last().head;
        lemma_universe(init, p);
        lemma_seqs_over(p, h.args.len());
        let f = |s: Seq<TermV>| AtomV { relation: h.relation, args: s };
        seqs_over(p, h.args.len()).lemma_map_finite(f);
        assert forall|i: int, a: AtomV|
            0 <= i < rules.len() && a.relation == rules[i].head.relation && a.args.len()
                == rules[i].head.args.len() && terms_in(a.args, p) implies #[trigger] universe(
            rules,
            p,
        ).contains(a) && #[trigger] rules[i].head == rules[i].head by {
            if i < rules.len() - 1 {
                assert(init[i] == rules[i]);
                assert(universe(init, p).contains(a) && init[i].head == init[i].head);
            } else {
                assert(seqs_over(p, h.args.len()).contains(a.args));
                assert(f(a.args) =~= a);
            }
        }
    }
}


/// Unification never meets a variable on the fact side when the fact is ground.
pub proof fn lemma_unify_args_defined_ground(xs: Seq<TermV>, ys: Seq<TermV>)
    requires
        xs.len() <= ys.len(),
        forall|i: int| 0 <= i < ys.len() ==> (#[trigger] ys[i]) is Sym,
    ensures
        unify_args_defined(xs, ys),
    decreases xs.len(),
{
    if xs.len() > 0 {
        let ry = ys.drop_first();
        assert forall|i: int| 0 <= i < ry.len() implies (#[trigger] ry[i]) is Sym by {
            assert(ry[i] == ys[i + 1]);
        }
        lemma_unify_args_defined_ground(xs.drop_first(), ry);
        assert(ys[0] is Sym);
    }
}

/// Walking any body against ground facts is defined.
pub proof fn lemma_walk_defined_ground(kb: Seq<AtomV>, body: Seq<AtomV>)
    requires
        forall|j: int| 0 <= j < kb.len() ==> is_ground(#[trigger] kb[j]),
    ensures
        walk_defined(kb, body),
    decreases body.len(),
{
    if body.len() > 0 {
        lemma_walk_defined_ground(kb, body.drop_first());
        let subs = walk(kb, body.drop_first());
        assert forall|i: int, j: int| 0 <= i < subs.len() && 0 <= j < kb.len() implies unify_defined(
            spec_substitute(body[0], #[trigger] subs[i]),
            #[trigger] kb[j],
        ) by {
            let a = spec_substitute(body[0], subs[i]);
            if a.relation == kb[j].relation && a.args.len() == kb[j].args.len() {
                assert(is_ground(kb[j]));
                lemma_unify_args_defined_ground(a.args, kb[j].args);
            }
        }
    }
}

/// A fact derived by a range-restricted rule from facts over the symbols `p`
/// (which include the rule's head symbols) is ground and lies over `p`.
pub proof fn lemma_derived_atom(rule: RuleV, kb: Set<AtomV>, theta: SubV, p: Set<TermV>)
    requires
        range_restricted(rule),
        satisfies(kb, rule.body, theta),
        kb_args_in(kb, p),
        forall|k: int|
            0 <= k < rule.head.args.len() && (#[trigger] rule.head.args[k]) is Sym ==> p.contains(
                rule.head.args[k],
            ),
        forall|t: TermV| #[trigger] p.contains(t) ==> t is Sym,
    ensures
        terms_in(spec_substitute(rule.head, theta).args, p),
        is_ground(spec_substitute(rule.head, theta)),
{
    lemma_satisfies_facts(kb, rule.body, theta, p);
    let a = spec_substitute(rule.head, theta);
    assert forall|k: int| 0 <= k < a.args.len() implies p.contains(#[trigger] a.args[k]) by {
        let t = rule.head.args[k];
        if t is Var {
            assert(rule.head.args.contains(t));
            assert(atom_has_var(rule.head, t));
            assert(spec_find(theta, t) is Some);
            lemma_find_value(theta, t, p);
        }
    }
}

/// What the first `i + 1` rules yield is what the first `i` yield and what rule `i` yields.
pub proof fn lemma_derives_take(rules: Seq<RuleV>, kb: Set<AtomV>, i: int, a: AtomV)
    requires
        0 <= i < rules.len(),
    ensures
        derives(rules.take(i + 1), kb, a) <==> (derives(rules.take(i), kb, a) || exists|
            theta: SubV,
        |
            satisfies(kb, rules[i].body, theta) && a == #[trigger] spec_substitute(
                rules[i].head,
                theta,
            )),
{
    let r1 = rules.take(i + 1);
    let r0 = rules.take(i);
    if derives(r1, kb, a) {
        let (m, theta) = choose|m: int, theta: SubV|
            #![trigger satisfies(kb, r1[m].body, theta), spec_substitute(r1[m].head, theta)]
            0 <= m < r1.len() && satisfies(kb, r1[m].body, theta) && a == spec_substitute(
                r1[m].head,
                theta,
            );
        if m < i {
            assert(r0[m] == r1[m]);
            assert(satisfies(kb, r0[m].body, theta));
        } else {
            assert(r1[m] == rules[i]);
        }
    }
    if derives(r0, kb, a) {
        let (m, theta) = choose|m: int, theta: SubV|
            #![trigger satisfies(kb, r0[m].body, theta), spec_substitute(r0[m].head, theta)]
            0 <= m < r0.len() && satisfies(kb, r0[m].body, theta) && a == spec_substitute(
                r0[m].head,
                theta,
            );
        assert(r0[m] == r1[m]);
        assert(satisfies(kb, r1[m].body, theta));
    }
    if exists|theta: SubV|
        satisfies(kb, rules[i].body, theta) && a == #[trigger] spec_substitute(
            rules[i].head,
            theta,
        ) {
        let theta = choose|theta: SubV|
            satisfies(kb, rules[i].body, theta) && a == #[trigger] spec_substitute(
                rules[i].head,
                theta,
            );
        assert(r1[i] == rules[i]);
        assert(satisfies(kb, r1[i].body, theta));
    }
}

} // verus!
