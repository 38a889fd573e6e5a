//! An interactive session with the engine: a rule without head variables states
//! the facts of its body; any other rule is a query, answered from the facts
//! stated so far.

use vstd::prelude::*;

use crate::engine::{
    all_range_restricted, atoms_view, is_ground, range_restricted, rules_view, Atom, AtomV, Rule,
    RuleV, Solver, Term, TermV,
};
use crate::fixpoint::is_least_model;
use crate::parser::{query0_name, query0_string};

verus! {

/// The rule that states the ground fact `a`.
pub open spec fn fact_rule_of(a: AtomV) -> RuleV {
    RuleV { head: a, body: Seq::empty() }
}

/// The rule states facts: its head has no arguments.
pub open spec fn states_facts(r: RuleV) -> bool {
    r.head.args.len() == 0
}

/// The session can take the rule: a statement of ground facts, or a query whose
/// head variables all occur in its body.
pub open spec fn acceptable(r: RuleV) -> bool {
    if states_facts(r) {
        forall|j: int| 0 <= j < r.body.len() ==> is_ground(#[trigger] r.body[j])
    } else {
        range_restricted(r)
    }
}

/// The answers among `atoms`: those of the relation `query0`, in order.
pub open spec fn answers(atoms: Seq<AtomV>) -> Seq<AtomV> {
    atoms.filter(|a: AtomV| a.relation == TermV::Sym(query0_name()))
}

/// A session: the facts stated so far, each as a rule with an empty body.
pub struct Session {
    facts: Vec<Rule>,
}

impl View for Session {
    type V = Seq<RuleV>;

    closed spec fn view(&self) -> Seq<RuleV> {
        rules_view(self.facts@)
    }
}

impl Session {
    /// The facts of a session are ground fact rules.
    #[verifier::type_invariant]
    closed spec fn facts_ground(self) -> bool {
        forall|i: int|
            0 <= i < self.facts@.len() ==> (#[trigger] self.facts@[i]@).body.len() == 0
                && is_ground(self.facts@[i]@.head)
    }

    /// A session with no facts.
    pub fn new() -> (r: Session)
        ensures
            r@ == Seq::<RuleV>::empty(),
    {
        let s = Session { facts: Vec::new() };
        proof {
            assert(rules_view(s.facts@) =~= Seq::<RuleV>::empty());
        }
        s
    }

    /// Takes one rule. A rule without head variables adds a fact for each atom of
    /// its body and returns those atoms; any other rule is solved together with
    /// the facts, which stay as they were, and its answers are returned: the
    /// `query0` facts of the least model.
    pub fn handle(&mut self, rule: Rule) -> (r: Vec<Atom>)
        requires
            acceptable(rule@),
        ensures
            states_facts(rule@) ==> {
                &&& atoms_view(r@) == rule@.body
                &&& final(self)@ == old(self)@ + rule@.body.map_values(|a: AtomV| fact_rule_of(a))
            },
            !states_facts(rule@) ==> {
                &&& final(self)@ == old(self)@
                &&& exists|all: Seq<AtomV>|
                    #![trigger answers(all)]
                    {
                        &&& all.no_duplicates()
                        &&& is_least_model(old(self)@.push(rule@), all.to_set())
                        &&& atoms_view(r@) == answers(all)
                    }
            },
    {
        proof {
            use_type_invariant(&*self);
        }
        if rule.head.args.len() == 0 {
            let ghost body = rule@.body;
            let mut stated: Vec<Atom> = Vec::new();
            let mut facts = Vec::new();
            std::mem::swap(&mut facts, &mut self.facts);
            let ghost before = rules_view(facts@);
            let mut j: usize = 0;
            while j < rule.body.len()
                invariant
                    j <= rule.body@.len(),
                    body == rule@.body,
                    forall|k: int| 0 <= k < body.len() ==> is_ground(#[trigger] body[k]),
                    atoms_view(stated@) == body.take(j as int),
                    rules_view(facts@) == before + body.take(j as int).map_values(
                        |a: AtomV| fact_rule_of(a),
                    ),
                    forall|i: int|
                        0 <= i < facts@.len() ==> (#[trigger] facts@[i]@).body.len() == 0 && is_ground(
                            facts@[i]@.head,
                        ),
                decreases rule.body@.len() - j,
            {
                let a = rule.body[j].duplicate();
                let ghost fv = rules_view(facts@);
                let ghost sv = atoms_view(stated@);
                let fact = Rule { head: a.duplicate(), body: Vec::new() };
                proof {
                    assert(fact@.body =~= Seq::<AtomV>::empty());
                    assert(is_ground(body[j as int]));
                }
                facts.push(fact);
                stated.push(a);
                proof {
                    assert(body.take(j + 1) =~= body.take(j as int).push(body[j as int]));
                    assert(atoms_view(stated@) =~= sv.push(a@));
                    assert(rules_view(facts@) =~= fv.push(fact@));
                    assert(body.take(j + 1).map_values(|x: AtomV| fact_rule_of(x)) =~= body.take(
                        j as int,
                    ).map_values(|x: AtomV| fact_rule_of(x)).push(fact_rule_of(body[j as int])));
                    assert(rules_view(facts@) =~= before + body.take(j + 1).map_values(
                        |x: AtomV| fact_rule_of(x),
                    ));
                }
                j = j + 1;
            }
            proof {
                assert(body.take(body.len() as int) =~= body);
            }
            self.facts = facts;
            stated
        } else {
            let mut rules = duplicate_rules(&self.facts);
            let ghost rv = rules_view(rules@);
            let ghost ruleview = rule@;
            rules.push(rule);
            proof {
                assert(rules_view(rules@) =~= rv.push(ruleview));
                assert forall|i: int| 0 <= i < rules_view(rules@).len() implies range_restricted(
                    #[trigger] rules_view(rules@)[i],
                ) by {
                    if i < rv.len() {
                        let f = rules_view(rules@)[i];
                        assert(f == self.facts@[i]@);
                        assert forall|t: TermV|
                            crate::engine::atom_has_var(f.head, t) implies crate::engine::body_has_var(
                            f.body,
                            t,
                        ) by {
                            let k = choose|k: int| 0 <= k < f.head.args.len() && f.head.args[k] == t;
                            assert(is_ground(f.head));
                        }
                    }
                }
            }
            let all = Solver.solve(rules);
            let query0 = query0_string();
            let mut out: Vec<Atom> = Vec::new();
            let ghost av = atoms_view(all@);
            let mut i: usize = 0;
            proof {
                reveal_with_fuel(Seq::filter, 1);
                assert(av.take(0) =~= Seq::<AtomV>::empty());
            }
            while i < all.len()
                invariant
                    i <= all@.len(),
                    av == atoms_view(all@),
                    query0@ == query0_name(),
                    atoms_view(out@) == answers(av.take(i as int)),
                decreases all@.len() - i,
            {
                let a = &all[i];
                let keep = match &a.relation {
                    Term::Sym(s) => *s == query0,
                    Term::Var(_) => false,
                };
                let ghost ov = atoms_view(out@);
                proof {
                    assert(av.take(i + 1).drop_last() =~= av.take(i as int));
                    assert(av.take(i + 1).last() == a@);
                    reveal_with_fuel(Seq::filter, 1);
                }
                if keep {
                    out.push(a.duplicate());
                    proof {
                        assert(atoms_view(out@) =~= ov.push(a@));
                    }
                }
                i = i + 1;
            }
            proof {
                assert(av.take(av.len() as int) =~= av);
            }
            out
        }
    }
}

/// A copy of the rules.
fn duplicate_rules(rules: &Vec<Rule>) -> (r: Vec<Rule>)
    ensures
        rules_view(r@) == rules_view(rules@),
{
    let mut out: Vec<Rule> = Vec::new();
    let mut i: usize = 0;
    while i < rules.len()
        invariant
            i <= rules@.len(),
            rules_view(out@) == rules_view(rules@).take(i as int),
        decreases rules@.len() - i,
    {
        let r = &rules[i];
        let mut body: Vec<Atom> = Vec::new();
        let mut j: usize = 0;
        while j < r.body.len()
            invariant
                j <= r.body@.len(),
                atoms_view(body@) == r@.body.take(j as int),
            decreases r.body@.len() - j,
        {
            let ghost bv = atoms_view(body@);
            let a = r.body[j].duplicate();
            body.push(a);
            proof {
                assert(atoms_view(body@) =~= bv.push(a@));
                assert(r@.body.take(j + 1) =~= r@.body.take(j as int).push(r@.body[j as int]));
            }
            j = j + 1;
        }
        proof {
            assert(r@.body.take(r@.body.len() as int) =~= r@.body);
        }
        let copy = Rule { head: r.head.duplicate(), body };
        let ghost ov = rules_view(out@);
        out.push(copy);
        proof {
            assert(rules_view(out@) =~= ov.push(copy@));
            assert(rules_view(rules@).take(i + 1) =~= rules_view(rules@).take(i as int).push(
                rules_view(rules@)[i as int],
            ));
        }
        i = i + 1;
    }
    proof {
        assert(rules_view(rules@).take(rules@.len() as int) =~= rules_view(rules@));
    }
    out
}

} // verus!
