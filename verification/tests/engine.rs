use pachadb::engine::{Atom, Rule, Solver, Substitution, Term};
use pachadb::repl::Session;

fn sym(s: &str) -> Term {
    Term::Sym(s.to_string())
}

fn var(s: &str) -> Term {
    Term::Var(format!("?{}", s))
}

fn atom(e: Term, r: Term, v: Term) -> Atom {
    Atom { relation: r, args: vec![e, v] }
}

fn fact(e: &str, f: &str, v: &str) -> Atom {
    Atom { relation: sym(f), args: vec![sym(e), sym(v)] }
}

fn query(name: &str, args: Vec<Term>) -> Atom {
    Atom { relation: sym(name), args }
}

fn rule(head: Atom, body: Vec<Atom>) -> Rule {
    Rule { head, body }
}

fn adviser(a: &str, b: &str) -> Rule {
    Rule {
        head: Atom { relation: sym("adviser"), args: vec![sym(a), sym(b)] },
        body: vec![],
    }
}

fn academic_ancestor(a: &str, b: &str) -> Rule {
    Rule {
        head: Atom { relation: sym("academicAncestor"), args: vec![sym(a), sym(b)] },
        body: vec![],
    }
}

fn advisers() -> Vec<Rule> {
    vec![
        adviser("Andrew Rice", "Mistral Contrastin"),
        adviser("Dominic Orchard", "Mistral Contrastin"),
        adviser("Andy Hopper", "Andrew Rice"),
        adviser("Alan Mycroft", "Dominic Orchard"),
        adviser("David Wheeler", "Andy Hopper"),
        adviser("Rod Burstall", "Alan Mycroft"),
        adviser("Robin Milner", "Alan Mycroft"),
    ]
}

#[test]
fn fact_unification() {
    let fact_atom = atom(var("who"), sym("likes"), sym("metallica"));
    let f = fact("leandro", "likes", "metallica");
    let unif = fact_atom.unify(&f).unwrap();
    assert_eq!(unif.subs, vec![(var("who"), sym("leandro"))]);

    let fact_atom = atom(sym("leandro"), sym("likes"), var("band"));
    let f = fact("leandro", "likes", "metallica");
    let unif = fact_atom.unify(&f).unwrap();
    assert_eq!(unif.subs, vec![(var("band"), sym("metallica"))]);

    let fact_atom = atom(sym("leandro"), sym("likes"), sym("band"));
    let f = fact("leandro", "likes", "metallica");
    let unif = fact_atom.unify(&f);
    assert!(unif.is_none());

    let fact_atom = atom(sym("leandro"), sym("likes"), sym("metallica"));
    let f = fact("leandro", "likes", "metallica");
    let unif = fact_atom.unify(&f).unwrap();
    assert_eq!(unif, Substitution::default());
}

#[test]
fn fact_substitution() {
    let fact_atom = atom(var("who"), sym("likes"), sym("metallica"));
    let f = fact("leandro", "likes", "metallica");
    let sub = fact_atom.unify(&f).unwrap();
    let fact_atom2 = fact_atom.substitute(&sub);

    assert_eq!(fact_atom2.relation, sym("likes"));
    assert_eq!(fact_atom2.args, vec![sym("leandro"), sym("metallica")]);
}

#[test]
fn range_restriction() {
    let r = rule(
        atom(var("a"), sym("ancestor"), var("c")),
        vec![
            atom(var("a"), sym("parent"), var("b")),
            atom(var("b"), sym("ancestor"), var("c")),
        ],
    );
    assert!(r.is_range_restricted());

    let r = rule(
        atom(var("a"), sym("ancestor"), var("c")),
        vec![
            atom(var("a"), sym("parent"), var("b")),
            atom(var("b"), sym("ancestor"), var("a")),
        ],
    );
    assert!(!r.is_range_restricted());
}

#[test]
fn solver_evaluates_simple_rules() {
    let solver = Solver::default();
    let kb = vec![
        atom(sym("1"), sym("lessThan"), sym("2")),
        atom(sym("2"), sym("lessThan"), sym("3")),
        atom(sym("3"), sym("lessThan"), sym("4")),
    ]
    .into_iter()
    .collect();

    let mut new_facts = solver.eval_rule(
        &rule(
            atom(var("X"), sym("muchLessThan"), var("Y")),
            vec![atom(var("X"), sym("lessThan"), var("Y"))],
        ),
        &kb,
    );
    new_facts.sort_unstable();
    assert_eq!(
        new_facts,
        vec![
            atom(sym("1"), sym("muchLessThan"), sym("2")),
            atom(sym("2"), sym("muchLessThan"), sym("3")),
            atom(sym("3"), sym("muchLessThan"), sym("4")),
        ]
    );
}

#[test]
fn solve_ancestor_direct_rule() {
    let mut rules = advisers();
    // academicAncestor(X, Y) :- adviser(X, Y).
    rules.push(rule(
        atom(var("X"), sym("academicAncestor"), var("Y")),
        vec![atom(var("X"), sym("adviser"), var("Y"))],
    ));

    let solver = Solver::default();
    let mut result = solver.solve(rules);
    result.sort_unstable();
    assert_eq!(
        result,
        vec![
            academic_ancestor("Alan Mycroft", "Dominic Orchard").head,
            academic_ancestor("Andrew Rice", "Mistral Contrastin").head,
            academic_ancestor("Andy Hopper", "Andrew Rice").head,
            academic_ancestor("David Wheeler", "Andy Hopper").head,
            academic_ancestor("Dominic Orchard", "Mistral Contrastin").head,
            academic_ancestor("Robin Milner", "Alan Mycroft").head,
            academic_ancestor("Rod Burstall", "Alan Mycroft").head,
            adviser("Alan Mycroft", "Dominic Orchard").head,
            adviser("Andrew Rice", "Mistral Contrastin").head,
            adviser("Andy Hopper", "Andrew Rice").head,
            adviser("David Wheeler", "Andy Hopper").head,
            adviser("Dominic Orchard", "Mistral Contrastin").head,
            adviser("Robin Milner", "Alan Mycroft").head,
            adviser("Rod Burstall", "Alan Mycroft").head,
        ]
    );
}

fn ancestor_rules() -> Vec<Rule> {
    let mut rules = advisers();
    // academicAncestor(X, Y) :- adviser(X, Y).
    rules.push(rule(
        atom(var("X"), sym("academicAncestor"), var("Y")),
        vec![atom(var("X"), sym("adviser"), var("Y"))],
    ));
    // academicAncestor(X, Z) :- adviser(X, Y), academicAncestor(Y, Z).
    rules.push(rule(
        atom(var("X"), sym("academicAncestor"), var("Z")),
        vec![
            atom(var("X"), sym("adviser"), var("Y")),
            atom(var("Y"), sym("academicAncestor"), var("Z")),
        ],
    ));
    rules
}

fn ancestor_facts() -> Vec<Atom> {
    vec![
        academic_ancestor("Alan Mycroft", "Dominic Orchard").head,
        academic_ancestor("Alan Mycroft", "Mistral Contrastin").head,
        academic_ancestor("Andrew Rice", "Mistral Contrastin").head,
        academic_ancestor("Andy Hopper", "Andrew Rice").head,
        academic_ancestor("Andy Hopper", "Mistral Contrastin").head,
        academic_ancestor("David Wheeler", "Andrew Rice").head,
        academic_ancestor("David Wheeler", "Andy Hopper").head,
        academic_ancestor("David Wheeler", "Mistral Contrastin").head,
        academic_ancestor("Dominic Orchard", "Mistral Contrastin").head,
        academic_ancestor("Robin Milner", "Alan Mycroft").head,
        academic_ancestor("Robin Milner", "Dominic Orchard").head,
        academic_ancestor("Robin Milner", "Mistral Contrastin").head,
        academic_ancestor("Rod Burstall", "Alan Mycroft").head,
        academic_ancestor("Rod Burstall", "Dominic Orchard").head,
        academic_ancestor("Rod Burstall", "Mistral Contrastin").head,
        adviser("Alan Mycroft", "Dominic Orchard").head,
        adviser("Andrew Rice", "Mistral Contrastin").head,
        adviser("Andy Hopper", "Andrew Rice").head,
        adviser("David Wheeler", "Andy Hopper").head,
        adviser("Dominic Orchard", "Mistral Contrastin").head,
        adviser("Robin Milner", "Alan Mycroft").head,
        adviser("Rod Burstall", "Alan Mycroft").head,
    ]
}

#[test]
fn solve_ancestor_recursive_rule() {
    let solver = Solver::default();
    let mut result = solver.solve(ancestor_rules());
    result.sort_unstable();
    assert_eq!(result, ancestor_facts());
}

#[test]
fn solve_query_ancestor() {
    let mut rules = ancestor_rules();
    // query1(I) :- academicAncestor("Robin Milner", I), academicAncestor(I, "Mistral Contrastin").
    rules.push(rule(
        query("query1", vec![var("Im")]),
        vec![
            atom(sym("Robin Milner"), sym("academicAncestor"), var("Im")),
            atom(var("Im"), sym("academicAncestor"), sym("Mistral Contrastin")),
        ],
    ));

    let solver = Solver::default();
    let mut result = solver.solve(rules);
    result.sort_unstable();
    let mut expected = ancestor_facts();
    expected.push(query("query1", vec![sym("Alan Mycroft")]));
    expected.push(query("query1", vec![sym("Dominic Orchard")]));
    assert_eq!(result, expected);
}

#[test]
fn solve_has_no_duplicates_and_keeps_ground_facts() {
    let solver = Solver::default();
    let rules = vec![
        rule(fact("a", "r", "b"), vec![]),
        rule(fact("a", "r", "b"), vec![]),
        rule(atom(var("x"), sym("s"), var("y")), vec![atom(var("x"), sym("r"), var("y"))]),
    ];
    let mut result = solver.solve(rules);
    result.sort_unstable();
    assert_eq!(result, vec![fact("a", "r", "b"), fact("a", "s", "b")]);
    assert_eq!(solver.solve(vec![]), vec![]);
}

#[test]
fn unification_checks_repeated_variables_and_shape() {
    let same = atom(var("x"), sym("r"), var("x"));
    assert!(same.unify(&fact("a", "r", "b")).is_none());
    assert_eq!(
        same.unify(&fact("a", "r", "a")).unwrap().subs,
        vec![(var("x"), sym("a")), (var("x"), sym("a"))]
    );
    assert!(atom(var("x"), sym("r"), var("y")).unify(&fact("a", "q", "b")).is_none());
    let short = Atom { relation: sym("r"), args: vec![var("x")] };
    assert!(short.unify(&fact("a", "r", "b")).is_none());
}

#[test]
fn substitution_operations() {
    let mut s = Substitution::default();
    assert!(s.is_empty());
    s.insert(var("x"), sym("1"));
    s.insert(var("x"), sym("2"));
    assert!(!s.is_empty());
    assert_eq!(s.find(&var("x")), Some(sym("1")));
    assert_eq!(s.find(&var("y")), None);
    let s = s.prepend(var("y"), sym("0"));
    assert_eq!(s.find(&var("y")), Some(sym("0")));
    let mut other = Substitution::default();
    other.insert(var("z"), sym("9"));
    let s = s.concat(other);
    assert_eq!(
        s.subs(),
        vec![
            (var("y"), sym("0")),
            (var("x"), sym("1")),
            (var("x"), sym("2")),
            (var("z"), sym("9"))
        ]
    );
}

#[test]
fn substitute_leaves_unbound_variables_and_symbols() {
    let mut s = Substitution::default();
    s.insert(var("x"), sym("1"));
    let a = Atom { relation: var("x"), args: vec![var("x"), var("y"), sym("x")] };
    let b = a.substitute(&s);
    assert_eq!(b.relation, var("x"));
    assert_eq!(b.args, vec![sym("1"), var("y"), sym("x")]);
}

#[test]
fn terms_and_vars() {
    assert!(var("a").is_var());
    assert!(!var("a").is_symbol());
    assert!(sym("a").is_symbol());
    assert!(!sym("a").is_var());
    let a = Atom { relation: sym("r"), args: vec![var("x"), sym("b"), var("y"), var("x")] };
    let vars = a.vars();
    assert_eq!(vars.len(), 2);
    assert!(vars.contains(&var("x")));
    assert!(vars.contains(&var("y")));
    assert!(!vars.contains(&sym("b")));
}

#[test]
fn session_states_then_answers() {
    let mut session = Session::new();
    let stated = session.handle(rule(
        query("query0", vec![]),
        vec![fact("leandro", "likes", "metallica"), fact("joe", "likes", "rush")],
    ));
    assert_eq!(
        stated,
        vec![fact("leandro", "likes", "metallica"), fact("joe", "likes", "rush")]
    );
    let mut answers = session.handle(rule(
        query("query0", vec![var("who")]),
        vec![atom(var("who"), sym("likes"), sym("rush"))],
    ));
    answers.sort_unstable();
    assert_eq!(answers, vec![query("query0", vec![sym("joe")])]);
    let none = session.handle(rule(
        query("query0", vec![var("who")]),
        vec![atom(var("who"), sym("likes"), sym("abba"))],
    ));
    assert_eq!(none, vec![]);
}

#[test]
fn unify_finds_a_match_whenever_one_exists() {
    let pattern = atom(var("x"), sym("r"), var("x"));
    let mut t = Substitution::default();
    t.insert(var("x"), sym("a"));
    let f = pattern.clone().substitute(&t);
    assert_eq!(f, fact("a", "r", "a"));
    assert!(pattern.unify(&f).is_some());
}

#[test]
fn evaluation_grows_with_the_facts() {
    let solver = Solver::default();
    let r = rule(
        atom(var("X"), sym("muchLessThan"), var("Y")),
        vec![atom(var("X"), sym("lessThan"), var("Y"))],
    );
    let small = vec![atom(sym("1"), sym("lessThan"), sym("2"))];
    let mut big = small.clone();
    big.push(atom(sym("2"), sym("lessThan"), sym("3")));
    let from_small = solver.eval_rule(&r, &small);
    let from_big = solver.eval_rule(&r, &big);
    assert!(from_small.iter().all(|a| from_big.contains(a)));
    assert_eq!(from_big.len(), 2);
}

#[test]
fn immediate_consequence_keeps_and_grows() {
    let solver = Solver::default();
    let rules = vec![rule(
        atom(var("X"), sym("muchLessThan"), var("Y")),
        vec![atom(var("X"), sym("lessThan"), var("Y"))],
    )];
    let small = vec![atom(sym("1"), sym("lessThan"), sym("2"))];
    let mut big = small.clone();
    big.push(atom(sym("2"), sym("lessThan"), sym("3")));
    let from_small = solver.immediate_consequence(&rules, &small);
    let from_big = solver.immediate_consequence(&rules, &big);
    assert!(small.iter().all(|a| from_small.contains(a)));
    assert!(from_small.iter().all(|a| from_big.contains(a)));
    assert_eq!(from_big.len(), 4);
}

#[test]
fn solution_is_closed_under_evaluation() {
    let solver = Solver::default();
    let rules = ancestor_rules();
    let solution = solver.solve(rules.clone());
    for r in &rules {
        for a in solver.eval_rule(r, &solution) {
            assert!(solution.contains(&a));
        }
    }
}
