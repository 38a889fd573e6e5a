//! The Datalog engine: terms, atoms, substitutions, rules and the solver.

use vstd::prelude::*;

use crate::fixpoint::{
    consequence, derives, head_syms, is_least_model, kb_args_in, lemma_derived_atom, lemma_derives_mono,
    lemma_derives_take, lemma_eval_rule_member, lemma_head_syms, lemma_universe,
    lemma_walk_defined_ground, satisfies, terms_in, universe, closed_under,
};
use crate::seq_facts::lemma_push_contains;

verus! {

/// A term is either a variable (written `?name`) or a symbol.
#[derive(Debug, Clone, PartialEq, Eq, PartialOrd, Ord, Hash)]
pub enum Term {
    Var(String),
    Sym(String),
}

/// The mathematical value of a term.
pub enum TermV {
    Var(Seq<char>),
    Sym(Seq<char>),
}

impl View for Term {
    type V = TermV;

    open spec fn view(&self) -> TermV {
        match self {
            Term::Var(s) => TermV::Var(s@),
            Term::Sym(s) => TermV::Sym(s@),
        }
    }
}

impl Term {
    pub fn is_var(&self) -> (r: bool)
        ensures
            r == (self@ is Var),
    {
        match self {
            Term::Var(_) => true,
            Term::Sym(_) => false,
        }
    }

    pub fn is_symbol(&self) -> (r: bool)
        ensures
            r == (self@ is Sym),
    {
        match self {
            Term::Var(_) => false,
            Term::Sym(_) => true,
        }
    }

    /// Structural equality of two terms.
    pub fn equals(&self, other: &Term) -> (r: bool)
        ensures
            r == (self@ == other@),
    {
        match (self, other) {
            (Term::Var(a), Term::Var(b)) => *a == *b,
            (Term::Sym(a), Term::Sym(b)) => *a == *b,
            _ => false,
        }
    }

    /// A copy of the term with the same value.
    pub fn duplicate(&self) -> (r: Term)
        ensures
            r@ == self@,
    {
        match self {
            Term::Var(s) => Term::Var(s.clone()),
            Term::Sym(s) => Term::Sym(s.clone()),
        }
    }
}


/// The mathematical value of a list of terms.
pub open spec fn terms_view(ts: Seq<Term>) -> Seq<TermV> {
    ts.map_values(|t: Term| t@)
}

/// A substitution as a list of (variable, replacement) pairs, looked up front to back.
pub type SubV = Seq<(TermV, TermV)>;

/// The first replacement bound to `t` in `s`, if any.
pub open spec fn spec_find(s: SubV, t: TermV) -> Option<TermV>
    decreases s.len(),
{
    if s.len() == 0 {
        None
    } else if s[0].0 == t {
        Some(s[0].1)
    } else {
        spec_find(s.drop_first(), t)
    }
}

pub open spec fn opt_term_view(o: Option<Term>) -> Option<TermV> {
    match o {
        Some(t) => Some(t@),
        None => None,
    }
}

/// A list of variable bindings.
#[derive(Debug, Clone, PartialEq, Eq, PartialOrd, Ord, Hash)]
pub struct Substitution {
    pub subs: Vec<(Term, Term)>,
}

pub open spec fn pairs_view(ps: Seq<(Term, Term)>) -> SubV {
    ps.map_values(|p: (Term, Term)| (p.0@, p.1@))
}

impl View for Substitution {
    type V = SubV;

    open spec fn view(&self) -> SubV {
        pairs_view(self.subs@)
    }
}

pub open spec fn opt_sub_view(o: Option<Substitution>) -> Option<SubV> {
    match o {
        Some(s) => Some(s@),
        None => None,
    }
}

impl Default for Substitution {
    fn default() -> (r: Substitution)
        ensures
            r@.len() == 0,
    {
        Substitution { subs: Vec::new() }
    }
}

impl Substitution {
    /// The empty substitution.
    pub fn empty() -> (r: Substitution)
        ensures
            r@ == Seq::<(TermV, TermV)>::empty(),
    {
        Substitution { subs: Vec::new() }
    }

    /// Appends a binding at the end.
    pub fn insert(&mut self, k: Term, v: Term)
        ensures
            final(self)@ == old(self)@.push((k@, v@)),
    {
        self.subs.push((k, v));
        proof {
            assert(final(self)@ =~= old(self)@.push((k@, v@)));
        }
    }

    pub fn is_empty(&self) -> (r: bool)
        ensures
            r == (self@.len() == 0),
    {
        self.subs.len() == 0
    }

    /// The replacement of the first binding of `term`.
    pub fn find(&self, term: &Term) -> (r: Option<Term>)
        ensures
            opt_term_view(r) == spec_find(self@, term@),
    {
        let mut i: usize = 0;
        proof {
            assert(self@.skip(0) =~= self@);
        }
        while i < self.subs.len()
            invariant
                i <= self.subs@.len(),
                spec_find(self@, term@) == spec_find(self@.skip(i as int), term@),
            decreases self.subs@.len() - i,
        {
            proof {
                assert(self@.skip(i as int).drop_first() =~= self@.skip(i + 1));
            }
            if self.subs[i].0.equals(term) {
                return Some(self.subs[i].1.duplicate());
            }
            i = i + 1;
        }
        None
    }

    /// The substitution with the binding `k = v` placed first.
    pub fn prepend(self, k: Term, v: Term) -> (r: Substitution)
        ensures
            r@ == seq![(k@, v@)] + self@,
    {
        let mut subs = Vec::new();
        subs.push((k, v));
        let mut rest = self.subs;
        subs.append(&mut rest);
        let r = Substitution { subs };
        proof {
            assert(r@ =~= seq![(k@, v@)] + self@);
        }
        r
    }

    /// The bindings of `self` followed by those of `other`.
    pub fn concat(self, other: Substitution) -> (r: Substitution)
        ensures
            r@ == self@ + other@,
    {
        let mut subs = self.subs;
        let mut rest = other.subs;
        subs.append(&mut rest);
        let r = Substitution { subs };
        proof {
            assert(r@ =~= self@ + other@);
        }
        r
    }

    pub fn subs(self) -> (r: Vec<(Term, Term)>)
        ensures
            r@ == self.subs@,
    {
        self.subs
    }

    /// A copy with the same bindings.
    pub fn duplicate(&self) -> (r: Substitution)
        ensures
            r@ == self@,
    {
        let mut subs: Vec<(Term, Term)> = Vec::new();
        let mut i: usize = 0;
        while i < self.subs.len()
            invariant
                i <= self.subs@.len(),
                pairs_view(subs@) =~= self@.take(i as int),
            decreases self.subs@.len() - i,
        {
            let k = self.subs[i].0.duplicate();
            let v = self.subs[i].1.duplicate();
            let ghost before = subs@;
            subs.push((k, v));
            proof {
                assert(pairs_view(subs@) =~= pairs_view(before).push((k@, v@)));
                assert(self@.take(i + 1) =~= self@.take(i as int).push(self@[i as int]));
            }
            i = i + 1;
        }
        Substitution { subs }
    }
}


/// An atom: a relation applied to a list of arguments.
#[derive(Debug, Clone, PartialEq, Eq, PartialOrd, Ord, Hash)]
pub struct Atom {
    pub relation: Term,
    pub args: Vec<Term>,
}

/// The mathematical value of an atom.
#[verifier::ext_equal]
pub struct AtomV {
    pub relation: TermV,
    pub args: Seq<TermV>,
}

impl View for Atom {
    type V = AtomV;

    open spec fn view(&self) -> AtomV {
        AtomV { relation: self.relation@, args: terms_view(self.args@) }
    }
}

/// The mathematical value of a list of atoms.
pub open spec fn atoms_view(atoms: Seq<Atom>) -> Seq<AtomV> {
    atoms.map_values(|a: Atom| a@)
}

/// `t` after applying `s`: a variable bound in `s` is replaced, anything else is kept.
pub open spec fn subst_term(t: TermV, s: SubV) -> TermV {
    if t is Var {
        match spec_find(s, t) {
            Some(n) => n,
            None => t,
        }
    } else {
        t
    }
}

/// The atom with `s` applied to each argument (the relation is left as it is).
pub open spec fn spec_substitute(a: AtomV, s: SubV) -> AtomV {
    AtomV { relation: a.relation, args: a.args.map_values(|t: TermV| subst_term(t, s)) }
}

/// Unification of the argument lists `xs` (pattern) and `ys` (fact), pairwise
/// from the first position: equal symbols match, a variable is bound to the
/// symbol facing it, and a variable met twice must face the same symbol.
pub open spec fn unify_args(xs: Seq<TermV>, ys: Seq<TermV>) -> Option<SubV>
    decreases xs.len(),
{
    if xs.len() == 0 {
        Some(Seq::empty())
    } else {
        let rest = unify_args(xs.drop_first(), ys.drop_first());
        match (xs[0], ys[0]) {
            (TermV::Sym(a), TermV::Sym(b)) => if a == b {
                rest
            } else {
                None
            },
            (TermV::Var(_), TermV::Sym(_)) => match rest {
                None => None,
                Some(inc) => match spec_find(inc, xs[0]) {
                    Some(s2) => if s2 != ys[0] {
                        None
                    } else {
                        Some(seq![(xs[0], ys[0])] + inc)
                    },
                    None => Some(seq![(xs[0], ys[0])] + inc),
                },
            },
            _ => None,
        }
    }
}

/// Unification of `xs` against `ys` never reaches a variable on the fact side.
pub open spec fn unify_args_defined(xs: Seq<TermV>, ys: Seq<TermV>) -> bool
    decreases xs.len(),
{
    if xs.len() == 0 {
        true
    } else {
        match (xs[0], ys[0]) {
            (TermV::Sym(a), TermV::Sym(b)) => a != b || unify_args_defined(
                xs.drop_first(),
                ys.drop_first(),
            ),
            (TermV::Var(_), TermV::Sym(_)) => unify_args_defined(xs.drop_first(), ys.drop_first()),
            _ => false,
        }
    }
}

/// Unification of two atoms: same relation, same arity, and unifiable arguments.
pub open spec fn spec_unify(a: AtomV, b: AtomV) -> Option<SubV> {
    if a.relation == b.relation && a.args.len() == b.args.len() {
        unify_args(a.args, b.args)
    } else {
        None
    }
}

/// Unifying `a` with `b` is defined: it fails early or never meets a variable in `b`.
pub open spec fn unify_defined(a: AtomV, b: AtomV) -> bool {
    (a.relation == b.relation && a.args.len() == b.args.len()) ==> unify_args_defined(
        a.args,
        b.args,
    )
}

/// Every argument of the atom is a symbol.
pub open spec fn is_ground(a: AtomV) -> bool {
    forall|i: int| 0 <= i < a.args.len() ==> #[trigger] a.args[i] is Sym
}

/// The variables among the arguments of `a`.
pub open spec fn atom_has_var(a: AtomV, t: TermV) -> bool {
    t is Var && a.args.contains(t)
}

impl Atom {
    /// Structural equality of two atoms.
    pub fn equals(&self, other: &Atom) -> (r: bool)
        ensures
            r == (self@ == other@),
    {
        if !self.relation.equals(&other.relation) {
            return false;
        }
        if self.args.len() != other.args.len() {
            proof {
                assert(self@.args.len() != other@.args.len());
            }
            return false;
        }
        let mut i: usize = 0;
        while i < self.args.len()
            invariant
                i <= self.args@.len(),
                self.args@.len() == other.args@.len(),
                forall|j: int| 0 <= j < i ==> self@.args[j] == other@.args[j],
            decreases self.args@.len() - i,
        {
            if !self.args[i].equals(&other.args[i]) {
                proof {
                    assert(self@.args[i as int] != other@.args[i as int]);
                }
                return false;
            }
            i = i + 1;
        }
        proof {
            assert(self@.args =~= other@.args);
        }
        true
    }

    /// A copy with the same value.
    pub fn duplicate(&self) -> (r: Atom)
        ensures
            r@ == self@,
    {
        let mut args: Vec<Term> = Vec::new();
        let mut i: usize = 0;
        while i < self.args.len()
            invariant
                i <= self.args@.len(),
                terms_view(args@) =~= self@.args.take(i as int),
            decreases self.args@.len() - i,
        {
            let t = self.args[i].duplicate();
            let ghost before = args@;
            args.push(t);
            proof {
                assert(terms_view(args@) =~= terms_view(before).push(t@));
                assert(self@.args.take(i + 1) =~= self@.args.take(i as int).push(self@.args[i as int]));
            }
            i = i + 1;
        }
        proof {
            assert(self@.args.take(self.args@.len() as int) =~= self@.args);
        }
        Atom { relation: self.relation.duplicate(), args }
    }

    /// Unifies this atom (the pattern) with `other` (a fact).
    pub fn unify(&self, other: &Atom) -> (r: Option<Substitution>)
        requires
            unify_defined(self@, other@),
        ensures
            opt_sub_view(r) == spec_unify(self@, other@),
    {
        if self.relation.equals(&other.relation) && self.args.len() == other.args.len() {
            proof {
                assert(self@.args.skip(0) =~= self@.args);
                assert(other@.args.skip(0) =~= other@.args);
            }
            self.do_unify(&self.args, &other.args, 0)
        } else {
            None
        }
    }

    fn do_unify(&self, left: &Vec<Term>, right: &Vec<Term>, from: usize) -> (r: Option<
        Substitution,
    >)
        requires
            from <= left@.len(),
            left@.len() == right@.len(),
            unify_args_defined(
                terms_view(left@).skip(from as int),
                terms_view(right@).skip(from as int),
            ),
        ensures
            opt_sub_view(r) == unify_args(
                terms_view(left@).skip(from as int),
                terms_view(right@).skip(from as int),
            ),
        decreases left@.len() - from,
    {
        let ghost xs = terms_view(left@).skip(from as int);
        let ghost ys = terms_view(right@).skip(from as int);
        if from == left.len() {
            proof {
                assert(xs.len() == 0);
            }
            return Some(Substitution::empty());
        }
        proof {
            assert(xs.drop_first() =~= terms_view(left@).skip(from + 1));
            assert(ys.drop_first() =~= terms_view(right@).skip(from + 1));
            assert(xs[0] == left@[from as int]@);
            assert(ys[0] == right@[from as int]@);
        }
        let a = &left[from];
        let b = &right[from];
        match (a, b) {
            (Term::Sym(x), Term::Sym(y)) => {
                if *x == *y {
                    self.do_unify(left, right, from + 1)
                } else {
                    None
                }
            },
            (Term::Var(_), Term::Sym(_)) => {
                let inc = self.do_unify(left, right, from + 1);
                match inc {
                    None => None,
                    Some(inc_sub) => {
                        let found = inc_sub.find(a);
                        match found {
                            Some(s2) => {
                                if !b.equals(&s2) {
                                    None
                                } else {
                                    Some(inc_sub.prepend(a.duplicate(), b.duplicate()))
                                }
                            },
                            None => Some(inc_sub.prepend(a.duplicate(), b.duplicate())),
                        }
                    },
                }
            },
            (_, Term::Var(_)) => {
                proof {
                    assert(false);
                }
                None
            },
        }
    }

    /// Applies `sub` to every variable argument bound in it.
    pub fn substitute(self, sub: &Substitution) -> (r: Atom)
        ensures
            r@ == spec_substitute(self@, sub@),
    {
        let ghost orig = self@;
        let mut args: Vec<Term> = Vec::new();
        let mut i: usize = 0;
        while i < self.args.len()
            invariant
                i <= self.args@.len(),
                orig == self@,
                terms_view(args@) =~= spec_substitute(orig, sub@).args.take(i as int),
            decreases self.args@.len() - i,
        {
            let arg = &self.args[i];
            let new_arg = if arg.is_var() {
                match sub.find(arg) {
                    Some(t) => t,
                    None => arg.duplicate(),
                }
            } else {
                arg.duplicate()
            };
            let ghost before = args@;
            args.push(new_arg);
            proof {
                assert(terms_view(args@) =~= terms_view(before).push(new_arg@));
                assert(spec_substitute(orig, sub@).args.take(i + 1) =~= spec_substitute(
                    orig,
                    sub@,
                ).args.take(i as int).push(spec_substitute(orig, sub@).args[i as int]));
            }
            i = i + 1;
        }
        proof {
            assert(spec_substitute(orig, sub@).args.take(self.args@.len() as int) =~= spec_substitute(orig, sub@).args);
        }
        Atom { relation: self.relation, args }
    }

    /// The distinct variables among the arguments, in order of first appearance.
    pub fn vars(&self) -> (r: Vec<Term>)
        ensures
            terms_view(r@).no_duplicates(),
            forall|t: TermV| terms_view(r@).contains(t) <==> atom_has_var(self@, t),
    {
        let mut vars: Vec<Term> = Vec::new();
        let mut i: usize = 0;
        while i < self.args.len()
            invariant
                i <= self.args@.len(),
                terms_view(vars@).no_duplicates(),
                forall|t: TermV|
                    terms_view(vars@).contains(t) <==> (t is Var && self@.args.take(i as int).contains(t)),
            decreases self.args@.len() - i,
        {
            let arg = &self.args[i];
            proof {
                assert(self@.args.take(i + 1) =~= self@.args.take(i as int).push(arg@));
            }
            proof {
                assert forall|t: TermV| self@.args.take(i + 1).contains(t) <==> (self@.args.take(
                    i as int,
                ).contains(t) || t == arg@) by {
                    lemma_push_contains(self@.args.take(i as int), arg@, t);
                }
            }
            let ghost before = vars@;
            let present = contains_term(&vars, arg);
            if arg.is_var() && !present {
                vars.push(arg.duplicate());
                proof {
                    assert(terms_view(vars@) =~= terms_view(before).push(arg@));
                    assert forall|t: TermV| terms_view(vars@).contains(t) <==> (terms_view(
                        before,
                    ).contains(t) || t == arg@) by {
                        lemma_push_contains(terms_view(before), arg@, t);
                    }
                    assert(terms_view(vars@).no_duplicates()) by {
                        assert forall|j: int, k: int|
                            0 <= j < terms_view(vars@).len() && 0 <= k < terms_view(vars@).len()
                                && j != k implies terms_view(vars@)[j] != terms_view(vars@)[k] by {
                            if j < terms_view(before).len() && k < terms_view(before).len() {
                            } else if j < terms_view(before).len() {
                                assert(terms_view(before)[j] == terms_view(vars@)[j]);
                            } else {
                                assert(terms_view(before)[k] == terms_view(vars@)[k]);
                            }
                        }
                    }
                }
            }
            proof {
                assert forall|t: TermV|
                    terms_view(vars@).contains(t) <==> (t is Var && self@.args.take(i + 1).contains(
                        t,
                    )) by {
                    lemma_push_contains(self@.args.take(i as int), arg@, t);
                    lemma_push_contains(terms_view(before), arg@, t);
                    assert(terms_view(before).contains(t) <==> (t is Var && self@.args.take(
                        i as int,
                    ).contains(t)));
                    if arg@ is Var && !present {
                        assert(terms_view(vars@) =~= terms_view(before).push(arg@));
                    } else {
                        assert(vars@ == before);
                    }
                }
            }
            i = i + 1;
        }
        proof {
            assert(self@.args.take(self.args@.len() as int) =~= self@.args);
        }
        vars
    }
}

/// Whether `t` occurs in `ts`.
pub fn contains_term(ts: &Vec<Term>, t: &Term) -> (r: bool)
    ensures
        r == terms_view(ts@).contains(t@),
{
    let mut i: usize = 0;
    while i < ts.len()
        invariant
            i <= ts@.len(),
            forall|j: int| 0 <= j < i ==> terms_view(ts@)[j] != t@,
        decreases ts@.len() - i,
    {
        if ts[i].equals(t) {
            proof {
                assert(terms_view(ts@)[i as int] == t@);
            }
            return true;
        }
        i = i + 1;
    }
    false
}


/// Whether `a` occurs in `atoms`.
pub fn contains_atom(atoms: &Vec<Atom>, a: &Atom) -> (r: bool)
    ensures
        r == atoms_view(atoms@).contains(a@),
{
    let mut i: usize = 0;
    while i < atoms.len()
        invariant
            i <= atoms@.len(),
            forall|j: int| 0 <= j < i ==> atoms_view(atoms@)[j] != a@,
        decreases atoms@.len() - i,
    {
        if atoms[i].equals(a) {
            proof {
                assert(atoms_view(atoms@)[i as int] == a@);
            }
            return true;
        }
        i = i + 1;
    }
    false
}

/// A rule `head :- body`; a rule with an empty body states its head as a fact.
#[derive(Debug, Clone, PartialEq, Eq, PartialOrd, Ord)]
pub struct Rule {
    pub head: Atom,
    pub body: Vec<Atom>,
}

/// The mathematical value of a rule.
#[verifier::ext_equal]
pub struct RuleV {
    pub head: AtomV,
    pub body: Seq<AtomV>,
}

impl View for Rule {
    type V = RuleV;

    open spec fn view(&self) -> RuleV {
        RuleV { head: self.head@, body: atoms_view(self.body@) }
    }
}

/// The mathematical value of a list of rules.
pub open spec fn rules_view(rules: Seq<Rule>) -> Seq<RuleV> {
    rules.map_values(|r: Rule| r@)
}

/// The mathematical value of a list of substitutions.
pub open spec fn subs_view(subs: Seq<Substitution>) -> Seq<SubV> {
    subs.map_values(|s: Substitution| s@)
}

/// `t` is a variable argument of some atom of `body`.
pub open spec fn body_has_var(body: Seq<AtomV>, t: TermV) -> bool {
    exists|j: int| 0 <= j < body.len() && atom_has_var(#[trigger] body[j], t)
}

/// Every variable of the head also occurs in the body.
pub open spec fn range_restricted(r: RuleV) -> bool {
    forall|t: TermV| atom_has_var(r.head, t) ==> body_has_var(r.body, t)
}

/// Whether the variable `t` is an argument of some atom of `body`.
pub fn body_mentions(body: &Vec<Atom>, t: &Term) -> (r: bool)
    requires
        t@ is Var,
    ensures
        r == body_has_var(atoms_view(body@), t@),
{
    let mut j: usize = 0;
    while j < body.len()
        invariant
            j <= body@.len(),
            t@ is Var,
            forall|k: int| 0 <= k < j ==> !atom_has_var(#[trigger] atoms_view(body@)[k], t@),
        decreases body@.len() - j,
    {
        if contains_term(&body[j].args, t) {
            proof {
                assert(atom_has_var(atoms_view(body@)[j as int], t@));
            }
            return true;
        }
        j = j + 1;
    }
    false
}

impl Rule {
    /// Whether every variable of the head occurs in the body.
    pub fn is_range_restricted(&self) -> (r: bool)
        ensures
            r == range_restricted(self@),
    {
        let head_vars = self.head.vars();
        let mut k: usize = 0;
        while k < head_vars.len()
            invariant
                k <= head_vars@.len(),
                forall|t: TermV| terms_view(head_vars@).contains(t) <==> atom_has_var(self@.head, t),
                forall|m: int|
                    0 <= m < k ==> body_has_var(self@.body, #[trigger] terms_view(head_vars@)[m]),
            decreases head_vars@.len() - k,
        {
            proof {
                assert(terms_view(head_vars@).contains(terms_view(head_vars@)[k as int]));
            }
            if !body_mentions(&self.body, &head_vars[k]) {
                proof {
                    let t = terms_view(head_vars@)[k as int];
                    assert(terms_view(head_vars@).contains(t));
                    assert(atom_has_var(self@.head, t));
                }
                return false;
            }
            k = k + 1;
        }
        proof {
            assert forall|t: TermV| atom_has_var(self@.head, t) implies body_has_var(
                self@.body,
                t,
            ) by {
                assert(terms_view(head_vars@).contains(t));
                let m = choose|m: int|
                    0 <= m < terms_view(head_vars@).len() && terms_view(head_vars@)[m] == t;
            }
        }
        true
    }
}


/// The extensions of `sub` that match `atom` (after applying `sub`) against each
/// fact of `kb`, in the order of `kb`.
pub open spec fn spec_eval_atom_one(kb: Seq<AtomV>, sub: SubV, atom: AtomV) -> Seq<SubV>
    decreases kb.len(),
{
    if kb.len() == 0 {
        Seq::empty()
    } else {
        let rest = spec_eval_atom_one(kb.drop_last(), sub, atom);
        match spec_unify(spec_substitute(atom, sub), kb.last()) {
            Some(s2) => rest.push(sub + s2),
            None => rest,
        }
    }
}

/// The extensions of every substitution of `subs` that match `atom` against `kb`.
pub open spec fn spec_eval_atom(kb: Seq<AtomV>, subs: Seq<SubV>, atom: AtomV) -> Seq<SubV>
    decreases subs.len(),
{
    if subs.len() == 0 {
        Seq::empty()
    } else {
        spec_eval_atom(kb, subs.drop_last(), atom) + spec_eval_atom_one(kb, subs.last(), atom)
    }
}

/// Matching `atom` under each of `subs` against each fact of `kb` is defined.
pub open spec fn eval_atom_defined(kb: Seq<AtomV>, subs: Seq<SubV>, atom: AtomV) -> bool {
    forall|i: int, j: int|
        0 <= i < subs.len() && 0 <= j < kb.len() ==> unify_defined(
            spec_substitute(atom, #[trigger] subs[i]),
            #[trigger] kb[j],
        )
}

/// The substitutions that satisfy every atom of `body` against `kb`, matching
/// the last atom first and the first atom last.
pub open spec fn walk(kb: Seq<AtomV>, body: Seq<AtomV>) -> Seq<SubV>
    decreases body.len(),
{
    if body.len() == 0 {
        seq![Seq::empty()]
    } else {
        spec_eval_atom(kb, walk(kb, body.drop_first()), body[0])
    }
}

/// Walking `body` against `kb` never meets a variable on the fact side.
pub open spec fn walk_defined(kb: Seq<AtomV>, body: Seq<AtomV>) -> bool
    decreases body.len(),
{
    if body.len() == 0 {
        true
    } else {
        walk_defined(kb, body.drop_first()) && eval_atom_defined(
            kb,
            walk(kb, body.drop_first()),
            body[0],
        )
    }
}

/// The facts a rule yields against `kb`: its head under each walked substitution.
pub open spec fn spec_eval_rule(kb: Seq<AtomV>, rule: RuleV) -> Seq<AtomV> {
    walk(kb, rule.body).map_values(|s: SubV| spec_substitute(rule.head, s))
}

/// Walking a body is defined on every suffix of it when it is defined on the whole.
pub proof fn lemma_walk_defined_skip(kb: Seq<AtomV>, body: Seq<AtomV>, k: int)
    requires
        walk_defined(kb, body),
        0 <= k <= body.len(),
    ensures
        walk_defined(kb, body.skip(k)),
    decreases k,
{
    if k == 0 {
        assert(body.skip(0) =~= body);
    } else {
        lemma_walk_defined_skip(kb, body, k - 1);
        assert(body.skip(k - 1).drop_first() =~= body.skip(k));
    }
}

/// The Datalog solver: computes the facts that a set of rules entails.
#[derive(Default, Debug, Clone)]
pub struct Solver;

/// The invariant of the fixpoint iteration over `kb`: distinct ground facts over
/// the head symbols of the rules, each entailed by the rules.
pub open spec fn iteration_inv(rules: Seq<RuleV>, kb: Seq<AtomV>) -> bool {
    &&& kb.no_duplicates()
    &&& forall|j: int| 0 <= j < kb.len() ==> is_ground(#[trigger] kb[j])
    &&& kb_args_in(kb.to_set(), head_syms(rules))
    &&& kb.to_set().subset_of(universe(rules, head_syms(rules)))
    &&& forall|k: Set<AtomV>| #[trigger] closed_under(rules, k) ==> kb.to_set().subset_of(k)
}

pub open spec fn all_range_restricted(rules: Seq<RuleV>) -> bool {
    forall|i: int| 0 <= i < rules.len() ==> range_restricted(#[trigger] rules[i])
}

impl Solver {
    /// All the facts the rules entail: the least set of facts closed under the
    /// rules, each listed once, every one ground.
    pub fn solve(&self, rules: Vec<Rule>) -> (r: Vec<Atom>)
        requires
            all_range_restricted(rules_view(rules@)),
        ensures
            is_least_model(rules_view(rules@), atoms_view(r@).to_set()),
            atoms_view(r@).no_duplicates(),
            forall|j: int| 0 <= j < r@.len() ==> is_ground(#[trigger] atoms_view(r@)[j]),
    {
        let mut i: usize = 0;
        while i < rules.len()
            invariant
                i <= rules@.len(),
                all_range_restricted(rules_view(rules@)),
            decreases rules@.len() - i,
        {
            if !rules[i].is_range_restricted() {
                // every rule is range restricted by the precondition
                proof {
                    assert(range_restricted(rules_view(rules@)[i as int]));
                }
                return Vec::new();
            }
            i = i + 1;
        }
        let kb: Vec<Atom> = Vec::new();
        proof {
            let rv = rules_view(rules@);
            let kbv = atoms_view(kb@);
            assert(kbv.to_set() =~= Set::<AtomV>::empty());
            lemma_head_syms(rv);
        }
        self.step(&rules, kb)
    }

    /// Iterates the immediate consequence from `kb` until nothing new is derived.
    fn step(&self, rules: &Vec<Rule>, kb: Vec<Atom>) -> (r: Vec<Atom>)
        requires
            all_range_restricted(rules_view(rules@)),
            iteration_inv(rules_view(rules@), atoms_view(kb@)),
        ensures
            is_least_model(rules_view(rules@), atoms_view(r@).to_set()),
            atoms_view(r@).no_duplicates(),
            forall|j: int| 0 <= j < r@.len() ==> is_ground(#[trigger] atoms_view(r@)[j]),
        decreases universe(rules_view(rules@), head_syms(rules_view(rules@))).len() - kb@.len(),
    {
        let ghost rv = rules_view(rules@);
        let ghost p = head_syms(rv);
        let ghost u = universe(rv, p);
        let ghost kbv = atoms_view(kb@);
        let next_kb = self.immediate_consequence(rules, &kb);
        let ghost nv = atoms_view(next_kb@);
        proof {
            lemma_head_syms(rv);
            lemma_universe(rv, p);
            assert forall|a: AtomV| derives(rv, kbv.to_set(), a) implies u.contains(a) && terms_in(
                a.args,
                p,
            ) && is_ground(a) by {
                let (m, theta) = choose|m: int, theta: SubV|
                    #![trigger satisfies(kbv.to_set(), rv[m].body, theta), spec_substitute(rv[m].head, theta)]
                    0 <= m < rv.len() && satisfies(kbv.to_set(), rv[m].body, theta) && a
                        == spec_substitute(rv[m].head, theta);
                assert(range_restricted(rv[m]));
                lemma_derived_atom(rv[m], kbv.to_set(), theta, p);
                assert(u.contains(a) && rv[m].head == rv[m].head);
            }
            assert forall|j: int| 0 <= j < nv.len() implies is_ground(#[trigger] nv[j]) && terms_in(
                nv[j].args,
                p,
            ) && u.contains(nv[j]) by {
                assert(nv.contains(nv[j]));
                if kbv.contains(nv[j]) {
                    assert(kbv.to_set().contains(nv[j]));
                    let m = choose|m: int| 0 <= m < kbv.len() && kbv[m] == nv[j];
                    assert(is_ground(kbv[m]));
                }
            }
            assert(kb_args_in(nv.to_set(), p));
            assert(nv.to_set().subset_of(u));
            assert forall|k: Set<AtomV>| #[trigger] closed_under(rv, k) implies nv.to_set().subset_of(
                k,
            ) by {
                assert forall|a: AtomV| nv.to_set().contains(a) implies k.contains(a) by {
                    if !kbv.contains(a) {
                        lemma_derives_mono(rv, kbv.to_set(), k, a);
                    } else {
                        assert(kbv.to_set().contains(a));
                    }
                }
            }
            nv.unique_seq_to_set();
            kbv.unique_seq_to_set();
            vstd::set_lib::lemma_len_subset(nv.to_set(), u);
        }
        if next_kb.len() == kb.len() {
            proof {
                assert(nv =~= kbv) by {
                    assert(nv.take(kbv.len() as int) == kbv);
                    assert(nv.take(kbv.len() as int) =~= nv);
                }
                assert forall|a: AtomV| #[trigger] derives(rv, nv.to_set(), a) implies nv.to_set().contains(a) by {
                    assert(nv.contains(a));
                }
            }
            return next_kb;
        }
        self.step(rules, next_kb)
    }

    /// The facts of `kb` followed by the new facts each rule yields from `kb`.
    pub fn immediate_consequence(&self, rules: &Vec<Rule>, kb: &Vec<Atom>) -> (r: Vec<Atom>)
        requires
            atoms_view(kb@).no_duplicates(),
            forall|j: int| 0 <= j < kb@.len() ==> is_ground(#[trigger] atoms_view(kb@)[j]),
        ensures
            atoms_view(r@).no_duplicates(),
            r@.len() >= kb@.len(),
            atoms_view(r@).take(kb@.len() as int) == atoms_view(kb@),
            forall|a: AtomV|
                #[trigger] atoms_view(r@).contains(a) <==> (atoms_view(kb@).contains(a) || derives(
                    rules_view(rules@),
                    atoms_view(kb@).to_set(),
                    a,
                )),
            atoms_view(r@).to_set() == consequence(rules_view(rules@), atoms_view(kb@).to_set()),
    {
        let ghost kbv = atoms_view(kb@);
        let ghost rv = rules_view(rules@);
        let mut new_kb: Vec<Atom> = Vec::new();
        let mut j: usize = 0;
        while j < kb.len()
            invariant
                j <= kb@.len(),
                kbv == atoms_view(kb@),
                atoms_view(new_kb@) =~= kbv.take(j as int),
            decreases kb@.len() - j,
        {
            let a = kb[j].duplicate();
            let ghost before = new_kb@;
            new_kb.push(a);
            proof {
                assert(atoms_view(new_kb@) =~= atoms_view(before).push(a@));
                assert(kbv.take(j + 1) =~= kbv.take(j as int).push(kbv[j as int]));
            }
            j = j + 1;
        }
        proof {
            assert(kbv.take(kb@.len() as int) =~= kbv);
            assert(rv.take(0) =~= Seq::<RuleV>::empty());
            assert forall|a: AtomV| atoms_view(new_kb@).contains(a) <==> (kbv.contains(a) || derives(
                rv.take(0),
                kbv.to_set(),
                a,
            )) by {}
        }
        let mut i: usize = 0;
        while i < rules.len()
            invariant
                i <= rules@.len(),
                kbv == atoms_view(kb@),
                rv == rules_view(rules@),
                kbv.no_duplicates(),
                forall|j: int| 0 <= j < kbv.len() ==> is_ground(#[trigger] kbv[j]),
                atoms_view(new_kb@).no_duplicates(),
                new_kb@.len() >= kb@.len(),
                atoms_view(new_kb@).take(kb@.len() as int) == kbv,
                forall|a: AtomV|
                    atoms_view(new_kb@).contains(a) <==> (kbv.contains(a) || derives(
                        rv.take(i as int),
                        kbv.to_set(),
                        a,
                    )),
            decreases rules@.len() - i,
        {
            proof {
                lemma_walk_defined_ground(kbv, rv[i as int].body);
            }
            let facts = self.eval_rule(&rules[i], kb);
            let ghost fv = atoms_view(facts@);
            let ghost base = atoms_view(new_kb@);
            let mut k: usize = 0;
            while k < facts.len()
                invariant
                    k <= facts@.len(),
                    fv == atoms_view(facts@),
                    kbv == atoms_view(kb@),
                    rv == rules_view(rules@),
                    i < rules@.len(),
                    forall|a: AtomV|
                        base.contains(a) <==> (kbv.contains(a) || derives(
                            rv.take(i as int),
                            kbv.to_set(),
                            a,
                        )),
                    atoms_view(new_kb@).no_duplicates(),
                    new_kb@.len() >= kb@.len(),
                    atoms_view(new_kb@).take(kb@.len() as int) == kbv,
                    forall|a: AtomV|
                        atoms_view(new_kb@).contains(a) <==> (base.contains(a) || fv.take(
                            k as int,
                        ).contains(a)),
                decreases facts@.len() - k,
            {
                let f = &facts[k];
                proof {
                    assert(f@ == fv[k as int]);
                    assert(fv.take(k + 1) =~= fv.take(k as int).push(fv[k as int]));
                }
                let present = contains_atom(&new_kb, f);
                let ghost before = atoms_view(new_kb@);
                if !present {
                    new_kb.push(f.duplicate());
                    proof {
                        assert(atoms_view(new_kb@) =~= before.push(f@));
                        assert(atoms_view(new_kb@).take(kb@.len() as int) =~= before.take(
                            kb@.len() as int,
                        ));
                        assert(atoms_view(new_kb@).no_duplicates()) by {
                            assert forall|x: int, y: int|
                                0 <= x < atoms_view(new_kb@).len() && 0 <= y < atoms_view(
                                    new_kb@,
                                ).len() && x != y implies atoms_view(new_kb@)[x] != atoms_view(
                                new_kb@,
                            )[y] by {
                                if x < before.len() && y < before.len() {
                                } else if x < before.len() {
                                    assert(before[x] == atoms_view(new_kb@)[x]);
                                } else {
                                    assert(before[y] == atoms_view(new_kb@)[y]);
                                }
                            }
                        }
                    }
                }
                proof {
                    assert forall|a: AtomV|
                        #![trigger atoms_view(new_kb@).contains(a)]
                        atoms_view(new_kb@).contains(a) <==> (base.contains(a) || fv.take(
                            k + 1,
                        ).contains(a)) by {
                        lemma_push_contains(before, f@, a);
                        lemma_push_contains(fv.take(k as int), f@, a);
                        assert(before.contains(a) <==> (base.contains(a) || fv.take(
                            k as int,
                        ).contains(a)));
                        if present {
                            assert(atoms_view(new_kb@) == before);
                        }
                    }
                }
                k = k + 1;
            }
            proof {
                assert(fv.take(facts@.len() as int) =~= fv);
                assert forall|a: AtomV|
                    #![trigger atoms_view(new_kb@).contains(a)]
                    atoms_view(new_kb@).contains(a) <==> (kbv.contains(a) || derives(
                        rv.take(i + 1),
                        kbv.to_set(),
                        a,
                    )) by {
                    lemma_derives_take(rv, kbv.to_set(), i as int, a);
                    lemma_eval_rule_member(kbv, rv[i as int], a);
                    assert(rules@[i as int]@ == rv[i as int]);
                    assert(fv == spec_eval_rule(kbv, rv[i as int]));
                    assert(base.contains(a) <==> (kbv.contains(a) || derives(
                        rv.take(i as int),
                        kbv.to_set(),
                        a,
                    )));
                }
            }
            i = i + 1;
        }
        proof {
            assert(i == rules@.len());
            assert(rv.take(i as int) =~= rv);
            assert forall|a: AtomV|
                #![trigger atoms_view(new_kb@).contains(a)]
                atoms_view(new_kb@).contains(a) <==> (kbv.contains(a) || derives(
                    rv,
                    kbv.to_set(),
                    a,
                )) by {}
            assert(atoms_view(new_kb@).to_set() =~= consequence(rv, kbv.to_set()));
        }
        new_kb
    }

    /// Matches `atom`, under each substitution of `subs`, against every fact of
    /// `kb`, and returns each substitution extended with each match.
    pub fn eval_atom(&self, kb: &Vec<Atom>, subs: Vec<Substitution>, atom: &Atom) -> (r: Vec<
        Substitution,
    >)
        requires
            eval_atom_defined(atoms_view(kb@), subs_view(subs@), atom@),
        ensures
            subs_view(r@) == spec_eval_atom(atoms_view(kb@), subs_view(subs@), atom@),
    {
        let ghost kbv = atoms_view(kb@);
        let ghost sv = subs_view(subs@);
        let mut out: Vec<Substitution> = Vec::new();
        let mut i: usize = 0;
        proof {
            assert(sv.take(0) =~= Seq::<SubV>::empty());
            assert(subs_view(out@) =~= Seq::<SubV>::empty());
        }
        while i < subs.len()
            invariant
                i <= subs@.len(),
                kbv == atoms_view(kb@),
                sv == subs_view(subs@),
                eval_atom_defined(kbv, sv, atom@),
                subs_view(out@) == spec_eval_atom(kbv, sv.take(i as int), atom@),
            decreases subs@.len() - i,
        {
            let sub = &subs[i];
            let lowered = atom.duplicate().substitute(sub);
            let ghost base = out@;
            let mut j: usize = 0;
            proof {
                assert(kbv.take(0) =~= Seq::<AtomV>::empty());
                assert(subs_view(base) + spec_eval_atom_one(kbv.take(0), sub@, atom@) =~= subs_view(out@));
            }
            while j < kb.len()
                invariant
                    j <= kb@.len(),
                    i < subs@.len(),
                    kbv == atoms_view(kb@),
                    sv == subs_view(subs@),
                    sub@ == sv[i as int],
                    lowered@ == spec_substitute(atom@, sub@),
                    eval_atom_defined(kbv, sv, atom@),
                    subs_view(out@) == subs_view(base) + spec_eval_atom_one(
                        kbv.take(j as int),
                        sub@,
                        atom@,
                    ),
                decreases kb@.len() - j,
            {
                proof {
                    assert(unify_defined(spec_substitute(atom@, sv[i as int]), kbv[j as int]));
                    assert(kbv.take(j + 1).drop_last() =~= kbv.take(j as int));
                    assert(kbv.take(j + 1).last() == kbv[j as int]);
                }
                let ghost before = out@;
                match lowered.unify(&kb[j]) {
                    Some(sub2) => {
                        let extended = sub.duplicate().concat(sub2);
                        out.push(extended);
                        proof {
                            assert(subs_view(out@) =~= subs_view(before).push(extended@));
                        }
                    },
                    None => {},
                }
                proof {
                    assert(subs_view(out@) =~= subs_view(base) + spec_eval_atom_one(
                        kbv.take(j + 1),
                        sub@,
                        atom@,
                    ));
                }
                j = j + 1;
            }
            proof {
                assert(kbv.take(kb@.len() as int) =~= kbv);
                assert(sv.take(i + 1).drop_last() =~= sv.take(i as int));
                assert(sv.take(i + 1).last() == sv[i as int]);
            }
            i = i + 1;
        }
        proof {
            assert(sv.take(subs@.len() as int) =~= sv);
        }
        out
    }

    /// The facts `rule` yields against `kb`: its head under every substitution
    /// that satisfies the body, matching the body atoms from last to first.
    pub fn eval_rule(&self, rule: &Rule, kb: &Vec<Atom>) -> (r: Vec<Atom>)
        requires
            walk_defined(atoms_view(kb@), rule@.body),
        ensures
            atoms_view(r@) == spec_eval_rule(atoms_view(kb@), rule@),
    {
        let ghost kbv = atoms_view(kb@);
        let ghost body = rule@.body;
        let mut subs: Vec<Substitution> = Vec::new();
        subs.push(Substitution::empty());
        let mut idx: usize = rule.body.len();
        proof {
            assert(body.skip(body.len() as int) =~= Seq::<AtomV>::empty());
            assert(subs_view(subs@) =~= walk(kbv, body.skip(idx as int)));
        }
        while idx > 0
            invariant
                idx <= rule.body@.len(),
                kbv == atoms_view(kb@),
                body == rule@.body,
                walk_defined(kbv, body),
                subs_view(subs@) == walk(kbv, body.skip(idx as int)),
            decreases idx,
        {
            proof {
                lemma_walk_defined_skip(kbv, body, idx - 1);
                assert(body.skip(idx - 1).drop_first() =~= body.skip(idx as int));
                assert(body.skip(idx - 1)[0] == body[idx - 1]);
            }
            subs = self.eval_atom(kb, subs, &rule.body[idx - 1]);
            idx = idx - 1;
        }
        proof {
            assert(body.skip(0) =~= body);
        }
        let mut out: Vec<Atom> = Vec::new();
        let mut k: usize = 0;
        while k < subs.len()
            invariant
                k <= subs@.len(),
                subs_view(subs@) == walk(kbv, body),
                body == rule@.body,
                kbv == atoms_view(kb@),
                atoms_view(out@) =~= spec_eval_rule(kbv, rule@).take(k as int),
            decreases subs@.len() - k,
        {
            let fact = rule.head.duplicate().substitute(&subs[k]);
            let ghost before = out@;
            out.push(fact);
            proof {
                assert(atoms_view(out@) =~= atoms_view(before).push(fact@));
                assert(spec_eval_rule(kbv, rule@).take(k + 1) =~= spec_eval_rule(kbv, rule@).take(
                    k as int,
                ).push(spec_eval_rule(kbv, rule@)[k as int]));
            }
            k = k + 1;
        }
        proof {
            assert(spec_eval_rule(kbv, rule@).take(subs@.len() as int) =~= spec_eval_rule(kbv, rule@));
        }
        out
    }
}

} // verus!
