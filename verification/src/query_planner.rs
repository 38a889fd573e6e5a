//! Query planning: which index scans load the facts a query rule can use.

use vstd::prelude::*;

use crate::engine::{AtomV, Rule, RuleV, Term, TermV};
use crate::error::PachaResult;
use crate::text::{join_slash, slash_join};
use crate::tx_manager::TxId;

verus! {

/// A scan of the index by a prefix of known parts of a fact.
#[derive(Debug, Clone, PartialEq, Eq, PartialOrd, Ord)]
pub enum Scan {
    Entity(String),
    EntityField(String, String),
    Field(String),
    FieldValue(String, String),
    EntityValue(String, String),
    Value(String),
}

/// The mathematical value of a scan.
pub enum ScanV {
    Entity(Seq<char>),
    EntityField(Seq<char>, Seq<char>),
    Field(Seq<char>),
    FieldValue(Seq<char>, Seq<char>),
    EntityValue(Seq<char>, Seq<char>),
    Value(Seq<char>),
}

impl View for Scan {
    type V = ScanV;

    open spec fn view(&self) -> ScanV {
        match self {
            Scan::Entity(e) => ScanV::Entity(e@),
            Scan::EntityField(e, f) => ScanV::EntityField(e@, f@),
            Scan::Field(f) => ScanV::Field(f@),
            Scan::FieldValue(f, v) => ScanV::FieldValue(f@, v@),
            Scan::EntityValue(e, v) => ScanV::EntityValue(e@, v@),
            Scan::Value(v) => ScanV::Value(v@),
        }
    }
}

/// The key prefix a scan looks for.
pub open spec fn scan_prefix(s: ScanV) -> Seq<char> {
    match s {
        ScanV::Entity(e) => e,
        ScanV::EntityField(e, f) => slash_join(e, f),
        ScanV::Field(f) => f,
        ScanV::FieldValue(f, v) => slash_join(f, v),
        ScanV::EntityValue(e, v) => slash_join(e, v),
        ScanV::Value(v) => v,
    }
}

impl Scan {
    /// A copy with the same value.
    pub fn clone_scan(&self) -> (r: Scan)
        ensures
            r@ == self@,
    {
        match self {
            Scan::Entity(e) => Scan::Entity(e.clone()),
            Scan::EntityField(e, f) => Scan::EntityField(e.clone(), f.clone()),
            Scan::Field(f) => Scan::Field(f.clone()),
            Scan::FieldValue(f, v) => Scan::FieldValue(f.clone(), v.clone()),
            Scan::EntityValue(e, v) => Scan::EntityValue(e.clone(), v.clone()),
            Scan::Value(v) => Scan::Value(v.clone()),
        }
    }

    /// The key prefix this scan looks for.
    pub fn to_prefix(&self) -> (r: String)
        ensures
            r@ == scan_prefix(self@),
    {
        match self {
            Scan::Entity(prefix) => prefix.clone(),
            Scan::EntityField(e, f) => join_slash(e.as_str(), f.as_str()),
            Scan::Field(f) => f.clone(),
            Scan::FieldValue(f, v) => join_slash(f.as_str(), v.as_str()),
            Scan::EntityValue(e, v) => join_slash(e.as_str(), v.as_str()),
            Scan::Value(v) => v.clone(),
        }
    }
}

/// A plan: scan the index at a transaction, then go on with the rest of the plan;
/// or solve a rule against the facts loaded so far.
#[derive(Debug, PartialEq, Eq, PartialOrd, Ord)]
pub enum QueryPlan {
    RunScan(TxId, Vec<Scan>, Box<QueryPlan>),
    Solve(Rule),
}

/// The mathematical value of a plan.
pub enum QueryPlanV {
    RunScan(u64, Seq<ScanV>, Box<QueryPlanV>),
    Solve(RuleV),
}

pub open spec fn scans_view(scans: Seq<Scan>) -> Seq<ScanV> {
    scans.map_values(|s: Scan| s@)
}

pub open spec fn plan_view(p: QueryPlan) -> QueryPlanV
    decreases p,
{
    match p {
        QueryPlan::RunScan(tx, scans, next) => QueryPlanV::RunScan(
            tx.0,
            scans_view(scans@),
            Box::new(plan_view(*next)),
        ),
        QueryPlan::Solve(r) => QueryPlanV::Solve(r@),
    }
}

impl View for QueryPlan {
    type V = QueryPlanV;

    open spec fn view(&self) -> QueryPlanV {
        plan_view(*self)
    }
}

/// The scans that load the facts a body atom `field(entity, value)` can match:
/// by whichever of entity, field and value are known.
pub open spec fn atom_scans(a: AtomV) -> Seq<ScanV> {
    let entity = a.args[0];
    let value = a.args[1];
    match a.relation {
        TermV::Var(_) => match (entity, value) {
            (TermV::Var(_), TermV::Sym(v)) => seq![ScanV::Value(v)],
            (TermV::Sym(e), TermV::Var(_)) => seq![ScanV::Entity(e)],
            (TermV::Sym(e), TermV::Sym(v)) => seq![ScanV::EntityValue(e, v)],
            (TermV::Var(_), TermV::Var(_)) => Seq::empty(),
        },
        TermV::Sym(f) => match (entity, value) {
            (TermV::Var(_), TermV::Sym(v)) => seq![ScanV::FieldValue(f, v)],
            (TermV::Sym(e), TermV::Var(_)) => seq![ScanV::EntityField(e, f)],
            (TermV::Sym(_), TermV::Sym(_)) => Seq::empty(),
            (TermV::Var(_), TermV::Var(_)) => seq![ScanV::Field(f)],
        },
    }
}

/// The scans of every atom of the body, in order.
pub open spec fn body_scans(body: Seq<AtomV>) -> Seq<ScanV>
    decreases body.len(),
{
    if body.len() == 0 {
        Seq::empty()
    } else {
        body_scans(body.drop_last()) + atom_scans(body.last())
    }
}

/// Every atom of the body has at least an entity and a value argument.
pub open spec fn body_binary(body: Seq<AtomV>) -> bool {
    forall|j: int| 0 <= j < body.len() ==> (#[trigger] body[j]).args.len() >= 2
}

/// The planner: scans for every body atom, then solving.
#[derive(Default, Debug, Clone, Copy)]
pub struct DefaultQueryPlanner;

impl DefaultQueryPlanner {
    /// Plans `query` to read the facts of transactions before `tx_id`.
    pub fn plan(&self, query: Rule, tx_id: TxId) -> (r: PachaResult<QueryPlan>)
        requires
            body_binary(query@.body),
        ensures
            r matches Ok(p) && p@ == QueryPlanV::RunScan(
                tx_id.0,
                body_scans(query@.body),
                Box::new(QueryPlanV::Solve(query@)),
            ),
    {
        let mut scans: Vec<Scan> = Vec::new();
        let mut j: usize = 0;
        let ghost body = query@.body;
        proof {
            assert(body.take(0) =~= Seq::<AtomV>::empty());
            assert(scans_view(scans@) =~= body_scans(body.take(0)));
        }
        while j < query.body.len()
            invariant
                j <= query.body@.len(),
                body == query@.body,
                body_binary(body),
                scans_view(scans@) == body_scans(body.take(j as int)),
            decreases query.body@.len() - j,
        {
            let atom = &query.body[j];
            proof {
                assert(body[j as int] == atom@);
                assert(atom@.args.len() >= 2);
                assert(body.take(j + 1).drop_last() =~= body.take(j as int));
                assert(body.take(j + 1).last() == atom@);
            }
            let entity = &atom.args[0];
            let value = &atom.args[1];
            let ghost before = scans_view(scans@);
            match &atom.relation {
                Term::Var(_) => {
                    match (entity, value) {
                        (Term::Var(_), Term::Sym(v)) => scans.push(Scan::Value(v.clone())),
                        (Term::Sym(e), Term::Var(_)) => scans.push(Scan::Entity(e.clone())),
                        (Term::Sym(e), Term::Sym(v)) => scans.push(
                            Scan::EntityValue(e.clone(), v.clone()),
                        ),
                        (Term::Var(_), Term::Var(_)) => {},
                    }
                },
                Term::Sym(f) => {
                    match (entity, value) {
                        (Term::Var(_), Term::Sym(v)) => scans.push(
                            Scan::FieldValue(f.clone(), v.clone()),
                        ),
                        (Term::Sym(e), Term::Var(_)) => scans.push(
                            Scan::EntityField(e.clone(), f.clone()),
                        ),
                        (Term::Sym(_), Term::Sym(_)) => {},
                        (Term::Var(_), Term::Var(_)) => scans.push(Scan::Field(f.clone())),
                    }
                },
            }
            proof {
                assert(scans_view(scans@) =~= before + atom_scans(atom@));
            }
            j = j + 1;
        }
        proof {
            assert(body.take(query.body@.len() as int) =~= body);
        }
        let ghost qv = query@;
        let ghost sv = scans_view(scans@);
        let solve = QueryPlan::Solve(query);
        proof {
            assert(plan_view(solve) == QueryPlanV::Solve(qv));
        }
        let p = QueryPlan::RunScan(tx_id, scans, Box::new(solve));
        proof {
            assert(sv == body_scans(qv.body));
            assert(p@ == QueryPlanV::RunScan(
                tx_id.0,
                body_scans(qv.body),
                Box::new(QueryPlanV::Solve(qv)),
            ));
        }
        Ok(p)
    }
}

} // verus!
