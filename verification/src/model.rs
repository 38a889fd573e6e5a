//! The data model: entities, facts about them, and the requests that carry facts.

use vstd::prelude::*;

use crate::assoc::{AssocMap, ViewEq};
use crate::tx_manager::TxId;
use crate::value::{DateTime, Value, ValueV};

verus! {

/// The name of an entity, a field, a source or a fact.
#[derive(Debug, Clone, PartialEq, Eq, PartialOrd, Ord, Hash)]
pub struct Uri(pub String);

impl View for Uri {
    type V = Seq<char>;

    open spec fn view(&self) -> Seq<char> {
        self.0@
    }
}

impl ViewEq for Uri {
    fn view_eq(&self, other: &Uri) -> (r: bool) {
        self.0 == other.0
    }
}

impl Uri {
    pub fn new(s: String) -> (r: Uri)
        ensures
            r@ == s@,
    {
        Uri(s)
    }

    /// The text of the URI.
    pub fn to_string(&self) -> (r: String)
        ensures
            r@ == self@,
    {
        self.0.clone()
    }

    /// A copy with the same text.
    pub fn duplicate(&self) -> (r: Uri)
        ensures
            r@ == self@,
    {
        Uri(self.0.clone())
    }
}

/// The texts of a list of URIs.
pub open spec fn uris_view(us: Seq<Uri>) -> Seq<Seq<char>> {
    us.map_values(|u: Uri| u@)
}

/// The mathematical value of a fact.
pub struct FactV {
    pub tx_id: u64,
    pub id: Seq<char>,
    pub entity: Seq<char>,
    pub field: Seq<char>,
    pub source: Seq<char>,
    pub value: ValueV,
    pub stated_at: i128,
}

/// A stated fact: `entity.field = value`, said by `source` at `stated_at`, recorded
/// in transaction `tx_id` under the name `id`.
#[derive(Debug, Clone)]
pub struct Fact {
    pub tx_id: TxId,
    pub id: Uri,
    pub entity: Uri,
    pub field: Uri,
    pub source: Uri,
    pub value: Value,
    pub stated_at: DateTime,
}

impl View for Fact {
    type V = FactV;

    open spec fn view(&self) -> FactV {
        FactV {
            tx_id: self.tx_id.0,
            id: self.id@,
            entity: self.entity@,
            field: self.field@,
            source: self.source@,
            value: self.value@,
            stated_at: self.stated_at.nanos(),
        }
    }
}

impl Fact {
    /// A copy with the same value.
    pub fn duplicate(&self) -> (r: Fact)
        ensures
            r@ == self@,
    {
        Fact {
            tx_id: self.tx_id,
            id: self.id.duplicate(),
            entity: self.entity.duplicate(),
            field: self.field.duplicate(),
            source: self.source.duplicate(),
            value: self.value.duplicate(),
            stated_at: self.stated_at,
        }
    }
}

/// Whether a fact states or retracts.
#[derive(Debug, Clone, Copy, PartialEq, Eq)]
pub enum FactMode {
    State,
    Retract,
}

/// A fact as a user states it, before it is given a name and a transaction.
#[derive(Debug, Clone)]
pub struct UserFact {
    pub entity: Uri,
    pub field: Uri,
    pub source: Uri,
    pub value: Value,
    pub stated_at: DateTime,
}

/// The mathematical value of a user fact.
pub struct UserFactV {
    pub entity: Seq<char>,
    pub field: Seq<char>,
    pub source: Seq<char>,
    pub value: ValueV,
    pub stated_at: i128,
}

impl View for UserFact {
    type V = UserFactV;

    open spec fn view(&self) -> UserFactV {
        UserFactV {
            entity: self.entity@,
            field: self.field@,
            source: self.source@,
            value: self.value@,
            stated_at: self.stated_at.nanos(),
        }
    }
}

/// A query and the transaction it should read at.
#[derive(Debug, Clone)]
pub struct QueryReq {
    pub query: String,
    pub tx_id: TxId,
}

/// Facts to state.
#[derive(Debug, Clone)]
pub struct StateFactsReq {
    pub facts: Vec<UserFact>,
}

/// The transaction that stated some facts.
#[derive(Debug, Clone, Copy)]
pub struct StateFactsRes {
    pub tx_id: TxId,
}

/// The current state of an entity: for each field, the value of the latest fact
/// stated about it, and that fact.
#[derive(Debug)]
pub struct Entity {
    pub uri: Uri,
    pub fields: AssocMap<Uri, Value>,
    pub prior_facts: AssocMap<Uri, Fact>,
    pub created_at: DateTime,
    pub last_updated_at: DateTime,
}

/// The mathematical value of an entity: its name, its fields and the facts behind them.
pub struct EntityV {
    pub uri: Seq<char>,
    pub fields: Map<Seq<char>, ValueV>,
    pub prior_facts: Map<Seq<char>, FactV>,
}

impl View for Entity {
    type V = EntityV;

    open spec fn view(&self) -> EntityV {
        EntityV { uri: self.uri@, fields: self.fields@, prior_facts: self.prior_facts@ }
    }
}

/// Whether `fact` takes over its field from the fact currently recorded for it:
/// it does unless it was stated strictly before that fact.
pub open spec fn supersedes(prior: Map<Seq<char>, FactV>, fact: FactV) -> bool {
    prior.contains_key(fact.field) ==> fact.stated_at >= prior[fact.field].stated_at
}

impl Entity {
    /// An entity with no fields yet.
    pub fn new(uri: Uri) -> (r: Entity)
        ensures
            r.uri@ == uri@,
            r.fields@ == Map::<Seq<char>, ValueV>::empty(),
            r.prior_facts@ == Map::<Seq<char>, FactV>::empty(),
    {
        Entity {
            uri,
            created_at: DateTime::now_utc(),
            last_updated_at: DateTime::now_utc(),
            fields: AssocMap::new(),
            prior_facts: AssocMap::new(),
        }
    }

    /// Takes `fact` into account: it becomes the field's value unless a fact stated
    /// later is already recorded for that field.
    pub fn consolidate(&mut self, fact: Fact)
        ensures
            final(self).uri == old(self).uri,
            final(self).created_at == old(self).created_at,
            supersedes(old(self).prior_facts@, fact@) ==> {
                &&& final(self).fields@ == old(self).fields@.insert(fact@.field, fact@.value)
                &&& final(self).prior_facts@ == old(self).prior_facts@.insert(fact@.field, fact@)
            },
            !supersedes(old(self).prior_facts@, fact@) ==> {
                &&& final(self).fields@ == old(self).fields@
                &&& final(self).prior_facts@ == old(self).prior_facts@
                &&& final(self).last_updated_at == old(self).last_updated_at
            },
    {
        let newer = match self.prior_facts.get(&fact.field) {
            Some(prior_fact) => fact.stated_at.unix_nanos() >= prior_fact.stated_at.unix_nanos(),
            None => true,
        };
        if newer {
            self.insert_fact(fact);
        }
    }

    /// Records `fact` as the latest fact of its field.
    pub fn insert_fact(&mut self, fact: Fact)
        ensures
            final(self).uri == old(self).uri,
            final(self).created_at == old(self).created_at,
            final(self).fields@ == old(self).fields@.insert(fact@.field, fact@.value),
            final(self).prior_facts@ == old(self).prior_facts@.insert(fact@.field, fact@),
    {
        self.fields.insert(fact.field.duplicate(), fact.value.duplicate());
        self.prior_facts.insert(fact.field.duplicate(), fact);
        self.last_updated_at = DateTime::now_utc();
    }
}

} // verus!
