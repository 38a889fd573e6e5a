//! Transactions: ids, and the manager that turns stated facts into a committed transaction.

use vstd::prelude::*;

use crate::backend::memory::{
    consolidate_facts, index_facts, insert_facts, InMemoryConsolidator, InMemoryIndex,
    InMemoryStore, StoreV,
};
use crate::error::PachaResult;
use crate::index::IndexKeyV;
use crate::model::{EntityV, Fact, FactV, Uri, UserFact, UserFactV};
use crate::text::{decimal, u64_to_string};

verus! {

/// The id of a transaction; ids count up from zero.
#[derive(Default, Debug, Clone, Copy, PartialEq, Eq, PartialOrd, Ord, Hash)]
pub struct TxId(pub u64);

impl TxId {
    /// The id that follows this one.
    pub fn next(&self) -> (r: TxId)
        requires
            self.0 < u64::MAX,
        ensures
            r.0 == self.0 + 1,
    {
        TxId(self.0 + 1)
    }

    /// The largest id.
    pub fn max() -> (r: TxId)
        ensures
            r.0 == u64::MAX,
    {
        TxId(u64::MAX)
    }

    /// The decimal text of the id.
    pub fn to_string(&self) -> (r: String)
        ensures
            r@ == decimal(self.0 as nat),
    {
        u64_to_string(self.0)
    }
}

/// The mathematical value of a transaction.
pub struct TransactionV {
    pub id: u64,
    pub fact_ids: Seq<Seq<char>>,
    pub facts: Seq<FactV>,
}

/// The facts stated together under one transaction id.
#[derive(Debug, Clone)]
pub struct Transaction {
    pub id: TxId,
    pub fact_ids: Vec<Uri>,
    pub facts: Vec<Fact>,
}

pub open spec fn facts_view(fs: Seq<Fact>) -> Seq<FactV> {
    fs.map_values(|f: Fact| f@)
}

impl View for Transaction {
    type V = TransactionV;

    open spec fn view(&self) -> TransactionV {
        TransactionV {
            id: self.id.0,
            fact_ids: self.fact_ids@.map_values(|u: Uri| u@),
            facts: facts_view(self.facts@),
        }
    }
}

/// A copy of the facts with the same values.
pub fn duplicate_facts(fs: &Vec<Fact>) -> (r: Vec<Fact>)
    ensures
        facts_view(r@) == facts_view(fs@),
{
    let mut out: Vec<Fact> = Vec::new();
    let mut i: usize = 0;
    while i < fs.len()
        invariant
            i <= fs@.len(),
            facts_view(out@) =~= facts_view(fs@).take(i as int),
        decreases fs@.len() - i,
    {
        let f = fs[i].duplicate();
        let ghost before = out@;
        out.push(f);
        proof {
            assert(facts_view(out@) =~= facts_view(before).push(f@));
            assert(facts_view(fs@).take(i + 1) =~= facts_view(fs@).take(i as int).push(
                facts_view(fs@)[i as int],
            ));
        }
        i = i + 1;
    }
    proof {
        assert(facts_view(fs@).take(fs@.len() as int) =~= facts_view(fs@));
    }
    out
}

impl Transaction {
    /// A copy with the same value.
    pub fn duplicate(&self) -> (r: Transaction)
        ensures
            r@ == self@,
    {
        let mut ids: Vec<Uri> = Vec::new();
        let mut i: usize = 0;
        while i < self.fact_ids.len()
            invariant
                i <= self.fact_ids@.len(),
                ids@.map_values(|u: Uri| u@) =~= self.fact_ids@.map_values(|u: Uri| u@).take(
                    i as int,
                ),
            decreases self.fact_ids@.len() - i,
        {
            let u = self.fact_ids[i].duplicate();
            let ghost before = ids@;
            ids.push(u);
            proof {
                assert(ids@.map_values(|u: Uri| u@) =~= before.map_values(|u: Uri| u@).push(u@));
                assert(self.fact_ids@.map_values(|u: Uri| u@).take(i + 1) =~= self.fact_ids@.map_values(
                    |u: Uri| u@,
                ).take(i as int).push(self.fact_ids@[i as int]@));
            }
            i = i + 1;
        }
        proof {
            assert(self.fact_ids@.map_values(|u: Uri| u@).take(self.fact_ids@.len() as int)
                =~= self.fact_ids@.map_values(|u: Uri| u@));
        }
        Transaction { id: self.id, fact_ids: ids, facts: duplicate_facts(&self.facts) }
    }
}

/// A lower-case hexadecimal digit.
pub open spec fn is_lower_hex(c: char) -> bool {
    ('0' <= c && c <= '9') || ('a' <= c && c <= 'f')
}

/// The hyphenated lower-case text of a version-4 UUID: 32 hexadecimal digits in
/// groups of 8, 4, 4, 4 and 12, separated by hyphens, whose version digit is `4`.
pub open spec fn is_uuid_v4_text(s: Seq<char>) -> bool {
    &&& s.len() == 36
    &&& forall|i: int|
        0 <= i < 36 ==> if i == 8 || i == 13 || i == 18 || i == 23 {
            s[i] == '-'
        } else {
            is_lower_hex(#[trigger] s[i])
        }
    &&& s[14] == '4'
}

/// Draws a random version-4 UUID with `uuid::Uuid::new_v4` and renders it with
/// `to_string`, which writes the hyphenated lower-case form. That form is what is
/// stated; which digits come out is chance.
#[verifier::external_body]
fn random_uuid_text() -> (r: String)
    ensures
        is_uuid_v4_text(r@),
{
    uuid::Uuid::new_v4().to_string()
}

/// The prefix of every fact id.
pub open spec fn fact_id_prefix() -> Seq<char> {
    "pachadb:fact:"@
}

/// `f` is the fact recorded for the user fact `u` in transaction `tx`: same content,
/// the transaction's id, and the name `pachadb:fact:` followed by a version-4 UUID.
pub open spec fn recorded_as(f: FactV, u: UserFactV, tx: u64) -> bool {
    &&& f.tx_id == tx
    &&& f.entity == u.entity
    &&& f.field == u.field
    &&& f.source == u.source
    &&& f.value == u.value
    &&& f.stated_at == u.stated_at
    &&& fact_id_prefix().is_prefix_of(f.id)
    &&& is_uuid_v4_text(f.id.skip(fact_id_prefix().len() as int))
}

/// The mathematical value of a transaction manager: its store, index and entities.
pub struct TxManagerV {
    pub store: StoreV,
    pub index: Map<IndexKeyV, Seq<char>>,
    pub entities: Map<Seq<char>, EntityV>,
}

/// Turns user facts into transactions and commits them to a store, an index and
/// a consolidator.
#[derive(Debug)]
pub struct DefaultTxManager {
    storage: InMemoryStore,
    index: InMemoryIndex,
    consolidator: InMemoryConsolidator,
}

impl View for DefaultTxManager {
    type V = TxManagerV;

    closed spec fn view(&self) -> TxManagerV {
        TxManagerV { store: self.storage@, index: self.index@, entities: self.consolidator@ }
    }
}

impl DefaultTxManager {
    pub fn new(storage: InMemoryStore, index: InMemoryIndex, consolidator: InMemoryConsolidator) -> (r:
        DefaultTxManager)
        ensures
            r@ == (TxManagerV { store: storage@, index: index@, entities: consolidator@ }),
    {
        DefaultTxManager { storage, index, consolidator }
    }

    /// The store.
    pub fn storage(&self) -> (r: &InMemoryStore)
        ensures
            r@ == self@.store,
    {
        &self.storage
    }

    /// The index.
    pub fn index(&self) -> (r: &InMemoryIndex)
        ensures
            r@ == self@.index,
    {
        &self.index
    }

    /// The consolidator.
    pub fn consolidator(&self) -> (r: &InMemoryConsolidator)
        ensures
            r@ == self@.entities,
    {
        &self.consolidator
    }

    /// A transaction holding `facts`, under the next transaction id.
    pub fn transaction(&mut self, facts: Vec<UserFact>) -> (r: PachaResult<Transaction>)
        requires
            old(self)@.store.tx_id < u64::MAX,
        ensures
            r matches Ok(tx) && {
                &&& tx.id.0 == old(self)@.store.tx_id
                &&& tx.fact_ids@.len() == 0
                &&& tx.facts@.len() == facts@.len()
                &&& forall|i: int|
                    0 <= i < facts@.len() ==> recorded_as(
                        #[trigger] tx.facts@[i]@,
                        facts@[i]@,
                        tx.id.0,
                    )
            },
            final(self)@.store.tx_id == old(self)@.store.tx_id + 1,
            final(self)@.store.facts == old(self)@.store.facts,
            final(self)@.store.txs == old(self)@.store.txs,
            final(self)@.index == old(self)@.index,
            final(self)@.entities == old(self)@.entities,
    {
        let tx_id = match self.storage.get_next_tx_id() {
            Ok(t) => t,
            Err(e) => {
                return Err(e);
            },
        };
        let prefix = "pachadb:fact:";
        let mut out: Vec<Fact> = Vec::new();
        let mut i: usize = 0;
        while i < facts.len()
            invariant
                i <= facts@.len(),
                prefix@ == fact_id_prefix(),
                out@.len() == i,
                forall|j: int| 0 <= j < i ==> recorded_as(#[trigger] out@[j]@, facts@[j]@, tx_id.0),
            decreases facts@.len() - i,
        {
            let u = &facts[i];
            let mut id = String::from_str(prefix);
            let uuid = random_uuid_text();
            id.append(uuid.as_str());
            let fact = Fact {
                tx_id,
                id: Uri(id),
                entity: u.entity.duplicate(),
                field: u.field.duplicate(),
                source: u.source.duplicate(),
                value: u.value.duplicate(),
                stated_at: u.stated_at,
            };
            proof {
                assert(fact@.id =~= fact_id_prefix() + uuid@);
                assert(fact_id_prefix().is_prefix_of(fact@.id)) by {
                    assert(fact@.id.take(fact_id_prefix().len() as int) =~= fact_id_prefix());
                }
                assert(fact@.id.skip(fact_id_prefix().len() as int) =~= uuid@);
            }
            out.push(fact);
            i = i + 1;
        }
        Ok(Transaction { id: tx_id, fact_ids: Vec::new(), facts: out })
    }

    /// Stores the transaction's facts and the transaction, indexes and consolidates the facts.
    pub fn commit(&mut self, tx: Transaction) -> (r: PachaResult<TxId>)
        ensures
            r matches Ok(t) && t == tx.id,
            final(self)@.store.tx_id == old(self)@.store.tx_id,
            final(self)@.store.facts == insert_facts(old(self)@.store.facts, facts_view(tx.facts@)),
            final(self)@.store.txs == old(self)@.store.txs.push(tx@),
            final(self)@.index == index_facts(old(self)@.index, facts_view(tx.facts@)),
            final(self)@.entities == consolidate_facts(old(self)@.entities, facts_view(tx.facts@)),
    {
        match self.storage.put_facts(&tx.facts) {
            Ok(()) => {},
            Err(e) => {
                return Err(e);
            },
        }
        match self.storage.put_transaction(&tx) {
            Ok(()) => {},
            Err(e) => {
                return Err(e);
            },
        }
        match self.index.put(&tx.facts) {
            Ok(()) => {},
            Err(e) => {
                return Err(e);
            },
        }
        match self.consolidator.consolidate(&tx.facts) {
            Ok(()) => {},
            Err(e) => {
                return Err(e);
            },
        }
        Ok(tx.id)
    }

    /// The id the next transaction will get: every transaction before it is committed.
    pub fn last_tx_id(&self) -> (r: PachaResult<TxId>)
        ensures
            r matches Ok(t) && t.0 == self@.store.tx_id,
    {
        self.storage.get_tx_id()
    }
}

} // verus!
