//! In-memory backends: a fact store, an index of fact keys, and a consolidator
//! that keeps the current state of every entity.

use vstd::prelude::*;

use crate::assoc::AssocMap;
use crate::error::PachaResult;
use crate::index::{fact_keys, key_text, keys_view, IndexKey, IndexKeySet, IndexKeyV};
use crate::model::{supersedes, Entity, EntityV, Fact, FactV, Uri};
use crate::query_planner::{scan_prefix, Scan};
use crate::tx_manager::{facts_view, Transaction, TransactionV, TxId};
use crate::value::ValueV;

verus! {

/// The facts `fs` recorded in `m` by their ids, later facts winning.
pub open spec fn insert_facts(m: Map<Seq<char>, FactV>, fs: Seq<FactV>) -> Map<Seq<char>, FactV>
    decreases fs.len(),
{
    if fs.len() == 0 {
        m
    } else {
        insert_facts(m, fs.drop_last()).insert(fs.last().id, fs.last())
    }
}

/// The mathematical value of a store.
pub struct StoreV {
    pub tx_id: u64,
    pub facts: Map<Seq<char>, FactV>,
    pub txs: Seq<TransactionV>,
}

/// A store kept in memory: the next transaction id, the facts by id, and the
/// committed transactions.
#[derive(Debug)]
pub struct InMemoryStore {
    tx_id: TxId,
    facts: AssocMap<Uri, Fact>,
    txs: Vec<Transaction>,
}

impl View for InMemoryStore {
    type V = StoreV;

    closed spec fn view(&self) -> StoreV {
        StoreV {
            tx_id: self.tx_id.0,
            facts: self.facts@,
            txs: self.txs@.map_values(|t: Transaction| t@),
        }
    }
}

impl Default for InMemoryStore {
    fn default() -> (r: InMemoryStore)
        ensures
            r@.tx_id == 0,
            r@.facts == Map::<Seq<char>, FactV>::empty(),
            r@.txs.len() == 0,
    {
        let r = InMemoryStore { tx_id: TxId(0), facts: AssocMap::new(), txs: Vec::new() };
        proof {
            assert(r@.txs =~= Seq::<TransactionV>::empty());
        }
        r
    }
}

impl InMemoryStore {
    /// The id the next transaction will get.
    pub fn get_tx_id(&self) -> (r: PachaResult<TxId>)
        ensures
            r matches Ok(t) && t.0 == self@.tx_id,
    {
        Ok(self.tx_id)
    }

    /// Hands out the next transaction id and moves past it.
    pub fn get_next_tx_id(&mut self) -> (r: PachaResult<TxId>)
        requires
            old(self)@.tx_id < u64::MAX,
        ensures
            r matches Ok(t) && t.0 == old(self)@.tx_id,
            final(self)@.tx_id == old(self)@.tx_id + 1,
            final(self)@.facts == old(self)@.facts,
            final(self)@.txs == old(self)@.txs,
    {
        let curr_tx_id = self.tx_id;
        self.tx_id = curr_tx_id.next();
        Ok(curr_tx_id)
    }

    /// Records each fact under its id.
    pub fn put_facts(&mut self, facts: &Vec<Fact>) -> (r: PachaResult<()>)
        ensures
            r is Ok,
            final(self)@.facts == insert_facts(old(self)@.facts, facts_view(facts@)),
            final(self)@.tx_id == old(self)@.tx_id,
            final(self)@.txs == old(self)@.txs,
    {
        let mut i: usize = 0;
        proof {
            assert(facts_view(facts@).take(0) =~= Seq::<FactV>::empty());
        }
        while i < facts.len()
            invariant
                i <= facts@.len(),
                self@.facts == insert_facts(old(self)@.facts, facts_view(facts@).take(i as int)),
                self@.tx_id == old(self)@.tx_id,
                self@.txs == old(self)@.txs,
            decreases facts@.len() - i,
        {
            let fact = &facts[i];
            proof {
                let fv = facts_view(facts@);
                assert(fv.take(i + 1).drop_last() =~= fv.take(i as int));
                assert(fv.take(i + 1).last() == fact@);
            }
            self.facts.insert(fact.id.duplicate(), fact.duplicate());
            i = i + 1;
        }
        proof {
            assert(facts_view(facts@).take(facts@.len() as int) =~= facts_view(facts@));
        }
        Ok(())
    }

    /// Records a committed transaction.
    pub fn put_transaction(&mut self, tx: &Transaction) -> (r: PachaResult<()>)
        ensures
            r is Ok,
            final(self)@.txs == old(self)@.txs.push(tx@),
            final(self)@.facts == old(self)@.facts,
            final(self)@.tx_id == old(self)@.tx_id,
    {
        let ghost before = self.txs@;
        let t = tx.duplicate();
        self.txs.push(t);
        proof {
            assert(self.txs@.map_values(|t: Transaction| t@) =~= before.map_values(
                |t: Transaction| t@,
            ).push(tx@));
        }
        Ok(())
    }

    /// The fact recorded under `uri`, if any.
    pub fn get_fact(&self, uri: Uri) -> (r: PachaResult<Option<Fact>>)
        ensures
            r matches Ok(o) && match o {
                Some(f) => self@.facts.contains_key(uri@) && f@ == self@.facts[uri@],
                None => !self@.facts.contains_key(uri@),
            },
    {
        match self.facts.get(&uri) {
            Some(f) => Ok(Some(f.duplicate())),
            None => Ok(None),
        }
    }
}

/// The index `m` after indexing each fact of `fs` under its keys.
pub open spec fn index_facts(m: Map<IndexKeyV, Seq<char>>, fs: Seq<FactV>) -> Map<
    IndexKeyV,
    Seq<char>,
>
    decreases fs.len(),
{
    if fs.len() == 0 {
        m
    } else {
        index_keys(index_facts(m, fs.drop_last()), fact_keys(fs.last()), fs.last().id)
    }
}

/// The index `m` with each key of `ks` pointing at `id`.
pub open spec fn index_keys(m: Map<IndexKeyV, Seq<char>>, ks: Seq<IndexKeyV>, id: Seq<char>) -> Map<
    IndexKeyV,
    Seq<char>,
>
    decreases ks.len(),
{
    if ks.len() == 0 {
        m
    } else {
        index_keys(m, ks.drop_last(), id).insert(ks.last(), id)
    }
}

/// An index kept in memory: each key points at the id of its fact.
#[derive(Debug)]
pub struct InMemoryIndex {
    idx: AssocMap<IndexKey, Uri>,
}

impl View for InMemoryIndex {
    type V = Map<IndexKeyV, Seq<char>>;

    closed spec fn view(&self) -> Map<IndexKeyV, Seq<char>> {
        self.idx@
    }
}

impl Default for InMemoryIndex {
    fn default() -> (r: InMemoryIndex)
        ensures
            r@ == Map::<IndexKeyV, Seq<char>>::empty(),
    {
        InMemoryIndex { idx: AssocMap::new() }
    }
}

impl InMemoryIndex {
    /// Indexes each fact under its five keys.
    pub fn put(&mut self, facts: &Vec<Fact>) -> (r: PachaResult<()>)
        ensures
            r is Ok,
            final(self)@ == index_facts(old(self)@, facts_view(facts@)),
    {
        let mut i: usize = 0;
        proof {
            assert(facts_view(facts@).take(0) =~= Seq::<FactV>::empty());
        }
        while i < facts.len()
            invariant
                i <= facts@.len(),
                self@ == index_facts(old(self)@, facts_view(facts@).take(i as int)),
            decreases facts@.len() - i,
        {
            let fact = &facts[i];
            let ghost before = self@;
            proof {
                let fv = facts_view(facts@);
                assert(fv.take(i + 1).drop_last() =~= fv.take(i as int));
                assert(fv.take(i + 1).last() == fact@);
            }
            let keys = IndexKeySet::from_fact(fact).keys();
            let ghost kv = keys_view(keys@);
            let mut j: usize = 0;
            proof {
                assert(kv.take(0) =~= Seq::<IndexKeyV>::empty());
            }
            while j < keys.len()
                invariant
                    j <= keys@.len(),
                    kv == keys_view(keys@),
                    self@ == index_keys(before, kv.take(j as int), fact@.id),
                decreases keys@.len() - j,
            {
                proof {
                    assert(kv.take(j + 1).drop_last() =~= kv.take(j as int));
                    assert(kv.take(j + 1).last() == keys@[j as int]@);
                }
                self.idx.insert(keys[j].duplicate(), fact.id.duplicate());
                j = j + 1;
            }
            proof {
                assert(kv.take(keys@.len() as int) =~= kv);
            }
            i = i + 1;
        }
        proof {
            assert(facts_view(facts@).take(facts@.len() as int) =~= facts_view(facts@));
        }
        Ok(())
    }

    /// Every key whose text starts with the scan's prefix, each once.
    pub fn scan(&self, scan: Scan) -> (r: PachaResult<Vec<IndexKey>>)
        ensures
            r matches Ok(keys) && {
                &&& keys_view(keys@).no_duplicates()
                &&& forall|k: IndexKeyV|
                    keys_view(keys@).contains(k) <==> (self@.contains_key(k)
                        && scan_prefix(scan@).is_prefix_of(key_text(k)))
            },
    {
        let prefix = scan.to_prefix();
        let n = self.idx.len();
        let mut keys: Vec<IndexKey> = Vec::new();
        let mut i: usize = 0;
        while i < n
            invariant
                i <= n,
                n == self.idx.entry_seq().len(),
                prefix@ == scan_prefix(scan@),
                crate::assoc::keys_unique(self.idx.entry_seq()),
                forall|kk: IndexKeyV|
                    self.idx@.contains_key(kk) <==> exists|m: int|
                        0 <= m < self.idx.entry_seq().len() && (#[trigger] self.idx.entry_seq()[m]).0@ == kk,
                keys_view(keys@).no_duplicates(),
                forall|k: IndexKeyV|
                    keys_view(keys@).contains(k) <==> (exists|m: int|
                        0 <= m < i && (#[trigger] self.idx.entry_seq()[m]).0@ == k)
                        && prefix@.is_prefix_of(key_text(k)),
            decreases n - i,
        {
            let (key, _) = self.idx.entry(i);
            let ghost kvs = keys_view(keys@);
            if key.starts_with(prefix.as_str()) {
                keys.push(key.duplicate());
                proof {
                    assert(keys_view(keys@) =~= kvs.push(key@));
                    assert(!kvs.contains(key@)) by {
                        if kvs.contains(key@) {
                            let m = choose|m: int|
                                0 <= m < i && (#[trigger] self.idx.entry_seq()[m]).0@ == key@;
                            assert(self.idx.entry_seq()[i as int].0@ == key@);
                        }
                    }
                    assert(keys_view(keys@).no_duplicates()) by {
                        let nk = keys_view(keys@);
                        assert forall|x: int, y: int|
                            0 <= x < nk.len() && 0 <= y < nk.len() && x != y implies nk[x] != nk[y] by {
                            if x < kvs.len() && y < kvs.len() {
                            } else if x < kvs.len() {
                                assert(nk[x] == kvs[x]);
                                assert(kvs.contains(kvs[x]));
                            } else {
                                assert(nk[y] == kvs[y]);
                                assert(kvs.contains(kvs[y]));
                            }
                        }
                    }
                }
            }
            proof {
                assert forall|k: IndexKeyV|
                    #![trigger keys_view(keys@).contains(k)]
                    keys_view(keys@).contains(k) <==> (exists|m: int|
                        0 <= m < i + 1 && (#[trigger] self.idx.entry_seq()[m]).0@ == k)
                        && prefix@.is_prefix_of(key_text(k)) by {
                    crate::seq_facts::lemma_push_contains(kvs, key@, k);
                    if exists|m: int| 0 <= m < i + 1 && (#[trigger] self.idx.entry_seq()[m]).0@ == k {
                        let m = choose|m: int|
                            0 <= m < i + 1 && (#[trigger] self.idx.entry_seq()[m]).0@ == k;
                        if m < i {
                            assert(exists|m2: int|
                                0 <= m2 < i && (#[trigger] self.idx.entry_seq()[m2]).0@ == k);
                        }
                    }
                    if exists|m: int| 0 <= m < i && (#[trigger] self.idx.entry_seq()[m]).0@ == k {
                        let m = choose|m: int| 0 <= m < i && (#[trigger] self.idx.entry_seq()[m]).0@ == k;
                        assert(0 <= m < i + 1);
                    }
                    assert(self.idx.entry_seq()[i as int].0@ == key@);
                }
            }
            i = i + 1;
        }
        Ok(keys)
    }

    /// The id of the fact `key` points at, if any.
    pub fn get(&self, key: IndexKey) -> (r: PachaResult<Option<Uri>>)
        ensures
            r matches Ok(o) && match o {
                Some(u) => self@.contains_key(key@) && u@ == self@[key@],
                None => !self@.contains_key(key@),
            },
    {
        match self.idx.get(&key) {
            Some(u) => Ok(Some(u.duplicate())),
            None => Ok(None),
        }
    }
}

/// A new entity named `uri`, with no fields.
pub open spec fn fresh_entity(uri: Seq<char>) -> EntityV {
    EntityV { uri, fields: Map::empty(), prior_facts: Map::empty() }
}

/// The entity after taking `f` into account: the fact takes over its field
/// unless a later fact is already recorded for it.
pub open spec fn consolidate_entity(e: EntityV, f: FactV) -> EntityV {
    if supersedes(e.prior_facts, f) {
        EntityV {
            uri: e.uri,
            fields: e.fields.insert(f.field, f.value),
            prior_facts: e.prior_facts.insert(f.field, f),
        }
    } else {
        e
    }
}

/// The entities after taking `f` into account.
pub open spec fn consolidate_fact(m: Map<Seq<char>, EntityV>, f: FactV) -> Map<Seq<char>, EntityV> {
    let e = if m.contains_key(f.entity) {
        m[f.entity]
    } else {
        fresh_entity(f.entity)
    };
    m.insert(f.entity, consolidate_entity(e, f))
}

/// The entities after taking each fact of `fs` into account, in order.
pub open spec fn consolidate_facts(m: Map<Seq<char>, EntityV>, fs: Seq<FactV>) -> Map<
    Seq<char>,
    EntityV,
>
    decreases fs.len(),
{
    if fs.len() == 0 {
        m
    } else {
        consolidate_fact(consolidate_facts(m, fs.drop_last()), fs.last())
    }
}

/// Keeps the current state of every entity, built from the facts stated about it.
#[derive(Debug)]
pub struct InMemoryConsolidator {
    entities: AssocMap<Uri, Entity>,
}

impl View for InMemoryConsolidator {
    type V = Map<Seq<char>, EntityV>;

    closed spec fn view(&self) -> Map<Seq<char>, EntityV> {
        self.entities@
    }
}

impl Default for InMemoryConsolidator {
    fn default() -> (r: InMemoryConsolidator)
        ensures
            r@ == Map::<Seq<char>, EntityV>::empty(),
    {
        InMemoryConsolidator { entities: AssocMap::new() }
    }
}

impl InMemoryConsolidator {
    /// Takes each fact into account for its entity, in order.
    pub fn consolidate(&mut self, facts: &Vec<Fact>) -> (r: PachaResult<()>)
        ensures
            r is Ok,
            final(self)@ == consolidate_facts(old(self)@, facts_view(facts@)),
    {
        let mut i: usize = 0;
        proof {
            assert(facts_view(facts@).take(0) =~= Seq::<FactV>::empty());
        }
        while i < facts.len()
            invariant
                i <= facts@.len(),
                self@ == consolidate_facts(old(self)@, facts_view(facts@).take(i as int)),
            decreases facts@.len() - i,
        {
            let fact = &facts[i];
            proof {
                let fv = facts_view(facts@);
                assert(fv.take(i + 1).drop_last() =~= fv.take(i as int));
                assert(fv.take(i + 1).last() == fact@);
            }
            let ghost before = self@;
            let uri = fact.entity.duplicate();
            let mut entity = match self.entities.remove(&uri) {
                Some(e) => e,
                None => Entity::new(uri.duplicate()),
            };
            let ghost e0 = entity@;
            proof {
                assert(e0 == if before.contains_key(fact@.entity) {
                    before[fact@.entity]
                } else {
                    fresh_entity(fact@.entity)
                });
            }
            entity.consolidate(fact.duplicate());
            proof {
                assert(entity@ == consolidate_entity(e0, fact@));
            }
            self.entities.insert(uri, entity);
            proof {
                assert(self@ =~= consolidate_fact(before, fact@));
            }
            i = i + 1;
        }
        proof {
            assert(facts_view(facts@).take(facts@.len() as int) =~= facts_view(facts@));
        }
        Ok(())
    }

    /// The current state of the entity named `uri`, if any fact was stated about it.
    pub fn entity(&self, uri: &Uri) -> (r: Option<&Entity>)
        ensures
            match r {
                Some(e) => self@.contains_key(uri@) && e@ == self@[uri@],
                None => !self@.contains_key(uri@),
            },
    {
        self.entities.get(uri)
    }
}

} // verus!
