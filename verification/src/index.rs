//! Index keys: every fact is indexed under five prefixes (entity, entity/field,
//! field, field/value, value), each followed by the fact's transaction id.

use vstd::prelude::*;

use crate::assoc::ViewEq;
use crate::model::{Fact, FactV, Uri};
use crate::text::{decimal, str_starts_with, u64_to_string};
use crate::tx_manager::TxId;
use crate::value::{value_text, Value, ValueV};

verus! {

/// The mathematical value of an index key.
pub struct IndexKeyV {
    pub tx_id: u64,
    pub fact_uri: Seq<char>,
    pub prefix: Seq<ValueV>,
}

/// The key under which a fact is found by one of its prefixes.
#[derive(Debug, Clone, PartialEq, Eq, PartialOrd, Ord, Hash)]
pub struct IndexKey {
    pub tx_id: TxId,
    pub fact_uri: Uri,
    pub prefix: Vec<Value>,
}

pub open spec fn values_view(vs: Seq<Value>) -> Seq<ValueV> {
    vs.map_values(|v: Value| v@)
}

impl View for IndexKey {
    type V = IndexKeyV;

    open spec fn view(&self) -> IndexKeyV {
        IndexKeyV { tx_id: self.tx_id.0, fact_uri: self.fact_uri@, prefix: values_view(self.prefix@) }
    }
}

pub open spec fn keys_view(ks: Seq<IndexKey>) -> Seq<IndexKeyV> {
    ks.map_values(|k: IndexKey| k@)
}

/// The texts of `vs` joined by slashes.
pub open spec fn join_values(vs: Seq<ValueV>) -> Seq<char>
    decreases vs.len(),
{
    if vs.len() == 0 {
        Seq::empty()
    } else if vs.len() == 1 {
        value_text(vs[0])
    } else {
        join_values(vs.drop_last()) + seq!['/'] + value_text(vs.last())
    }
}

/// The text of a key: its prefix values joined by slashes, a slash, and its transaction id.
pub open spec fn key_text(k: IndexKeyV) -> Seq<char> {
    join_values(k.prefix) + seq!['/'] + decimal(k.tx_id as nat)
}

fn value_eq(a: &Value, b: &Value) -> (r: bool)
    ensures
        r == (a@ == b@),
{
    match (a, b) {
        (Value::String(x), Value::String(y)) => *x == *y,
        (Value::Uri(x), Value::Uri(y)) => x.0 == y.0,
        _ => false,
    }
}

impl ViewEq for IndexKey {
    fn view_eq(&self, other: &IndexKey) -> (r: bool) {
        if self.tx_id.0 != other.tx_id.0 || !self.fact_uri.view_eq(&other.fact_uri) {
            return false;
        }
        if self.prefix.len() != other.prefix.len() {
            proof {
                assert(self@.prefix.len() != other@.prefix.len());
            }
            return false;
        }
        let mut i: usize = 0;
        while i < self.prefix.len()
            invariant
                i <= self.prefix@.len(),
                self.prefix@.len() == other.prefix@.len(),
                forall|j: int| 0 <= j < i ==> self@.prefix[j] == other@.prefix[j],
            decreases self.prefix@.len() - i,
        {
            if !value_eq(&self.prefix[i], &other.prefix[i]) {
                proof {
                    assert(self@.prefix[i as int] != other@.prefix[i as int]);
                }
                return false;
            }
            i = i + 1;
        }
        proof {
            assert(self@.prefix =~= other@.prefix);
        }
        true
    }
}

impl IndexKey {
    pub fn new(tx_id: TxId, fact_uri: Uri, prefix: Vec<Value>) -> (r: IndexKey)
        ensures
            r@ == (IndexKeyV { tx_id: tx_id.0, fact_uri: fact_uri@, prefix: values_view(prefix@) }),
    {
        IndexKey { tx_id, fact_uri, prefix }
    }

    /// The text of the key.
    pub fn to_string(&self) -> (r: String)
        ensures
            r@ == key_text(self@),
    {
        let mut s = String::new();
        let mut i: usize = 0;
        proof {
            assert(values_view(self.prefix@).take(0) =~= Seq::<ValueV>::empty());
        }
        while i < self.prefix.len()
            invariant
                i <= self.prefix@.len(),
                s@ == join_values(values_view(self.prefix@).take(i as int)),
            decreases self.prefix@.len() - i,
        {
            let ghost pv = values_view(self.prefix@);
            proof {
                assert(pv.take(i + 1).drop_last() =~= pv.take(i as int));
                assert(pv.take(i + 1).last() == pv[i as int]);
            }
            if i > 0 {
                let slash = "/";
                proof {
                    reveal_strlit("/");
                }
                s.append(slash);
            }
            let t = self.prefix[i].to_string();
            s.append(t.as_str());
            proof {
                if i == 0 {
                    assert(pv.take(1).len() == 1);
                    assert(s@ =~= join_values(pv.take(1)));
                } else {
                    assert(s@ =~= join_values(pv.take(i + 1)));
                }
            }
            i = i + 1;
        }
        proof {
            assert(values_view(self.prefix@).take(self.prefix@.len() as int) =~= values_view(
                self.prefix@,
            ));
        }
        let slash = "/";
        proof {
            reveal_strlit("/");
        }
        s.append(slash);
        let tx = u64_to_string(self.tx_id.0);
        s.append(tx.as_str());
        proof {
            assert(s@ =~= key_text(self@));
        }
        s
    }

    /// Whether the text of the key starts with `prefix`.
    pub fn starts_with(&self, prefix: &str) -> (r: bool)
        ensures
            r == prefix@.is_prefix_of(key_text(self@)),
    {
        let text = self.to_string();
        str_starts_with(text.as_str(), prefix)
    }

    /// A copy with the same value.
    pub fn duplicate(&self) -> (r: IndexKey)
        ensures
            r@ == self@,
    {
        let mut prefix: Vec<Value> = Vec::new();
        let mut i: usize = 0;
        while i < self.prefix.len()
            invariant
                i <= self.prefix@.len(),
                values_view(prefix@) =~= values_view(self.prefix@).take(i as int),
            decreases self.prefix@.len() - i,
        {
            let v = self.prefix[i].duplicate();
            let ghost before = prefix@;
            prefix.push(v);
            proof {
                assert(values_view(prefix@) =~= values_view(before).push(v@));
                assert(values_view(self.prefix@).take(i + 1) =~= values_view(self.prefix@).take(
                    i as int,
                ).push(values_view(self.prefix@)[i as int]));
            }
            i = i + 1;
        }
        proof {
            assert(values_view(self.prefix@).take(self.prefix@.len() as int) =~= values_view(
                self.prefix@,
            ));
        }
        IndexKey { tx_id: self.tx_id, fact_uri: self.fact_uri.duplicate(), prefix }
    }
}

/// The five keys under which a fact is indexed.
#[derive(Debug, Clone, PartialEq, Eq, PartialOrd, Ord)]
pub struct IndexKeySet {
    index_by_entity: IndexKey,
    index_by_entity_field: IndexKey,
    index_by_field: IndexKey,
    index_by_field_value: IndexKey,
    index_by_value: IndexKey,
}

/// The key of `f` for the given prefix values.
pub open spec fn fact_key(f: FactV, prefix: Seq<ValueV>) -> IndexKeyV {
    IndexKeyV { tx_id: f.tx_id, fact_uri: f.id, prefix }
}

/// The keys of a fact, in the order entity, entity/field, field, field/value, value.
pub open spec fn fact_keys(f: FactV) -> Seq<IndexKeyV> {
    seq![
        fact_key(f, seq![ValueV::Uri(f.entity)]),
        fact_key(f, seq![ValueV::Uri(f.entity), ValueV::Uri(f.field)]),
        fact_key(f, seq![ValueV::Uri(f.field)]),
        fact_key(f, seq![ValueV::Uri(f.field), f.value]),
        fact_key(f, seq![f.value]),
    ]
}

impl IndexKeySet {
    pub closed spec fn key_views(self) -> Seq<IndexKeyV> {
        seq![
            self.index_by_entity@,
            self.index_by_entity_field@,
            self.index_by_field@,
            self.index_by_field_value@,
            self.index_by_value@,
        ]
    }

    /// The keys of `fact`.
    pub fn from_fact(fact: &Fact) -> (r: IndexKeySet)
        ensures
            r.key_views() == fact_keys(fact@),
    {
        let mut by_entity: Vec<Value> = Vec::new();
        by_entity.push(Value::Uri(fact.entity.duplicate()));
        let mut by_entity_field: Vec<Value> = Vec::new();
        by_entity_field.push(Value::Uri(fact.entity.duplicate()));
        by_entity_field.push(Value::Uri(fact.field.duplicate()));
        let mut by_field: Vec<Value> = Vec::new();
        by_field.push(Value::Uri(fact.field.duplicate()));
        let mut by_field_value: Vec<Value> = Vec::new();
        by_field_value.push(Value::Uri(fact.field.duplicate()));
        by_field_value.push(fact.value.duplicate());
        let mut by_value: Vec<Value> = Vec::new();
        by_value.push(fact.value.duplicate());
        let r = IndexKeySet {
            index_by_entity: IndexKey::new(fact.tx_id, fact.id.duplicate(), by_entity),
            index_by_entity_field: IndexKey::new(fact.tx_id, fact.id.duplicate(), by_entity_field),
            index_by_field: IndexKey::new(fact.tx_id, fact.id.duplicate(), by_field),
            index_by_field_value: IndexKey::new(fact.tx_id, fact.id.duplicate(), by_field_value),
            index_by_value: IndexKey::new(fact.tx_id, fact.id.duplicate(), by_value),
        };
        proof {
            let f = fact@;
            assert(r.index_by_entity@.prefix =~= seq![ValueV::Uri(f.entity)]);
            assert(r.index_by_entity_field@.prefix =~= seq![ValueV::Uri(f.entity), ValueV::Uri(f.field)]);
            assert(r.index_by_field@.prefix =~= seq![ValueV::Uri(f.field)]);
            assert(r.index_by_field_value@.prefix =~= seq![ValueV::Uri(f.field), f.value]);
            assert(r.index_by_value@.prefix =~= seq![f.value]);
            assert(r.key_views() =~= fact_keys(f));
        }
        r
    }

    /// The five keys, in the order entity, entity/field, field, field/value, value.
    pub fn keys(self) -> (r: Vec<IndexKey>)
        ensures
            keys_view(r@) == self.key_views(),
    {
        let ghost kv = self.key_views();
        let mut v: Vec<IndexKey> = Vec::new();
        v.push(self.index_by_entity);
        v.push(self.index_by_entity_field);
        v.push(self.index_by_field);
        v.push(self.index_by_field_value);
        v.push(self.index_by_value);
        proof {
            assert(keys_view(v@) =~= kv);
        }
        v
    }
}

} // verus!
