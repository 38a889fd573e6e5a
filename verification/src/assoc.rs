//! A finite map kept as a list of entries with distinct keys.

use vstd::prelude::*;

verus! {

/// Keys whose equality can be decided by value.
pub trait ViewEq: View + Sized {
    fn view_eq(&self, other: &Self) -> (r: bool)
        ensures
            r == (self@ == other@),
    ;
}

/// The map the entries describe: a later entry for a key wins.
pub open spec fn map_of<K: View, V: View>(es: Seq<(K, V)>) -> Map<K::V, V::V>
    decreases es.len(),
{
    if es.len() == 0 {
        Map::empty()
    } else {
        map_of(es.drop_last()).insert(es.last().0@, es.last().1@)
    }
}

/// No two entries share a key.
pub open spec fn keys_unique<K: View, V>(es: Seq<(K, V)>) -> bool {
    forall|i: int, j: int| 0 <= i < j < es.len() ==> (#[trigger] es[i]).0@ != (#[trigger] es[j]).0@
}

pub proof fn lemma_map_of_contains<K: View, V: View>(es: Seq<(K, V)>, k: K::V)
    ensures
        map_of(es).contains_key(k) <==> exists|i: int| 0 <= i < es.len() && (#[trigger] es[i]).0@ == k,
    decreases es.len(),
{
    if es.len() > 0 {
        lemma_map_of_contains(es.drop_last(), k);
        if exists|i: int| 0 <= i < es.len() && (#[trigger] es[i]).0@ == k {
            let i = choose|i: int| 0 <= i < es.len() && (#[trigger] es[i]).0@ == k;
            if i < es.len() - 1 {
                assert(es.drop_last()[i] == es[i]);
            }
        }
        if exists|i: int| 0 <= i < es.drop_last().len() && (#[trigger] es.drop_last()[i]).0@ == k {
            let i = choose|i: int|
                0 <= i < es.drop_last().len() && (#[trigger] es.drop_last()[i]).0@ == k;
            assert(es.drop_last()[i] == es[i]);
        }
    }
}

pub proof fn lemma_map_of_index<K: View, V: View>(es: Seq<(K, V)>, i: int)
    requires
        keys_unique(es),
        0 <= i < es.len(),
    ensures
        map_of(es).contains_key(es[i].0@),
        map_of(es)[es[i].0@] == es[i].1@,
    decreases es.len(),
{
    if i < es.len() - 1 {
        let init = es.drop_last();
        assert(keys_unique(init)) by {
            assert forall|a: int, b: int| 0 <= a < b < init.len() implies (#[trigger] init[a]).0@
                != (#[trigger] init[b]).0@ by {
                assert(init[a] == es[a] && init[b] == es[b]);
            }
        }
        assert(init[i] == es[i]);
        lemma_map_of_index(init, i);
        assert(es[i].0@ != es[es.len() - 1].0@);
    }
}

pub proof fn lemma_map_of_update<K: View, V: View>(es: Seq<(K, V)>, i: int, e: (K, V))
    requires
        keys_unique(es),
        0 <= i < es.len(),
        e.0@ == es[i].0@,
    ensures
        map_of(es.update(i, e)) == map_of(es).insert(e.0@, e.1@),
        keys_unique(es.update(i, e)),
    decreases es.len(),
{
    let u = es.update(i, e);
    assert(keys_unique(u)) by {
        assert forall|a: int, b: int| 0 <= a < b < u.len() implies (#[trigger] u[a]).0@ != (
        #[trigger] u[b]).0@ by {
            assert(u[a].0@ == es[a].0@ && u[b].0@ == es[b].0@);
        }
    }
    let init = es.drop_last();
    if i == es.len() - 1 {
        assert(u.drop_last() =~= init);
        assert(map_of(u) =~= map_of(es).insert(e.0@, e.1@));
    } else {
        assert(keys_unique(init)) by {
            assert forall|a: int, b: int| 0 <= a < b < init.len() implies (#[trigger] init[a]).0@
                != (#[trigger] init[b]).0@ by {
                assert(init[a] == es[a] && init[b] == es[b]);
            }
        }
        lemma_map_of_update(init, i, e);
        assert(u.drop_last() =~= init.update(i, e));
        assert(u.last() == es.last());
        assert(es.last().0@ != e.0@);
        assert(map_of(u) =~= map_of(es).insert(e.0@, e.1@));
    }
}

pub proof fn lemma_map_of_remove<K: View, V: View>(es: Seq<(K, V)>, i: int)
    requires
        keys_unique(es),
        0 <= i < es.len(),
    ensures
        map_of(es.remove(i)) == map_of(es).remove(es[i].0@),
        keys_unique(es.remove(i)),
    decreases es.len(),
{
    let r = es.remove(i);
    let k = es[i].0@;
    assert(keys_unique(r)) by {
        assert forall|a: int, b: int| 0 <= a < b < r.len() implies (#[trigger] r[a]).0@ != (
        #[trigger] r[b]).0@ by {
            let a2 = if a < i { a } else { a + 1 };
            let b2 = if b < i { b } else { b + 1 };
            assert(r[a] == es[a2] && r[b] == es[b2]);
        }
    }
    let init = es.drop_last();
    assert(keys_unique(init)) by {
        assert forall|a: int, b: int| 0 <= a < b < init.len() implies (#[trigger] init[a]).0@
            != (#[trigger] init[b]).0@ by {
            assert(init[a] == es[a] && init[b] == es[b]);
        }
    }
    if i == es.len() - 1 {
        assert(r =~= init);
        assert forall|j: int| 0 <= j < init.len() implies (#[trigger] init[j]).0@ != k by {
            assert(init[j] == es[j]);
        }
        lemma_map_of_contains(init, k);
        assert(map_of(r) =~= map_of(es).remove(k));
    } else {
        lemma_map_of_remove(init, i);
        assert(r.drop_last() =~= init.remove(i));
        assert(r.last() == es.last());
        assert(es.last().0@ != k);
        assert(map_of(r) =~= map_of(es).remove(k));
    }
}

impl ViewEq for String {
    fn view_eq(&self, other: &String) -> (r: bool) {
        *self == *other
    }
}

/// A finite map with distinct keys.
#[derive(Debug)]
pub struct AssocMap<K: ViewEq, V: View> {
    entries: Vec<(K, V)>,
}

impl<K: ViewEq, V: View> View for AssocMap<K, V> {
    type V = Map<K::V, V::V>;

    closed spec fn view(&self) -> Map<K::V, V::V> {
        map_of(self.entries@)
    }
}

impl<K: ViewEq, V: View> AssocMap<K, V> {
    #[verifier::type_invariant]
    closed spec fn inv(self) -> bool {
        keys_unique(self.entries@)
    }

    /// The entries, in the order their keys were first inserted.
    pub closed spec fn entry_seq(self) -> Seq<(K, V)> {
        self.entries@
    }

    /// The map with no entries.
    pub fn new() -> (r: Self)
        ensures
            r@ == Map::<K::V, V::V>::empty(),
            r.entry_seq().len() == 0,
    {
        AssocMap { entries: Vec::new() }
    }

    /// The number of keys; the entries list each key once, with its value.
    pub fn len(&self) -> (r: usize)
        ensures
            r == self.entry_seq().len(),
            keys_unique(self.entry_seq()),
            forall|k: K::V|
                self@.contains_key(k) <==> exists|i: int|
                    0 <= i < self.entry_seq().len() && (#[trigger] self.entry_seq()[i]).0@ == k,
            forall|i: int|
                0 <= i < self.entry_seq().len() ==> self@.contains_key(
                    (#[trigger] self.entry_seq()[i]).0@,
                ) && self@[self.entry_seq()[i].0@] == self.entry_seq()[i].1@,
    {
        proof {
            use_type_invariant(self);
            assert forall|k: K::V|
                self@.contains_key(k) <==> exists|i: int|
                    0 <= i < self.entry_seq().len() && (#[trigger] self.entry_seq()[i]).0@ == k by {
                lemma_map_of_contains(self.entries@, k);
                if self@.contains_key(k) {
                    let i = choose|i: int|
                        0 <= i < self.entries@.len() && (#[trigger] self.entries@[i]).0@ == k;
                    assert(self.entry_seq()[i] == self.entries@[i]);
                }
                if exists|i: int|
                    0 <= i < self.entry_seq().len() && (#[trigger] self.entry_seq()[i]).0@ == k {
                    let i = choose|i: int|
                        0 <= i < self.entry_seq().len() && (#[trigger] self.entry_seq()[i]).0@ == k;
                    assert(self.entry_seq()[i] == self.entries@[i]);
                }
            }
            assert forall|i: int| 0 <= i < self.entry_seq().len() implies self@.contains_key(
                (#[trigger] self.entry_seq()[i]).0@,
            ) && self@[self.entry_seq()[i].0@] == self.entry_seq()[i].1@ by {
                lemma_map_of_index(self.entries@, i);
            }
        }
        self.entries.len()
    }

    /// The key and value of entry `i`.
    pub fn entry(&self, i: usize) -> (r: (&K, &V))
        requires
            i < self.entry_seq().len(),
        ensures
            *r.0 == self.entry_seq()[i as int].0,
            *r.1 == self.entry_seq()[i as int].1,
    {
        (&self.entries[i].0, &self.entries[i].1)
    }

    /// The position of the entry for `k`, if there is one.
    fn position(&self, k: &K) -> (r: Option<usize>)
        ensures
            match r {
                Some(i) => i < self.entries@.len() && self.entries@[i as int].0@ == k@,
                None => forall|i: int| 0 <= i < self.entries@.len() ==> (#[trigger] self.entries@[i]).0@ != k@,
            },
    {
        let mut i: usize = 0;
        while i < self.entries.len()
            invariant
                i <= self.entries@.len(),
                forall|j: int| 0 <= j < i ==> (#[trigger] self.entries@[j]).0@ != k@,
            decreases self.entries@.len() - i,
        {
            if self.entries[i].0.view_eq(k) {
                return Some(i);
            }
            i = i + 1;
        }
        None
    }

    /// The value for `k`, if any.
    pub fn get(&self, k: &K) -> (r: Option<&V>)
        ensures
            match r {
                Some(v) => self@.contains_key(k@) && v@ == self@[k@],
                None => !self@.contains_key(k@),
            },
    {
        proof {
            use_type_invariant(self);
            lemma_map_of_contains(self.entries@, k@);
        }
        match self.position(k) {
            Some(i) => {
                proof {
                    lemma_map_of_index(self.entries@, i as int);
                }
                Some(&self.entries[i].1)
            },
            None => None,
        }
    }

    /// Takes the value of `k` out of the map, if it has one.
    pub fn remove(&mut self, k: &K) -> (r: Option<V>)
        ensures
            match r {
                Some(v) => old(self)@.contains_key(k@) && v@ == old(self)@[k@] && final(self)@
                    == old(self)@.remove(k@),
                None => !old(self)@.contains_key(k@) && final(self)@ == old(self)@,
            },
    {
        proof {
            use_type_invariant(&*self);
            lemma_map_of_contains(self.entries@, k@);
        }
        match self.position(k) {
            Some(i) => {
                proof {
                    lemma_map_of_index(self.entries@, i as int);
                    lemma_map_of_remove(self.entries@, i as int);
                }
                let mut es: Vec<(K, V)> = Vec::new();
                std::mem::swap(&mut es, &mut self.entries);
                let (_, v) = es.remove(i);
                self.entries = es;
                Some(v)
            },
            None => None,
        }
    }

    /// Binds `k` to `v`, replacing any earlier value of `k`; a new key goes last.
    pub fn insert(&mut self, k: K, v: V)
        ensures
            final(self)@ == old(self)@.insert(k@, v@),
            old(self)@.contains_key(k@) ==> final(self).entry_seq().len() == old(self).entry_seq().len(),
            !old(self)@.contains_key(k@) ==> final(self).entry_seq() == old(self).entry_seq().push((k, v)),
    {
        proof {
            use_type_invariant(&*self);
            lemma_map_of_contains(self.entries@, k@);
        }
        match self.position(&k) {
            Some(i) => {
                proof {
                    lemma_map_of_update(self.entries@, i as int, (k, v));
                }
                let mut es: Vec<(K, V)> = Vec::new();
                std::mem::swap(&mut es, &mut self.entries);
                es.set(i, (k, v));
                self.entries = es;
            },
            None => {
                let ghost old_entries = self.entries@;
                proof {
                    assert(keys_unique(old_entries.push((k, v)))) by {
                        assert forall|a: int, b: int|
                            0 <= a < b < old_entries.push((k, v)).len() implies (
                            #[trigger] old_entries.push((k, v))[a]).0@ != (
                            #[trigger] old_entries.push((k, v))[b]).0@ by {
                            assert(old_entries.push((k, v))[a] == old_entries[a]);
                            if b < old_entries.len() {
                                assert(old_entries.push((k, v))[b] == old_entries[b]);
                            }
                        }
                    }
                    assert(old_entries.push((k, v)).drop_last() =~= old_entries);
                }
                let mut es: Vec<(K, V)> = Vec::new();
                std::mem::swap(&mut es, &mut self.entries);
                es.push((k, v));
                self.entries = es;
            },
        }
    }
}

} // verus!
