//! A map from names to values that is always listed in name order.
//!
//! Listing order never depends on insertion order, so every walk over a
//! map of tasks or parsers visits the entries in the same sequence.

use vstd::prelude::*;
use crate::names::{
    lemma_ascending_distinct, lemma_name_lt_irreflexive, lemma_name_lt_total,
    lemma_name_lt_transitive, name_before, name_lt, names_ascending, same_name,
};

verus! {

#[derive(Debug)]
struct Entry<V> {
    name: String,
    value: V,
}

/// A finite map keyed by name, stored as entries in ascending name order.
#[derive(Debug)]
pub struct NameMap<V> {
    entries: Vec<Entry<V>>,
}

impl<V> NameMap<V> {
    #[verifier::type_invariant]
    spec fn ordered(&self) -> bool {
        names_ascending(self.keys())
    }

    /// The keys, in listing order.
    pub closed spec fn keys(&self) -> Seq<Seq<char>> {
        Seq::new(self.entries@.len(), |i: int| self.entries@[i].name@)
    }

    /// The values, each at the position of its key.
    pub closed spec fn values(&self) -> Seq<V> {
        Seq::new(self.entries@.len(), |i: int| self.entries@[i].value)
    }

    /// Keys and values line up and the keys ascend strictly.
    pub open spec fn wf(&self) -> bool {
        &&& self.keys().len() == self.values().len()
        &&& names_ascending(self.keys())
    }

    /// Whether `name` is a key.
    pub open spec fn has(&self, name: Seq<char>) -> bool {
        self.keys().contains(name)
    }

    /// The position of `name` among the keys.
    pub open spec fn position(&self, name: Seq<char>) -> int {
        self.keys().index_of(name)
    }

    /// The map as a mathematical map.
    pub open spec fn view(&self) -> Map<Seq<char>, V> {
        Map::new(|k: Seq<char>| self.has(k), |k: Seq<char>| self.values()[self.position(k)])
    }

    /// Brings the well-formedness of a live map into a proof.
    pub fn well_formed(&self)
        ensures
            self.wf(),
    {
        proof {
            use_type_invariant(self);
        }
    }

    /// In a well-formed map a key occurs at one position only.
    pub proof fn lemma_position(&self, i: int)
        requires
            self.wf(),
            0 <= i < self.keys().len(),
        ensures
            self.has(self.keys()[i]),
            self.position(self.keys()[i]) == i,
            self@.dom().contains(self.keys()[i]),
            self@[self.keys()[i]] == self.values()[i],
    {
        let k = self.keys()[i];
        let j = self.keys().index_of(k);
        assert(self.keys().contains(k));
        if j != i {
            lemma_ascending_distinct(self.keys(), i, j);
        }
    }

    /// A map without entries.
    pub fn new() -> (m: Self)
        ensures
            m.keys() == Seq::<Seq<char>>::empty(),
            m.values() == Seq::<V>::empty(),
            m@ == Map::<Seq<char>, V>::empty(),
    {
        let m = NameMap { entries: Vec::new() };
        assert(m.keys() =~= Seq::<Seq<char>>::empty());
        assert(m.values() =~= Seq::<V>::empty());
        assert(m@ =~= Map::<Seq<char>, V>::empty());
        m
    }

    /// The number of entries.
    pub fn len(&self) -> (n: usize)
        ensures
            n == self.keys().len(),
            n == self.values().len(),
    {
        self.entries.len()
    }

    /// Whether the map has no entry.
    pub fn is_empty(&self) -> (b: bool)
        ensures
            b == (self.keys().len() == 0),
    {
        self.entries.len() == 0
    }

    /// The key at position `i`.
    pub fn key_at(&self, i: usize) -> (k: &String)
        requires
            i < self.keys().len(),
        ensures
            k@ == self.keys()[i as int],
    {
        &self.entries[i].name
    }

    /// The value at position `i`.
    pub fn value_at(&self, i: usize) -> (v: &V)
        requires
            i < self.keys().len(),
        ensures
            *v == self.values()[i as int],
    {
        &self.entries[i].value
    }

    /// The position of `name`, if it is a key.
    pub fn index_of(&self, name: &str) -> (r: Option<usize>)
        ensures
            match r {
                Some(i) => i < self.keys().len() && self.keys()[i as int] == name@
                    && self.position(name@) == i,
                None => !self.has(name@),
            },
    {
        proof {
            use_type_invariant(self);
        }
        let n = self.entries.len();
        let mut i: usize = 0;
        while i < n
            invariant
                n == self.entries@.len(),
                i <= n,
                self.wf(),
                forall|j: int| 0 <= j < i ==> self.keys()[j] != name@,
            decreases n - i,
        {
            if same_name(self.entries[i].name.as_str(), name) {
                proof {
                    self.lemma_position(i as int);
                }
                return Some(i);
            }
            i = i + 1;
        }
        None
    }

    /// Whether `name` is bound.
    pub fn contains_key(&self, name: &str) -> (b: bool)
        ensures
            b == self.has(name@),
            b == self@.dom().contains(name@),
    {
        self.index_of(name).is_some()
    }

    /// The value that `name` is bound to.
    pub fn get(&self, name: &str) -> (r: Option<&V>)
        ensures
            match r {
                Some(v) => self.has(name@) && *v == self.values()[self.position(name@)]
                    && *v == self@[name@],
                None => !self.has(name@),
            },
    {
        match self.index_of(name) {
            Some(i) => Some(&self.entries[i].value),
            None => None,
        }
    }

    /// Binds `name` to `value`, replacing and returning an earlier binding.
    pub fn insert(&mut self, name: String, value: V) -> (prev: Option<V>)
        ensures
            final(self)@ == old(self)@.insert(name@, value),
            final(self).has(name@),
            final(self).values()[final(self).position(name@)] == value,
            forall|k: Seq<char>| k != name@ ==> (final(self).has(k) <==> old(self).has(k)),
            forall|k: Seq<char>|
                k != name@ && old(self).has(k) ==> final(self).values()[final(self).position(k)]
                    == old(self).values()[old(self).position(k)],
            match prev {
                Some(v) => old(self).has(name@) && v == old(self)@[name@]
                    && final(self).keys() == old(self).keys(),
                None => !old(self).has(name@) && final(self).keys().len() == old(self).keys().len()
                    + 1,
            },
    {
        proof {
            use_type_invariant(&*self);
        }
        let ghost before = *self;
        let mut entries: Vec<Entry<V>> = Vec::new();
        core::mem::swap(&mut entries, &mut self.entries);
        let n = entries.len();
        let mut i: usize = 0;
        while i < n && name_before(entries[i].name.as_str(), name.as_str())
            invariant
                entries == before.entries,
                n == entries@.len(),
                i <= n,
                forall|j: int| 0 <= j < i ==> name_lt(before.keys()[j], name@),
            decreases n - i,
        {
            i = i + 1;
        }
        let found = i < n && same_name(entries[i].name.as_str(), name.as_str());
        let mut prev: Option<V> = None;
        if found {
            let e = entries.remove(i);
            prev = Some(e.value);
        }
        let ghost mid = NameMap { entries };
        proof {
            assert forall|a: int, b: int| 0 <= a < b < mid.keys().len() implies name_lt(
                mid.keys()[a],
                mid.keys()[b],
            ) by {
                let a0 = if found && a >= i { a + 1 } else { a };
                let b0 = if found && b >= i { b + 1 } else { b };
                assert(mid.keys()[a] == before.keys()[a0]);
                assert(mid.keys()[b] == before.keys()[b0]);
            }
            assert forall|j: int| i <= j < mid.keys().len() implies name_lt(
                name@,
                #[trigger] mid.keys()[j],
            ) by {
                let j0 = if found { j + 1 } else { j };
                assert(mid.keys()[j] == before.keys()[j0]);
                lemma_name_lt_total(before.keys()[i as int], name@);
                if j0 > i {
                    if before.keys()[i as int] == name@ {
                    } else {
                        lemma_name_lt_transitive(name@, before.keys()[i as int], before.keys()[j0]);
                    }
                }
            }
        }
        let ghost key = name@;
        entries.insert(i, Entry { name, value });
        let ghost after = NameMap { entries };
        proof {
            assert forall|a: int, b: int| 0 <= a < b < after.keys().len() implies name_lt(
                after.keys()[a],
                after.keys()[b],
            ) by {
                let a0 = if a > i { a - 1 } else { a };
                let b0 = if b > i { b - 1 } else { b };
                if a != i {
                    assert(after.keys()[a] == mid.keys()[a0]);
                }
                if b != i {
                    assert(after.keys()[b] == mid.keys()[b0]);
                }
                if a == i {
                    assert(after.keys()[a] == key);
                } else if b == i {
                    assert(after.keys()[b] == key);
                    assert(a0 < i);
                    assert(mid.keys()[a0] == before.keys()[a0]);
                }
            }
            assert(after.wf());
            after.lemma_position(i as int);
            assert(after.keys()[i as int] == key);
            assert forall|k: Seq<char>| k != key implies (after.has(k) <==> before.has(k)) by {
                if after.has(k) {
                    let j = after.keys().index_of(k);
                    let j0 = if j > i { j - 1 } else { j };
                    assert(after.keys()[j] == mid.keys()[j0]);
                    let j1 = if found && j0 >= i { j0 + 1 } else { j0 };
                    assert(mid.keys()[j0] == before.keys()[j1]);
                }
                if before.has(k) {
                    let j = before.keys().index_of(k);
                    let j0 = if found && j > i { j - 1 } else { j };
                    assert(mid.keys()[j0] == before.keys()[j]);
                    let j1 = if j0 >= i { j0 + 1 } else { j0 };
                    assert(after.keys()[j1] == mid.keys()[j0]);
                }
            }
            assert forall|k: Seq<char>| k != key && before.has(k) implies after.values()[after.position(
                k,
            )] == before.values()[before.position(k)] by {
                let j = before.keys().index_of(k);
                let j0 = if found && j > i { j - 1 } else { j };
                assert(mid.keys()[j0] == before.keys()[j]);
                let j1 = if j0 >= i { j0 + 1 } else { j0 };
                assert(after.keys()[j1] == mid.keys()[j0]);
                after.lemma_position(j1);
                before.lemma_position(j);
            }
            if found {
                before.lemma_position(i as int);
                assert(after.keys() =~= before.keys());
            } else {
                assert(!before.has(key)) by {
                    if before.has(key) {
                        let j = before.keys().index_of(key);
                        if j < i {
                            lemma_name_lt_irreflexive(key);
                        } else {
                            assert(mid.keys()[j] == before.keys()[j]);
                            lemma_name_lt_irreflexive(key);
                        }
                    }
                }
            }
            assert(after@ =~= before@.insert(key, after.values()[i as int]));
        }
        self.entries = entries;
        prev
    }
}

impl<V> NameMap<V> {
    /// Takes over every binding of `other`; where both maps bind a
    /// name, the binding of `other` stays.
    pub fn merge(&mut self, other: NameMap<V>)
        ensures
            forall|k: Seq<char>|
                #![trigger final(self).has(k)]
                final(self).has(k) <==> old(self).has(k) || other.has(k),
            forall|k: Seq<char>|
                #![trigger other.has(k)]
                other.has(k) ==> final(self).values()[final(self).position(k)]
                    == other.values()[other.position(k)],
            forall|k: Seq<char>|
                #![trigger old(self).has(k)]
                old(self).has(k) && !other.has(k) ==> final(self).values()[final(self).position(k)]
                    == old(self).values()[old(self).position(k)],
    {
        proof {
            use_type_invariant(&other);
        }
        let ghost start = *self;
        let ghost src = other;
        let NameMap { entries } = other;
        let mut entries = entries;
        let ghost total = src.keys().len() as int;
        assert(src.wf()) by {
            assert(src.values().len() == src.keys().len());
        }
        while entries.len() > 0
            invariant
                src.wf(),
                total == src.keys().len(),
                entries@.len() <= total,
                entries@ == src.entries@.take(entries@.len() as int),
                forall|k: Seq<char>|
                    #![trigger self.has(k)]
                    #![trigger start.has(k)]
                    self.has(k) <==> start.has(k) || exists|i: int|
                        entries@.len() <= i < total && #[trigger] src.keys()[i] == k,
                forall|i: int|
                    entries@.len() <= i < total ==> self.values()[self.position(
                        #[trigger] src.keys()[i],
                    )] == src.values()[i],
                forall|k: Seq<char>|
                    #![trigger start.has(k)]
                    start.has(k) && !(exists|i: int|
                        entries@.len() <= i < total && #[trigger] src.keys()[i] == k)
                        ==> self.values()[self.position(k)] == start.values()[start.position(k)],
            decreases entries@.len(),
        {
            let ghost before = *self;
            let ghost m = entries@.len() - 1;
            let e = entries.pop().unwrap();
            assert(e == src.entries@[m]);
            assert(e.name@ == src.keys()[m]);
            assert(e.value == src.values()[m]);
            self.insert(e.name, e.value);
            proof {
                let key = src.keys()[m];
                assert(entries@ =~= src.entries@.take(m));
                assert forall|i: int| m <= i < total implies self.values()[self.position(
                    #[trigger] src.keys()[i],
                )] == src.values()[i] by {
                    if i > m {
                        lemma_ascending_distinct(src.keys(), i, m);
                        let k = src.keys()[i];
                        assert(exists|i2: int| m + 1 <= i2 < total && #[trigger] src.keys()[i2] == k);
                        assert(before.has(k));
                    }
                }
                assert forall|k: Seq<char>|
                    #![trigger self.has(k)]
                    #![trigger start.has(k)]
                    self.has(k) <==> start.has(k) || exists|i: int|
                        m <= i < total && #[trigger] src.keys()[i] == k by {
                    if k == key {
                        assert(src.keys()[m] == k);
                    }
                }
            }
        }
        proof {
            assert forall|k: Seq<char>| #![trigger self.has(k)] self.has(k) <==> start.has(k) || src.has(k) by {
                if src.has(k) {
                    let i = src.keys().index_of(k);
                    assert(src.keys()[i] == k);
                }
                if self.has(k) && !start.has(k) {
                    let i = choose|i: int| 0 <= i < total && #[trigger] src.keys()[i] == k;
                    assert(src.keys()[i] == k);
                }
            }
            assert forall|k: Seq<char>| src.has(k) implies self.values()[self.position(k)]
                == src.values()[src.position(k)] by {
                let i = src.keys().index_of(k);
                src.lemma_position(i);
            }
        }
    }
}

impl<V: Clone> Clone for NameMap<V> {
    /// A map with the same keys, each bound to a clone of its value.
    fn clone(&self) -> (m: Self)
        ensures
            m.keys() == self.keys(),
            m.values().len() == self.values().len(),
    {
        proof {
            use_type_invariant(self);
        }
        let n = self.entries.len();
        let mut entries: Vec<Entry<V>> = Vec::new();
        let mut i: usize = 0;
        while i < n
            invariant
                n == self.entries@.len(),
                i <= n,
                entries@.len() == i,
                forall|j: int| 0 <= j < i ==> (#[trigger] entries@[j]).name@ == self.entries@[j].name@,
            decreases n - i,
        {
            let e = &self.entries[i];
            entries.push(Entry { name: e.name.clone(), value: e.value.clone() });
            i = i + 1;
        }
        let ghost copy = NameMap { entries };
        assert(copy.keys() =~= self.keys());
        NameMap { entries }
    }
}

} // verus!
