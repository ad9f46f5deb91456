//! Integer-keyed containers specialized for typed symbol keys.
//!
//! A [`SymbolMap`] maps a [`Symbol`] of one domain to a value without
//! hashing the symbol's string again; a [`SymbolSet`] is a map to `()` with
//! set-flavoured operations. Both are single-threaded containers: a
//! concurrent owner wraps them, never the containers themselves.

use vstd::prelude::*;

verus! {

use core::marker::PhantomData;
use crate::symbol::Symbol;

/// The association map described by a sequence of key-value entries, where a
/// later entry for a key wins over an earlier one.
pub open spec fn assoc_map<T>(s: Seq<(u64, T)>) -> Map<u64, T>
    decreases s.len(),
{
    if s.len() == 0 {
        Map::empty()
    } else {
        assoc_map(s.drop_last()).insert(s.last().0, s.last().1)
    }
}

/// Whether some entry of `s` has key `k`.
pub open spec fn assoc_has<T>(s: Seq<(u64, T)>, k: u64) -> bool {
    exists|i: int| 0 <= i < s.len() && s[i].0 == k
}

/// No two entries of `s` share a key.
pub open spec fn assoc_unique<T>(s: Seq<(u64, T)>) -> bool {
    forall|i: int, j: int| 0 <= i < j < s.len() ==> s[i].0 != s[j].0
}

proof fn lemma_assoc_dom<T>(s: Seq<(u64, T)>, k: u64)
    ensures
        assoc_map(s).contains_key(k) <==> assoc_has(s, k),
    decreases s.len(),
{
    if s.len() > 0 {
        lemma_assoc_dom(s.drop_last(), k);
        if assoc_has(s.drop_last(), k) {
            assert(assoc_has(s, k));
        }
        if assoc_has(s, k) && s.last().0 != k {
            let i = choose|i: int| 0 <= i < s.len() && s[i].0 == k;
            assert(s.drop_last()[i] == s[i]);
        }
    }
}

proof fn lemma_assoc_at<T>(s: Seq<(u64, T)>, i: int)
    requires
        assoc_unique(s),
        0 <= i < s.len(),
    ensures
        assoc_map(s).contains_key(s[i].0),
        assoc_map(s)[s[i].0] == s[i].1,
    decreases s.len(),
{
    if i == s.len() - 1 {
    } else {
        assert(s.drop_last()[i] == s[i]);
        lemma_assoc_at(s.drop_last(), i);
    }
}

proof fn lemma_assoc_update<T>(s: Seq<(u64, T)>, i: int, v: T)
    requires
        assoc_unique(s),
        0 <= i < s.len(),
    ensures
        assoc_unique(s.update(i, (s[i].0, v))),
        assoc_map(s.update(i, (s[i].0, v))) == assoc_map(s).insert(s[i].0, v),
    decreases s.len(),
{
    let s2 = s.update(i, (s[i].0, v));
    if i == s.len() - 1 {
        assert(s2.drop_last() =~= s.drop_last());
        assert(assoc_map(s2) =~= assoc_map(s).insert(s[i].0, v));
    } else {
        lemma_assoc_update(s.drop_last(), i, v);
        assert(s2.drop_last() =~= s.drop_last().update(i, (s[i].0, v)));
        assert(s2.last() == s.last());
        assert(assoc_map(s2) =~= assoc_map(s).insert(s[i].0, v));
    }
}

proof fn lemma_assoc_push<T>(s: Seq<(u64, T)>, k: u64, v: T)
    requires
        assoc_unique(s),
        !assoc_has(s, k),
    ensures
        assoc_unique(s.push((k, v))),
        assoc_map(s.push((k, v))) == assoc_map(s).insert(k, v),
{
    let s2 = s.push((k, v));
    assert(s2.drop_last() =~= s);
    assert(forall|j: int| 0 <= j < s.len() ==> s2[j] == s[j]);
}

/// A map keyed by typed symbols of domain `K`, backed by a flat list of
/// integer-keyed entries.
///
/// The key space is the interner's integer space, so a raw key taken from
/// the map always converts back into a `Symbol<K>`. Iteration order is
/// unspecified.
pub struct SymbolMap<K, T> {
    entries: Vec<(u64, T)>,
    tag: PhantomData<K>,
}

/// A set of typed symbols of domain `K`: a [`SymbolMap`] with unit values.
pub struct SymbolSet<K>(pub(crate) SymbolMap<K, ()>);

impl<K, T> SymbolMap<K, T> {
    /// The entries in storage order.
    pub closed spec fn contents(self) -> Seq<(u64, T)> {
        self.entries@
    }

    /// The map as a mathematical map from raw symbol indices to values.
    pub open spec fn view(self) -> Map<u64, T> {
        assoc_map(self.contents())
    }

    /// Each key occurs in at most one entry.
    pub open spec fn wf(self) -> bool {
        assoc_unique(self.contents())
    }

    /// The view has exactly the keys of the entries.
    pub proof fn lemma_view_dom(self, k: u64)
        ensures
            self@.contains_key(k) <==> assoc_has(self.contents(), k),
    {
        lemma_assoc_dom(self.contents(), k);
    }

    /// In a well-formed map, each entry is the view's value for its key.
    pub proof fn lemma_view_at(self, i: int)
        requires
            self.wf(),
            0 <= i < self.contents().len(),
        ensures
            self@.contains_key(self.contents()[i].0),
            self@[self.contents()[i].0] == self.contents()[i].1,
    {
        lemma_assoc_at(self.contents(), i);
    }

    /// Creates an empty map.
    pub fn new() -> (r: Self)
        ensures
            r.wf(),
            r@ == Map::<u64, T>::empty(),
            r.contents() == Seq::<(u64, T)>::empty(),
    {
        SymbolMap { entries: Vec::new(), tag: PhantomData }
    }

    /// Looks up the entry position of a key, if present.
    fn position(&self, key: u64) -> (r: Option<usize>)
        ensures
            match r {
                Some(i) => i < self.contents().len() && self.contents()[i as int].0 == key,
                None => !assoc_has(self.contents(), key),
            },
    {
        let n = self.entries.len();
        for i in 0..n
            invariant
                n == self.contents().len(),
                forall|j: int| 0 <= j < i ==> self.contents()[j].0 != key,
        {
            if self.entries[i].0 == key {
                return Some(i);
            }
        }
        None
    }

    /// Returns the value stored under `key`, if any.
    pub fn get(&self, key: &Symbol<K>) -> (r: Option<&T>)
        requires
            self.wf(),
        ensures
            match r {
                Some(v) => self@.contains_key(key.spec_raw()) && *v == self@[key.spec_raw()],
                None => !self@.contains_key(key.spec_raw()),
            },
    {
        proof {
            self.lemma_view_dom(key.spec_raw());
        }
        match self.position(key.raw()) {
            Some(i) => {
                proof {
                    self.lemma_view_at(i as int);
                }
                Some(&self.entries[i].1)
            }
            None => None,
        }
    }

    /// Returns a mutable reference to the value stored under `key`, if any.
    ///
    /// Writing through the reference replaces that key's value and nothing
    /// else.
    pub fn get_mut(&mut self, key: &Symbol<K>) -> (r: Option<&mut T>)
        requires
            old(self).wf(),
        ensures
            match r {
                Some(v) => {
                    &&& old(self)@.contains_key(key.spec_raw())
                    &&& *v == old(self)@[key.spec_raw()]
                    &&& final(self).wf()
                    &&& final(self)@ == old(self)@.insert(key.spec_raw(), *final(v))
                },
                None => {
                    &&& !old(self)@.contains_key(key.spec_raw())
                    &&& *final(self) == *old(self)
                },
            },
    {
        proof {
            self.lemma_view_dom(key.spec_raw());
        }
        match self.position(key.raw()) {
            Some(i) => {
                proof {
                    self.lemma_view_at(i as int);
                    let snap = self.contents();
                    assert forall|v: T|
                        assoc_unique(snap.update(i as int, (key.spec_raw(), v)))
                            && assoc_map(snap.update(i as int, (key.spec_raw(), v)))
                                == assoc_map(snap).insert(key.spec_raw(), v) by {
                        lemma_assoc_update(snap, i as int, v);
                    }
                }
                let entry = &mut self.entries[i];
                Some(&mut entry.1)
            }
            None => None,
        }
    }

    /// Whether `key` is present.
    pub fn contains_key(&self, key: &Symbol<K>) -> (r: bool)
        requires
            self.wf(),
        ensures
            r <==> self@.contains_key(key.spec_raw()),
    {
        proof {
            self.lemma_view_dom(key.spec_raw());
        }
        self.position(key.raw()).is_some()
    }

    /// Stores `value` under `key`, replacing any earlier value.
    pub fn insert(&mut self, key: Symbol<K>, value: T) -> (newly: bool)
        requires
            old(self).wf(),
        ensures
            final(self).wf(),
            final(self)@ == old(self)@.insert(key.spec_raw(), value),
            newly <==> !old(self)@.contains_key(key.spec_raw()),
    {
        proof {
            self.lemma_view_dom(key.spec_raw());
        }
        match self.position(key.raw()) {
            Some(i) => {
                proof {
                    self.lemma_view_at(i as int);
                    lemma_assoc_update(self.contents(), i as int, value);
                }
                let entry = &mut self.entries[i];
                *entry = (key.raw(), value);
                false
            }
            None => {
                proof {
                    lemma_assoc_push(self.contents(), key.spec_raw(), value);
                }
                self.entries.push((key.raw(), value));
                true
            }
        }
    }

    /// The keys, as typed symbols, in storage order.
    pub fn keys(&self) -> (r: Vec<Symbol<K>>)
        ensures
            r@.len() == self.contents().len(),
            forall|i: int| 0 <= i < r@.len() ==> r@[i].spec_raw() == self.contents()[i].0,
    {
        let n = self.entries.len();
        let mut r: Vec<Symbol<K>> = Vec::new();
        for i in 0..n
            invariant
                n == self.contents().len(),
                r@.len() == i,
                forall|j: int| 0 <= j < i ==> r@[j].spec_raw() == self.contents()[j].0,
        {
            r.push(Symbol::from_raw(self.entries[i].0));
        }
        r
    }

    /// Starts a cursor over the entries.
    pub fn iter(&self) -> (r: IterMap<'_, K, T>)
        ensures
            r.map() == *self,
            r.pos() == 0,
    {
        IterMap { map: self, pos: 0 }
    }
}

/// A cursor over the entries of a [`SymbolMap`], yielding each key as a
/// typed symbol together with a reference to its value.
pub struct IterMap<'a, K, T> {
    map: &'a SymbolMap<K, T>,
    pos: usize,
}

impl<'a, K, T> IterMap<'a, K, T> {
    /// The map being walked.
    pub closed spec fn map(self) -> SymbolMap<K, T> {
        *self.map
    }

    /// How many entries have been yielded.
    pub closed spec fn pos(self) -> int {
        self.pos as int
    }

    /// Yields the next entry, or `None` when the entries are exhausted.
    pub fn next(&mut self) -> (r: Option<(Symbol<K>, &'a T)>)
        ensures
            final(self).map() == old(self).map(),
            match r {
                Some(p) => {
                    &&& old(self).pos() < old(self).map().contents().len()
                    &&& final(self).pos() == old(self).pos() + 1
                    &&& p.0.spec_raw() == old(self).map().contents()[old(self).pos()].0
                    &&& *p.1 == old(self).map().contents()[old(self).pos()].1
                },
                None => {
                    &&& old(self).pos() >= old(self).map().contents().len()
                    &&& final(self).pos() == old(self).pos()
                },
            },
    {
        if self.pos < self.map.entries.len() {
            let i = self.pos;
            self.pos = i + 1;
            Some((Symbol::from_raw(self.map.entries[i].0), &self.map.entries[i].1))
        } else {
            None
        }
    }
}

impl<K> SymbolSet<K> {
    /// The set as a mathematical set of raw symbol indices.
    pub closed spec fn view(self) -> Set<u64> {
        self.0@.dom()
    }

    /// The underlying entries are well-formed.
    pub closed spec fn wf(self) -> bool {
        self.0.wf()
    }

    /// The members' raw indices in storage order.
    pub closed spec fn raws(self) -> Seq<u64> {
        self.0.contents().map_values(|e: (u64, ())| e.0)
    }

    /// The storage order enumerates the set exactly: every member once.
    pub proof fn lemma_raws(self)
        requires
            self.wf(),
        ensures
            forall|i: int| 0 <= i < self.raws().len() ==> self@.contains(#[trigger] self.raws()[i]),
            forall|x: u64| self@.contains(x)
                ==> exists|i: int| 0 <= i < self.raws().len() && self.raws()[i] == x,
            forall|i: int, j: int| 0 <= i < j < self.raws().len() ==> self.raws()[i] != self.raws()[j],
    {
        assert forall|i: int| 0 <= i < self.raws().len()
            implies self@.contains(#[trigger] self.raws()[i]) by {
            self.0.lemma_view_at(i);
        }
        assert forall|x: u64| self@.contains(x)
            implies exists|i: int| 0 <= i < self.raws().len() && self.raws()[i] == x by {
            self.0.lemma_view_dom(x);
            let i = choose|i: int|
                0 <= i < self.0.contents().len() && self.0.contents()[i].0 == x;
            assert(self.raws()[i] == x);
        }
    }

    /// Creates an empty set.
    pub fn new() -> (r: Self)
        ensures
            r.wf(),
            r@ == Set::<u64>::empty(),
    {
        let r = SymbolSet(SymbolMap::new());
        proof {
            assert(r@ =~= Set::<u64>::empty());
        }
        r
    }

    /// Adds `key`; returns whether it was newly inserted. Present keys are
    /// left as they are, so the insert is idempotent.
    pub fn insert(&mut self, key: Symbol<K>) -> (newly: bool)
        requires
            old(self).wf(),
        ensures
            final(self).wf(),
            final(self)@ == old(self)@.insert(key.spec_raw()),
            newly <==> !old(self)@.contains(key.spec_raw()),
    {
        let newly = self.0.insert(key, ());
        proof {
            assert(final(self)@ =~= old(self)@.insert(key.spec_raw()));
        }
        newly
    }

    /// Whether `key` is a member.
    pub fn contains_key(&self, key: Symbol<K>) -> (r: bool)
        requires
            self.wf(),
        ensures
            r <==> self@.contains(key.spec_raw()),
    {
        self.0.contains_key(&key)
    }

    /// Starts a cursor over the members.
    pub fn iter(&self) -> (r: IterSet<'_, K>)
        ensures
            r.set() == *self,
            r.pos() == 0,
    {
        IterSet { inner: IterMap { map: &self.0, pos: 0 } }
    }

    /// The members, as typed symbols: one for each raw index in the set,
    /// with no duplicates.
    pub fn to_vec(&self) -> (r: Vec<Symbol<K>>)
        requires
            self.wf(),
        ensures
            forall|i: int| 0 <= i < r@.len() ==> self@.contains(r@[i].spec_raw()),
            forall|x: u64| self@.contains(x)
                ==> exists|i: int| 0 <= i < r@.len() && r@[i].spec_raw() == x,
            forall|i: int, j: int|
                0 <= i < j < r@.len() ==> r@[i].spec_raw() != r@[j].spec_raw(),
    {
        let r = self.0.keys();
        proof {
            assert forall|i: int| 0 <= i < r@.len() implies self@.contains(r@[i].spec_raw()) by {
                self.0.lemma_view_at(i);
            }
            assert forall|x: u64| self@.contains(x)
                implies exists|i: int| 0 <= i < r@.len() && r@[i].spec_raw() == x by {
                self.0.lemma_view_dom(x);
                let i = choose|i: int|
                    0 <= i < self.0.contents().len() && self.0.contents()[i].0 == x;
                assert(r@[i].spec_raw() == x);
            }
        }
        r
    }

    /// Adds every symbol of `items`; duplicates and present members are
    /// ignored.
    pub fn extend(&mut self, items: &Vec<Symbol<K>>)
        requires
            old(self).wf(),
        ensures
            final(self).wf(),
            final(self)@ == old(self)@.union(raw_set(items@)),
    {
        let n = items.len();
        for i in 0..n
            invariant
                n == items@.len(),
                self.wf(),
                self@ == old(self)@.union(raw_set(items@.take(i as int))),
        {
            self.insert(items[i]);
            proof {
                assert(items@.take(i + 1).drop_last() == items@.take(i as int));
                assert(self@ =~= old(self)@.union(raw_set(items@.take(i + 1))));
            }
        }
        proof {
            assert(items@.take(n as int) == items@);
        }
    }
}

/// The set of raw indices of a sequence of symbols.
pub open spec fn raw_set<K>(s: Seq<Symbol<K>>) -> Set<u64>
    decreases s.len(),
{
    if s.len() == 0 {
        Set::empty()
    } else {
        raw_set(s.drop_last()).insert(s.last().spec_raw())
    }
}

/// A cursor over the members of a [`SymbolSet`], yielding typed symbols.
pub struct IterSet<'a, K> {
    inner: IterMap<'a, K, ()>,
}

impl<'a, K> IterSet<'a, K> {
    /// The set being walked.
    pub closed spec fn set(self) -> SymbolSet<K> {
        SymbolSet(self.inner.map())
    }

    /// How many members have been yielded.
    pub closed spec fn pos(self) -> int {
        self.inner.pos()
    }

    /// Yields the next member, or `None` when the members are exhausted.
    pub fn next(&mut self) -> (r: Option<Symbol<K>>)
        ensures
            final(self).set() == old(self).set(),
            match r {
                Some(sym) => {
                    &&& old(self).pos() < old(self).set().raws().len()
                    &&& final(self).pos() == old(self).pos() + 1
                    &&& sym.spec_raw() == old(self).set().raws()[old(self).pos()]
                },
                None => {
                    &&& old(self).pos() >= old(self).set().raws().len()
                    &&& final(self).pos() == old(self).pos()
                },
            },
    {
        match self.inner.next() {
            Some((sym, _)) => Some(sym),
            None => None,
        }
    }
}

} // verus!
