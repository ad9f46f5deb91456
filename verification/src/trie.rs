//! A prefix trie over byte-string keys, valued by symbol sets.
//!
//! A [`PrefixTrie`] maps an unqualified identifier to the set of typed
//! symbols declared under exactly that identifier, and answers "all entries
//! whose key starts with these bytes" in lexicographic key order. The
//! branching structure is `qp_trie`'s; membership sets and the ordering of
//! query results are this crate's own, verified code.

use vstd::prelude::*;

verus! {

use vstd::multiset::Multiset;
use crate::symbol::Symbol;
use crate::symbol_map::SymbolSet;
use crate::clone_bytes;

/// Lexicographic order on byte strings: `a` is no later than `b`.
pub open spec fn lex_le(a: Seq<u8>, b: Seq<u8>) -> bool
    decreases a.len(),
{
    if a.len() == 0 {
        true
    } else if b.len() == 0 {
        false
    } else if a[0] < b[0] {
        true
    } else if a[0] > b[0] {
        false
    } else {
        lex_le(a.skip(1), b.skip(1))
    }
}

/// The lexicographic order is total.
pub proof fn lemma_lex_le_total(a: Seq<u8>, b: Seq<u8>)
    ensures
        lex_le(a, b) || lex_le(b, a),
    decreases a.len(),
{
    if a.len() > 0 && b.len() > 0 && a[0] == b[0] {
        lemma_lex_le_total(a.skip(1), b.skip(1));
    }
}

/// The lexicographic order is transitive.
pub proof fn lemma_lex_le_transitive(a: Seq<u8>, b: Seq<u8>, c: Seq<u8>)
    requires
        lex_le(a, b),
        lex_le(b, c),
    ensures
        lex_le(a, c),
    decreases a.len(),
{
    if a.len() > 0 && b.len() > 0 && c.len() > 0 && a[0] == b[0] && b[0] == c[0] {
        lemma_lex_le_transitive(a.skip(1), b.skip(1), c.skip(1));
    }
}

/// Compares two byte strings lexicographically.
pub fn bytes_le(a: &Vec<u8>, b: &Vec<u8>) -> (r: bool)
    ensures
        r == lex_le(a@, b@),
{
    let an = a.len();
    let bn = b.len();
    let mut i: usize = 0;
    proof {
        assert(a@.skip(0) =~= a@);
        assert(b@.skip(0) =~= b@);
    }
    while i < an && i < bn
        invariant
            i <= an,
            i <= bn,
            an == a@.len(),
            bn == b@.len(),
            lex_le(a@, b@) == lex_le(a@.skip(i as int), b@.skip(i as int)),
        decreases an - i,
    {
        if a[i] < b[i] {
            return true;
        }
        if a[i] > b[i] {
            return false;
        }
        proof {
            assert(a@.skip(i as int).skip(1) =~= a@.skip(i + 1));
            assert(b@.skip(i as int).skip(1) =~= b@.skip(i + 1));
        }
        i = i + 1;
    }
    an <= bn
}

/// Sorts key-value entries by lexicographic order of their keys, keeping
/// exactly the same entries.
fn sort_entries(input: Vec<(Vec<u8>, u64)>) -> (out: Vec<(Vec<u8>, u64)>)
    ensures
        out@.to_multiset() == input@.to_multiset(),
        forall|i: int, j: int| 0 <= i < j < out@.len() ==> lex_le(out@[i].0@, out@[j].0@),
{
    broadcast use vstd::seq_lib::group_to_multiset_ensures;

    let mut rest = input;
    let mut out: Vec<(Vec<u8>, u64)> = Vec::new();
    while rest.len() > 0
        invariant
            out@.to_multiset().add(rest@.to_multiset()) == input@.to_multiset(),
            forall|i: int, j: int| 0 <= i < j < out@.len() ==> lex_le(out@[i].0@, out@[j].0@),
            forall|i: int, k: int|
                0 <= i < out@.len() && 0 <= k < rest@.len() ==> lex_le(out@[i].0@, rest@[k].0@),
        decreases rest@.len(),
    {
        let n = rest.len();
        let mut m: usize = 0;
        proof {
            lemma_lex_le_total(rest@[0].0@, rest@[0].0@);
        }
        for i in 1..n
            invariant
                n == rest@.len(),
                m < n,
                forall|k: int| 0 <= k < i ==> lex_le(rest@[m as int].0@, rest@[k].0@),
        {
            if !bytes_le(&rest[m].0, &rest[i].0) {
                proof {
                    lemma_lex_le_total(rest@[m as int].0@, rest@[i as int].0@);
                    assert forall|k: int| 0 <= k < i + 1
                        implies lex_le(rest@[i as int].0@, rest@[k].0@) by {
                        if k < i {
                            lemma_lex_le_transitive(
                                rest@[i as int].0@,
                                rest@[m as int].0@,
                                rest@[k].0@,
                            );
                        } else {
                            lemma_lex_le_total(rest@[i as int].0@, rest@[i as int].0@);
                        }
                    }
                }
                m = i;
            }
        }
        let ghost old_out = out@;
        let ghost old_rest = rest@;
        let e = rest.remove(m);
        out.push(e);
        proof {
            assert(out@ == old_out.push(e));
            assert(rest@ == old_rest.remove(m as int));
            assert(old_rest[m as int] == e);
            vstd::seq_lib::to_multiset_build::<(Vec<u8>, u64)>(old_out, e);
            vstd::seq_lib::to_multiset_remove::<(Vec<u8>, u64)>(old_rest, m as int);
            assert(out@.to_multiset() =~= old_out.to_multiset().insert(e));
            assert(rest@.to_multiset() =~= old_rest.to_multiset().remove(e));
            assert(old_rest.contains(e));
            old_rest.to_multiset_ensures();
            assert(old_rest.to_multiset().count(e) > 0);
            assert(out@.to_multiset().add(rest@.to_multiset()) =~= old_out.to_multiset().add(
                old_rest.to_multiset(),
            ));
            assert forall|i: int, k: int|
                0 <= i < out@.len() && 0 <= k < rest@.len()
                implies lex_le(out@[i].0@, rest@[k].0@) by {
                let prev = if k < m { old_rest[k] } else { old_rest[k + 1] };
                assert(rest@[k] == prev);
                if i < old_out.len() {
                } else {
                    assert(out@[i] == e);
                }
            }
        }
    }
    proof {
        assert(rest@.to_multiset() =~= Multiset::<(Vec<u8>, u64)>::empty());
        assert(out@.to_multiset() =~= input@.to_multiset());
    }
    out
}

#[verifier::external_type_specification]
#[verifier::external_body]
#[verifier::reject_recursive_types(K)]
#[verifier::reject_recursive_types(V)]
pub struct ExTrie<K, V>(qp_trie::Trie<K, V>);

/// The storage form of the trie: byte-string keys, slot indices as values.
pub type RawTrie = qp_trie::Trie<Vec<u8>, u64>;

/// The key-value entries held by a byte-keyed `qp_trie` trie.
pub uninterp spec fn trie_entries(t: RawTrie) -> Map<Seq<u8>, u64>;

/// The entries of a trie that holds nothing.
pub open spec fn empty_entries() -> Map<Seq<u8>, u64> {
    Map::empty()
}

/// Relies on `qp_trie::Trie::new`: the new trie holds no entries.
#[verifier::external_body]
fn trie_new() -> (t: RawTrie)
    ensures
        trie_entries(t) == empty_entries(),
{
    qp_trie::Trie::new()
}

/// Relies on `qp_trie::Trie::get`: the value stored under exactly this key,
/// if any.
#[verifier::external_body]
fn trie_get(t: &RawTrie, key: &Vec<u8>) -> (r: Option<u64>)
    ensures
        r == if trie_entries(*t).contains_key(key@) {
            Some(trie_entries(*t)[key@])
        } else {
            None::<u64>
        },
{
    t.get(key.as_slice()).copied()
}

/// Relies on `qp_trie::Trie::insert`: stores the value under the key,
/// replacing the value stored there before and touching no other entry.
#[verifier::external_body]
fn trie_insert(t: &mut RawTrie, key: &Vec<u8>, val: u64)
    ensures
        trie_entries(*final(t)) == trie_entries(*old(t)).insert(key@, val),
{
    t.insert(key.clone(), val);
}

/// Relies on `qp_trie::Trie::iter_prefix`: yields exactly the entries whose
/// key starts with the prefix, each key once. The order in which the trie
/// walks its branches is not relied on.
#[verifier::external_body]
fn trie_prefix_pairs(t: &RawTrie, prefix: &Vec<u8>) -> (r: Vec<(Vec<u8>, u64)>)
    ensures
        forall|i: int|
            #![trigger r@[i]]
            0 <= i < r@.len() ==> {
                &&& trie_entries(*t).contains_key(r@[i].0@)
                &&& trie_entries(*t)[r@[i].0@] == r@[i].1
                &&& prefix@.is_prefix_of(r@[i].0@)
            },
        forall|k: Seq<u8>|
            trie_entries(*t).contains_key(k) && prefix@.is_prefix_of(k) ==> exists|i: int|
                0 <= i < r@.len() && r@[i].0@ == k,
        forall|i: int, j: int| 0 <= i < j < r@.len() ==> r@[i].0@ != r@[j].0@,
{
    t.iter_prefix(prefix.as_slice()).map(|(k, v)| (k.clone(), *v)).collect()
}

/// The map `m` with `v` added to the set stored under `k`, the set being
/// created empty first if `k` was absent.
pub open spec fn add_member<KK>(m: Map<KK, Set<u64>>, k: KK, v: u64) -> Map<KK, Set<u64>> {
    m.insert(
        k,
        if m.contains_key(k) {
            m[k].insert(v)
        } else {
            Set::empty().insert(v)
        },
    )
}

/// A map from byte-string keys to sets of typed symbols, answering queries
/// for all entries whose key starts with a given prefix, in lexicographic
/// key order.
///
/// Several distinct symbols may live under one key; adding a symbol twice is
/// a no-op. A single reader-writer lock around a whole `PrefixTrie` is the
/// intended concurrency discipline of its owner; the structure itself is
/// single-threaded.
pub struct PrefixTrie<K> {
    trie: RawTrie,
    sets: Vec<SymbolSet<K>>,
}

impl<K> PrefixTrie<K> {
    /// The mapping from keys to the raw indices of the symbols under them.
    pub closed spec fn view(self) -> Map<Seq<u8>, Set<u64>> {
        Map::new(
            |k: Seq<u8>| trie_entries(self.trie).contains_key(k),
            |k: Seq<u8>| self.sets@[trie_entries(self.trie)[k] as int]@,
        )
    }

    /// Every key's slot points into the set storage, no two keys share a
    /// slot, and each stored set is well-formed.
    pub closed spec fn wf(self) -> bool {
        &&& forall|k: Seq<u8>| #[trigger]
            trie_entries(self.trie).contains_key(k) ==> (trie_entries(self.trie)[k] as int)
                < self.sets@.len()
        &&& forall|k1: Seq<u8>, k2: Seq<u8>|
            trie_entries(self.trie).contains_key(k1) && trie_entries(self.trie).contains_key(k2)
                && k1 != k2 ==> trie_entries(self.trie)[k1] != trie_entries(self.trie)[k2]
        &&& forall|i: int| 0 <= i < self.sets@.len() ==> (#[trigger] self.sets@[i]).wf()
        &&& self.sets@.len() <= usize::MAX
    }

    /// Creates an empty trie.
    pub fn new() -> (r: Self)
        ensures
            r.wf(),
            r@ == Map::<Seq<u8>, Set<u64>>::empty(),
    {
        let r = PrefixTrie { trie: trie_new(), sets: Vec::new() };
        proof {
            assert(r@ =~= Map::<Seq<u8>, Set<u64>>::empty());
        }
        r
    }

    /// Adds `id` to the set stored under `key`, creating the set first when
    /// `key` is new. Adding a present member changes nothing.
    pub fn insert(&mut self, key: &Vec<u8>, id: Symbol<K>)
        requires
            old(self).wf(),
        ensures
            final(self).wf(),
            final(self)@ == add_member(old(self)@, key@, id.spec_raw()),
    {
        match trie_get(&self.trie, key) {
            Some(idx) => {
                let n = self.sets.len();
                proof {
                    assert((idx as int) < n as int);
                }
                let slot = &mut self.sets[idx as usize];
                slot.insert(id);
                proof {
                    assert(self@ =~= add_member(old(self)@, key@, id.spec_raw()));
                }
            }
            None => {
                let idx = self.sets.len() as u64;
                let mut slot = SymbolSet::<K>::new();
                slot.insert(id);
                self.sets.push(slot);
                trie_insert(&mut self.trie, key, idx);
                let total = self.sets.len();
                proof {
                    assert(self.sets@.len() == total as nat);
                    assert(self@ =~= add_member(old(self)@, key@, id.spec_raw()));
                }
            }
        }
    }

    /// The set stored under exactly `key`, if any.
    pub fn get(&self, key: &Vec<u8>) -> (r: Option<&SymbolSet<K>>)
        requires
            self.wf(),
        ensures
            match r {
                Some(s) => self@.contains_key(key@) && s@ == self@[key@] && s.wf(),
                None => !self@.contains_key(key@),
            },
    {
        match trie_get(&self.trie, key) {
            Some(idx) => {
                let n = self.sets.len();
                proof {
                    assert((idx as int) < n as int);
                }
                Some(&self.sets[idx as usize])
            }
            None => None,
        }
    }

    /// All entries whose key starts with `prefix`, in strictly ascending
    /// lexicographic key order: each matching key appears exactly once,
    /// paired with its member set, and nothing else appears.
    pub fn prefix_entries(&self, prefix: &Vec<u8>) -> (r: Vec<(Vec<u8>, &SymbolSet<K>)>)
        requires
            self.wf(),
        ensures
            forall|i: int|
                #![trigger r@[i]]
                0 <= i < r@.len() ==> {
                    &&& self@.contains_key(r@[i].0@)
                    &&& (*r@[i].1)@ == self@[r@[i].0@]
                    &&& (*r@[i].1).wf()
                    &&& prefix@.is_prefix_of(r@[i].0@)
                },
            forall|k: Seq<u8>|
                self@.contains_key(k) && prefix@.is_prefix_of(k) ==> exists|i: int|
                    0 <= i < r@.len() && r@[i].0@ == k,
            forall|i: int, j: int|
                0 <= i < j < r@.len() ==> lex_le(r@[i].0@, r@[j].0@) && r@[i].0@ != r@[j].0@,
    {
        let pairs = trie_prefix_pairs(&self.trie, prefix);
        let ghost gpairs = pairs@;
        let sorted = sort_entries(pairs);
        proof {
            lemma_entry_transfer(gpairs, sorted@);
        }
        let n = sorted.len();
        let mut r: Vec<(Vec<u8>, &SymbolSet<K>)> = Vec::new();
        for i in 0..n
            invariant
                n == sorted@.len(),
                r@.len() == i,
                self.wf(),
                forall|j: int| #![trigger r@[j]]
                    0 <= j < i ==> r@[j].0@ == sorted@[j].0@ && *r@[j].1 == self.sets@[sorted@[
                        j
                    ].1 as int],
                forall|j: int|
                    0 <= j < sorted@.len() ==> {
                        &&& trie_entries(self.trie).contains_key(#[trigger] sorted@[j].0@)
                        &&& trie_entries(self.trie)[sorted@[j].0@] == sorted@[j].1
                    },
        {
            let idx = sorted[i].1;
            let m = self.sets.len();
            proof {
                assert(trie_entries(self.trie).contains_key(sorted@[i as int].0@));
                assert((idx as int) < m as int);
            }
            let key_copy = clone_bytes(&sorted[i].0);
            r.push((key_copy, &self.sets[idx as usize]));
        }
        proof {
            assert forall|i: int| 0 <= i < r@.len() implies prefix@.is_prefix_of(
                #[trigger] r@[i].0@,
            ) by {
                let j = choose|j: int| 0 <= j < gpairs.len() && gpairs[j] == sorted@[i];
                assert(gpairs[j].0@ == sorted@[i].0@);
            }
            assert forall|k: Seq<u8>| self@.contains_key(k) && prefix@.is_prefix_of(k)
                implies exists|i: int| 0 <= i < r@.len() && r@[i].0@ == k by {
                let j = choose|j: int| 0 <= j < gpairs.len() && gpairs[j].0@ == k;
                let i = choose|i: int| 0 <= i < sorted@.len() && sorted@[i] == gpairs[j];
                assert(r@[i].0@ == k);
            }
        }
        r
    }
}

/// Transfers the per-entry facts of `trie_prefix_pairs` across the
/// reordering done by `sort_entries`: the sorted sequence has exactly the
/// same entries, with the same pairwise-distinct keys.
proof fn lemma_entry_transfer(pairs: Seq<(Vec<u8>, u64)>, sorted: Seq<(Vec<u8>, u64)>)
    requires
        sorted.to_multiset() == pairs.to_multiset(),
        forall|i: int, j: int| 0 <= i < j < pairs.len() ==> pairs[i].0@ != pairs[j].0@,
    ensures
        sorted.len() == pairs.len(),
        forall|i: int| 0 <= i < sorted.len() ==> pairs.contains(#[trigger] sorted[i]),
        forall|i: int| 0 <= i < pairs.len() ==> sorted.contains(#[trigger] pairs[i]),
        forall|i: int, j: int| 0 <= i < j < sorted.len() ==> sorted[i].0@ != sorted[j].0@,
{
    broadcast use vstd::seq_lib::group_to_multiset_ensures;

    pairs.to_multiset_ensures();
    sorted.to_multiset_ensures();
    assert(sorted.len() == pairs.len());
    assert forall|i: int| 0 <= i < sorted.len() implies pairs.contains(#[trigger] sorted[i]) by {
        assert(sorted.contains(sorted[i]));
        assert(pairs.to_multiset().count(sorted[i]) > 0);
    }
    assert forall|i: int| 0 <= i < pairs.len() implies sorted.contains(#[trigger] pairs[i]) by {
        assert(pairs.contains(pairs[i]));
        assert(sorted.to_multiset().count(pairs[i]) > 0);
    }
    assert(pairs.no_duplicates()) by {
        assert forall|i: int, j: int|
            0 <= i < pairs.len() && 0 <= j < pairs.len() && i != j
            implies pairs[i] != pairs[j] by {
            if pairs[i] == pairs[j] {
                assert(pairs[i].0@ == pairs[j].0@);
            }
        }
    }
    pairs.lemma_multiset_has_no_duplicates();
    sorted.lemma_multiset_has_no_duplicates_conv();
    assert forall|i: int, j: int| 0 <= i < j < sorted.len()
        implies sorted[i].0@ != sorted[j].0@ by {
        if sorted[i].0@ == sorted[j].0@ {
            assert(sorted[i] != sorted[j]);
            let p = choose|p: int| 0 <= p < pairs.len() && pairs[p] == sorted[i];
            let q = choose|q: int| 0 <= q < pairs.len() && pairs[q] == sorted[j];
            assert(p != q);
            assert(pairs[p].0@ != pairs[q].0@);
        }
    }
}

} // verus!
