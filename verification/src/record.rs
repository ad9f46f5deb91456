//! The record index: a primary store of declared records and three derived
//! indices kept consistent with it.
//!
//! Records are keyed by the interned form of their qualified id. Derived
//! indices answer "records owned by this model", "records inheriting from
//! this record", and "records whose unqualified id starts with these bytes".
//! The first write for a qualified id wins: a second insert under the same
//! id is a no-op and touches nothing, so no half-updated record is ever
//! observable.

use vstd::prelude::*;

verus! {

use crate::symbol::{Interner, Symbol, table_has, table_sym, table_after};
use crate::symbol_map::SymbolSet;
use crate::trie::{PrefixTrie, add_member};

/// Domain tag for model names; models themselves are declared elsewhere and
/// are referenced here only as the target of a record's `model` field.
pub struct Model {}

/// The interned form of a record's qualified id.
pub type RecordId = Symbol<Record>;

/// The interned form of a model's name.
pub type ModelName = Symbol<Model>;

/// Where a record was declared.
pub struct SourceLocation {
    pub path: Vec<u8>,
    pub line: u32,
    pub column: u32,
}

/// One declared data entity. Immutable once constructed: a change to source
/// text produces a new `Record` value, never a mutation in place.
pub struct Record {
    /// The unqualified, human-chosen local id; frequently shared between
    /// records of different modules.
    pub id: Vec<u8>,
    /// The declaring module, which scopes `id` into a workspace-unique
    /// qualified id.
    pub module: Vec<u8>,
    /// The owning model's interned name, if any.
    pub model: Option<ModelName>,
    /// The record this one inherits from, if any.
    pub inherit_id: Option<RecordId>,
    /// Where the record was declared.
    pub location: SourceLocation,
}

/// The byte separating the module from the local id in a qualified id: a
/// dot.
pub const QUALIFIER_SEP: u8 = 46;

impl Record {
    /// The module-scoped unique id: the module, a dot, and the local id.
    pub open spec fn spec_qualified_id(self) -> Seq<u8> {
        self.module@ + seq![QUALIFIER_SEP] + self.id@
    }

    /// Builds the qualified id string of this record.
    pub fn qualified_id(&self) -> (r: Vec<u8>)
        ensures
            r@ == self.spec_qualified_id(),
    {
        let mut r = crate::clone_bytes(&self.module);
        r.push(QUALIFIER_SEP);
        let n = self.id.len();
        for i in 0..n
            invariant
                n == self.id@.len(),
                r@ == self.module@ + seq![QUALIFIER_SEP] + self.id@.take(i as int),
        {
            r.push(self.id[i]);
            proof {
                assert(self.id@.take(i as int).push(self.id@[i as int]) =~= self.id@.take(i + 1));
                assert(r@ =~= self.module@ + seq![QUALIFIER_SEP] + self.id@.take(i + 1));
            }
        }
        proof {
            assert(self.module@ + seq![QUALIFIER_SEP] + self.id@.take(self.id@.len() as int) =~= self
                .spec_qualified_id());
        }
        r
    }
}

#[verifier::external_type_specification]
#[verifier::external_body]
#[verifier::reject_recursive_types(K)]
#[verifier::reject_recursive_types(V)]
#[verifier::reject_recursive_types(S)]
pub struct ExDashMap<K, V, S>(dashmap::DashMap<K, V, S>);

/// The storage form of the concurrent maps: raw symbol indices on both
/// sides, so that one sharded map shape serves the primary store and both
/// inverted indices.
pub type RawIdMap = dashmap::DashMap<u64, u64>;

/// The key-value entries held by a sharded `dashmap` map.
pub uninterp spec fn dash_entries(m: RawIdMap) -> Map<u64, u64>;

/// The entries of a map that holds nothing.
pub open spec fn no_entries() -> Map<u64, u64> {
    Map::empty()
}

/// Relies on `dashmap::DashMap::with_shard_amount`: the new map is empty.
/// The shard amount only partitions the key space; four is a power of two,
/// which the constructor requires.
#[verifier::external_body]
fn dash_new() -> (m: RawIdMap)
    ensures
        dash_entries(m) == no_entries(),
{
    dashmap::DashMap::with_shard_amount(4)
}

/// Relies on `dashmap::DashMap::contains_key`: whether the key is present.
#[verifier::external_body]
fn dash_contains(m: &RawIdMap, k: u64) -> (r: bool)
    ensures
        r == dash_entries(*m).contains_key(k),
{
    m.contains_key(&k)
}

/// Relies on `dashmap::DashMap::get`: the value stored under the key, if
/// any.
#[verifier::external_body]
fn dash_get(m: &RawIdMap, k: u64) -> (r: Option<u64>)
    ensures
        r == if dash_entries(*m).contains_key(k) {
            Some(dash_entries(*m)[k])
        } else {
            None::<u64>
        },
{
    m.get(&k).map(|v| *v)
}

/// Relies on `dashmap::DashMap::insert`: stores the value under the key,
/// replacing the value stored there before and touching no other entry.
#[verifier::external_body]
fn dash_insert(m: &mut RawIdMap, k: u64, v: u64)
    ensures
        dash_entries(*final(m)) == dash_entries(*old(m)).insert(k, v),
{
    m.insert(k, v);
}

/// The inverted index described by a sharded map of slot indices paired
/// with the slot storage holding the member sets.
pub open spec fn sets_view(e: Map<u64, u64>, sets: Seq<SymbolSet<Record>>) -> Map<u64, Set<u64>> {
    Map::new(|k: u64| e.contains_key(k), |k: u64| sets[e[k] as int]@)
}

/// Every key's slot points into the storage, no two keys share a slot, and
/// each stored set is well-formed.
pub open spec fn sets_wf(e: Map<u64, u64>, sets: Seq<SymbolSet<Record>>) -> bool {
    &&& forall|k: u64| #[trigger] e.contains_key(k) ==> (e[k] as int) < sets.len()
    &&& forall|k1: u64, k2: u64|
        e.contains_key(k1) && e.contains_key(k2) && k1 != k2 ==> e[k1] != e[k2]
    &&& forall|i: int| 0 <= i < sets.len() ==> (#[trigger] sets[i]).wf()
    &&& sets.len() <= usize::MAX
}

/// Adds `id` to the member set stored under `key`, creating the set first
/// when `key` is new. Adding a present member changes nothing.
fn add_set_member(map: &mut RawIdMap, sets: &mut Vec<SymbolSet<Record>>, key: u64, id: RecordId)
    requires
        sets_wf(dash_entries(*old(map)), old(sets)@),
    ensures
        sets_wf(dash_entries(*final(map)), final(sets)@),
        sets_view(dash_entries(*final(map)), final(sets)@) == add_member(
            sets_view(dash_entries(*old(map)), old(sets)@),
            key,
            id.spec_raw(),
        ),
{
    match dash_get(map, key) {
        Some(idx) => {
            let n = sets.len();
            proof {
                assert((idx as int) < n as int);
            }
            let slot = &mut sets[idx as usize];
            slot.insert(id);
            proof {
                assert(sets_view(dash_entries(*map), sets@) =~= add_member(
                    sets_view(dash_entries(*old(map)), old(sets)@),
                    key,
                    id.spec_raw(),
                ));
            }
        }
        None => {
            let idx = sets.len() as u64;
            let mut slot = SymbolSet::<Record>::new();
            slot.insert(id);
            sets.push(slot);
            dash_insert(map, key, idx);
            let total = sets.len();
            proof {
                assert(sets@.len() == total as nat);
                assert(sets_view(dash_entries(*map), sets@) =~= add_member(
                    sets_view(dash_entries(*old(map)), old(sets)@),
                    key,
                    id.spec_raw(),
                ));
            }
        }
    }
}

/// The whole observable state of a record index: the primary store and the
/// three derived indices, as mathematical maps over raw symbol indices.
#[verifier::ext_equal]
pub ghost struct IndexView {
    /// Qualified-id symbol to the record declared under it.
    pub store: Map<u64, Record>,
    /// Model-name symbol to the ids of the records owned by that model.
    pub models: Map<u64, Set<u64>>,
    /// Parent-record symbol to the ids of the records inheriting from it.
    pub inherits: Map<u64, Set<u64>>,
    /// Unqualified local id to the ids of the records declared under it.
    pub prefixes: Map<Seq<u8>, Set<u64>>,
}

/// What one insert does to an index state: nothing when the qualified id is
/// already taken; otherwise the record enters the primary store and each
/// derived index that one of its fields feeds.
pub open spec fn spec_insert(s: IndexView, qid: u64, rec: Record) -> IndexView {
    if s.store.contains_key(qid) {
        s
    } else {
        IndexView {
            store: s.store.insert(qid, rec),
            models: match rec.model {
                Some(m) => add_member(s.models, m.spec_raw(), qid),
                None => s.models,
            },
            inherits: match rec.inherit_id {
                Some(p) => add_member(s.inherits, p.spec_raw(), qid),
                None => s.inherits,
            },
            prefixes: add_member(s.prefixes, rec.id@, qid),
        }
    }
}

/// What one bulk append does to an index state and to the interner it
/// draws ids from: each record's qualified id is interned, then the record
/// is inserted, in the caller-supplied order.
pub open spec fn spec_append(s: IndexView, tbl: Seq<Seq<u8>>, recs: Seq<Record>) -> (
    IndexView,
    Seq<Seq<u8>>,
)
    decreases recs.len(),
{
    if recs.len() == 0 {
        (s, tbl)
    } else {
        let rec = recs[0];
        let qid = table_sym(tbl, rec.spec_qualified_id());
        let tbl2 = table_after(tbl, rec.spec_qualified_id());
        spec_append(spec_insert(s, qid, rec), tbl2, recs.skip(1))
    }
}

/// Referential integrity: every id a derived index mentions is a key of the
/// primary store.
pub open spec fn ref_integral(v: IndexView) -> bool {
    &&& forall|m: u64, id: u64|
        v.models.contains_key(m) && #[trigger] v.models[m].contains(id) ==> v.store.contains_key(
            id,
        )
    &&& forall|p: u64, id: u64|
        v.inherits.contains_key(p) && #[trigger] v.inherits[p].contains(id)
            ==> v.store.contains_key(id)
    &&& forall|k: Seq<u8>, id: u64|
        v.prefixes.contains_key(k) && #[trigger] v.prefixes[k].contains(id)
            ==> v.store.contains_key(id)
}

/// A member found in a set after `add_member`, under the touched key, and
/// not there before, is the added member.
proof fn lemma_added_member_source<KK>(s: Map<KK, Set<u64>>, k: KK, v: u64, m: KK, id: u64)
    requires
        add_member(s, k, v).contains_key(m),
        add_member(s, k, v)[m].contains(id),
        m == k,
        !(s.contains_key(m) && s[m].contains(id)),
    ensures
        id == v,
{
}

/// A fresh member of the model index after an insert is the inserted id.
proof fn lemma_models_member_source(s: IndexView, qid: u64, rec: Record, m: u64, id: u64)
    requires
        !s.store.contains_key(qid),
        spec_insert(s, qid, rec).models.contains_key(m),
        spec_insert(s, qid, rec).models[m].contains(id),
        !(s.models.contains_key(m) && s.models[m].contains(id)),
    ensures
        id == qid,
{
    match rec.model {
        Some(m2) => {
            if m == m2.spec_raw() {
                lemma_added_member_source(s.models, m2.spec_raw(), qid, m, id);
            } else {
                assert(spec_insert(s, qid, rec).models[m] == s.models[m]);
            }
        }
        None => {
            assert(spec_insert(s, qid, rec).models == s.models);
        }
    }
}

/// A fresh member of the inheritance index after an insert is the
/// inserted id.
proof fn lemma_inherits_member_source(s: IndexView, qid: u64, rec: Record, p: u64, id: u64)
    requires
        !s.store.contains_key(qid),
        spec_insert(s, qid, rec).inherits.contains_key(p),
        spec_insert(s, qid, rec).inherits[p].contains(id),
        !(s.inherits.contains_key(p) && s.inherits[p].contains(id)),
    ensures
        id == qid,
{
    match rec.inherit_id {
        Some(p2) => {
            if p == p2.spec_raw() {
                lemma_added_member_source(s.inherits, p2.spec_raw(), qid, p, id);
            } else {
                assert(spec_insert(s, qid, rec).inherits[p] == s.inherits[p]);
            }
        }
        None => {
            assert(spec_insert(s, qid, rec).inherits == s.inherits);
        }
    }
}

/// A fresh member of the prefix index after an insert is the inserted id,
/// under the record's local id.
proof fn lemma_prefixes_member_source(s: IndexView, qid: u64, rec: Record, k: Seq<u8>, id: u64)
    requires
        !s.store.contains_key(qid),
        spec_insert(s, qid, rec).prefixes.contains_key(k),
        spec_insert(s, qid, rec).prefixes[k].contains(id),
        !(s.prefixes.contains_key(k) && s.prefixes[k].contains(id)),
    ensures
        id == qid,
        k == rec.id@,
{
    if k == rec.id@ {
        lemma_added_member_source(s.prefixes, rec.id@, qid, k, id);
    } else {
        assert(spec_insert(s, qid, rec).prefixes[k] == s.prefixes[k]);
    }
}

/// Referential integrity is preserved by insertion: when every id the
/// derived indices mention is a key of the primary store, the same holds
/// after any record is inserted under any qualified id.
pub proof fn lemma_insert_integrity(s: IndexView, qid: u64, rec: Record)
    requires
        ref_integral(s),
    ensures
        ref_integral(spec_insert(s, qid, rec)),
{
    let post = spec_insert(s, qid, rec);
    if !s.store.contains_key(qid) {
        assert forall|m: u64, id: u64|
            post.models.contains_key(m) && #[trigger] post.models[m].contains(id)
            implies post.store.contains_key(id) by {
            if !(s.models.contains_key(m) && s.models[m].contains(id)) {
                lemma_models_member_source(s, qid, rec, m, id);
            }
        }
        assert forall|p: u64, id: u64|
            post.inherits.contains_key(p) && #[trigger] post.inherits[p].contains(id)
            implies post.store.contains_key(id) by {
            if !(s.inherits.contains_key(p) && s.inherits[p].contains(id)) {
                lemma_inherits_member_source(s, qid, rec, p, id);
            }
        }
        assert forall|k: Seq<u8>, id: u64|
            post.prefixes.contains_key(k) && #[trigger] post.prefixes[k].contains(id)
            implies post.store.contains_key(id) by {
            if !(s.prefixes.contains_key(k) && s.prefixes[k].contains(id)) {
                lemma_prefixes_member_source(s, qid, rec, k, id);
            }
        }
    }
}

/// Inserting the same record under the same qualified id twice leaves the
/// primary store and every derived index exactly as inserting it once does.
pub proof fn lemma_insert_idempotent(s: IndexView, qid: u64, rec: Record)
    ensures
        spec_insert(spec_insert(s, qid, rec), qid, rec) == spec_insert(s, qid, rec),
{
}

/// Inserting a second record under an already-present qualified id is a
/// no-op, and the store keeps returning the record that won the first
/// write.
pub proof fn lemma_no_overwrite(s: IndexView, qid: u64, first: Record, second: Record)
    ensures
        spec_insert(spec_insert(s, qid, first), qid, second) == spec_insert(s, qid, first),
        spec_insert(s, qid, first).store[qid] == if s.store.contains_key(qid) {
            s.store[qid]
        } else {
            first
        },
{
}

/// After a fresh insert, the record's id is found under exactly its
/// unqualified local id in the prefix index: a query whose prefix the local
/// id starts with reaches it, and no other key holds it.
pub proof fn lemma_prefix_completeness(s: IndexView, qid: u64, rec: Record)
    requires
        !s.store.contains_key(qid),
        forall|k: Seq<u8>|
            s.prefixes.contains_key(k) ==> !(#[trigger] s.prefixes[k]).contains(qid),
    ensures
        spec_insert(s, qid, rec).prefixes.contains_key(rec.id@),
        spec_insert(s, qid, rec).prefixes[rec.id@].contains(qid),
        forall|k: Seq<u8>|
            spec_insert(s, qid, rec).prefixes.contains_key(k) && (#[trigger] spec_insert(
                s,
                qid,
                rec,
            ).prefixes[k]).contains(qid) ==> k == rec.id@,
{
}

/// Adding two members to sets of a map gives the same map in either order.
pub proof fn lemma_add_member_commutes<KK>(m: Map<KK, Set<u64>>, k1: KK, v1: u64, k2: KK, v2: u64)
    ensures
        add_member(add_member(m, k1, v1), k2, v2) == add_member(add_member(m, k2, v2), k1, v1),
{
    let l = add_member(add_member(m, k1, v1), k2, v2);
    let r = add_member(add_member(m, k2, v2), k1, v1);
    if k1 == k2 {
        assert(l[k1] =~= r[k1]);
    } else {
        assert(l[k1] =~= r[k1]);
        assert(l[k2] =~= r[k2]);
    }
    assert(l =~= r);
}

/// Inserting two records with distinct qualified ids commutes: both orders
/// leave the primary store and every derived index equal.
pub proof fn lemma_insert_commutes(
    s: IndexView,
    qa: u64,
    ra: Record,
    qb: u64,
    rb: Record,
)
    requires
        qa != qb,
    ensures
        spec_insert(spec_insert(s, qa, ra), qb, rb) == spec_insert(spec_insert(s, qb, rb), qa, ra),
{
    let ab = spec_insert(spec_insert(s, qa, ra), qb, rb);
    let ba = spec_insert(spec_insert(s, qb, rb), qa, ra);
    if s.store.contains_key(qa) || s.store.contains_key(qb) {
        assert(ab =~= ba);
    } else {
        assert(ab.store =~= ba.store);
        assert(ab.models == ba.models) by {
            match (ra.model, rb.model) {
                (Some(ma), Some(mb)) => {
                    lemma_add_member_commutes(s.models, ma.spec_raw(), qa, mb.spec_raw(), qb);
                }
                _ => {}
            }
        }
        assert(ab.inherits == ba.inherits) by {
            match (ra.inherit_id, rb.inherit_id) {
                (Some(pa), Some(pb)) => {
                    lemma_add_member_commutes(
                        s.inherits,
                        pa.spec_raw(),
                        qa,
                        pb.spec_raw(),
                        qb,
                    );
                }
                _ => {}
            }
        }
        assert(ab.prefixes == ba.prefixes) by {
            lemma_add_member_commutes(s.prefixes, ra.id@, qa, rb.id@, qb);
        }
        assert(ab =~= ba);
    }
}

/// Appending a batch of two records whose qualified ids the interner
/// already knows, and which are distinct, gives the same index state and
/// the same interner in either order.
pub proof fn lemma_append_pair_commutes(
    s: IndexView,
    tbl: Seq<Seq<u8>>,
    a: Record,
    b: Record,
)
    requires
        forall|i: int, j: int| 0 <= i < j < tbl.len() ==> tbl[i] != tbl[j],
        tbl.len() <= u64::MAX,
        table_has(tbl, a.spec_qualified_id()),
        table_has(tbl, b.spec_qualified_id()),
        a.spec_qualified_id() != b.spec_qualified_id(),
    ensures
        spec_append(s, tbl, seq![a, b]) == spec_append(s, tbl, seq![b, a]),
{
    let qa = table_sym(tbl, a.spec_qualified_id());
    let qb = table_sym(tbl, b.spec_qualified_id());
    let ia = choose|i: int| 0 <= i < tbl.len() && tbl[i] == a.spec_qualified_id();
    let ib = choose|i: int| 0 <= i < tbl.len() && tbl[i] == b.spec_qualified_id();
    assert(0 <= ia < tbl.len() && 0 <= ib < tbl.len());
    assert(qa == ia as u64 && qb == ib as u64);
    assert(qa != qb) by {
        if ia == ib {
            assert(tbl[ia] == a.spec_qualified_id() && tbl[ib] == b.spec_qualified_id());
        }
    }
    lemma_insert_commutes(s, qa, a, qb, b);
    let sab = seq![a, b];
    let sba = seq![b, a];
    assert(sab.skip(1) =~= seq![b]);
    assert(sba.skip(1) =~= seq![a]);
    assert(seq![b].skip(1) =~= Seq::<Record>::empty());
    assert(seq![a].skip(1) =~= Seq::<Record>::empty());
    assert(table_after(tbl, a.spec_qualified_id()) == tbl);
    assert(table_after(tbl, b.spec_qualified_id()) == tbl);
    let s1 = spec_insert(s, qa, a);
    let s2 = spec_insert(s, qb, b);
    assert(spec_append(s, tbl, sab) == spec_append(s1, tbl, seq![b]));
    assert(spec_append(s1, tbl, seq![b]) == spec_append(spec_insert(s1, qb, b), tbl, seq![b].skip(1)));
    assert(spec_append(s, tbl, sba) == spec_append(s2, tbl, seq![a]));
    assert(spec_append(s2, tbl, seq![a]) == spec_append(spec_insert(s2, qa, a), tbl, seq![a].skip(1)));
}

/// The primary store of declared records, with derived indices by owning
/// model, by inheritance parent, and by unqualified-id prefix.
///
/// The primary store and the two inverted indices are sharded concurrent
/// maps; the prefix trie is a single structure meant to sit behind one
/// reader-writer lock of the embedding system.
pub struct RecordIndex {
    inner: RawIdMap,
    records: Vec<Record>,
    by_model: RawIdMap,
    model_sets: Vec<SymbolSet<Record>>,
    by_inherit_id: RawIdMap,
    inherit_sets: Vec<SymbolSet<Record>>,
    /// Unqualified local id to record ids, for prefix search.
    pub by_prefix: PrefixTrie<Record>,
}

impl RecordIndex {
    /// The primary store: qualified-id symbols to records.
    pub closed spec fn store(self) -> Map<u64, Record> {
        Map::new(
            |k: u64| dash_entries(self.inner).contains_key(k),
            |k: u64| self.records@[dash_entries(self.inner)[k] as int],
        )
    }

    /// The inverted index on the owning model.
    pub closed spec fn models(self) -> Map<u64, Set<u64>> {
        sets_view(dash_entries(self.by_model), self.model_sets@)
    }

    /// The inverted index on the inheritance parent.
    pub closed spec fn inherits(self) -> Map<u64, Set<u64>> {
        sets_view(dash_entries(self.by_inherit_id), self.inherit_sets@)
    }

    /// The whole observable state.
    pub closed spec fn view(self) -> IndexView {
        IndexView {
            store: self.store(),
            models: self.models(),
            inherits: self.inherits(),
            prefixes: self.by_prefix@,
        }
    }

    /// The storage is consistent and the derived indices only mention ids
    /// the primary store holds.
    pub closed spec fn wf(self) -> bool {
        &&& forall|k: u64| #[trigger]
            dash_entries(self.inner).contains_key(k) ==> (dash_entries(self.inner)[k] as int)
                < self.records@.len()
        &&& self.records@.len() <= usize::MAX
        &&& sets_wf(dash_entries(self.by_model), self.model_sets@)
        &&& sets_wf(dash_entries(self.by_inherit_id), self.inherit_sets@)
        &&& self.by_prefix.wf()
        &&& ref_integral(self@)
    }

    /// Creates an empty index.
    pub fn new() -> (r: Self)
        ensures
            r.wf(),
            r@.store == Map::<u64, Record>::empty(),
            r@.models == Map::<u64, Set<u64>>::empty(),
            r@.inherits == Map::<u64, Set<u64>>::empty(),
            r@.prefixes == Map::<Seq<u8>, Set<u64>>::empty(),
    {
        let r = RecordIndex {
            inner: dash_new(),
            records: Vec::new(),
            by_model: dash_new(),
            model_sets: Vec::new(),
            by_inherit_id: dash_new(),
            inherit_sets: Vec::new(),
            by_prefix: PrefixTrie::new(),
        };
        proof {
            assert(r@.store =~= Map::<u64, Record>::empty());
            assert(r@.models =~= Map::<u64, Set<u64>>::empty());
            assert(r@.inherits =~= Map::<u64, Set<u64>>::empty());
        }
        r
    }

    /// Inserts `record` under `qualified_id`, updating the index's own
    /// prefix trie. When the id is already present this is a no-op: no
    /// store entry and no derived index changes.
    pub fn insert(&mut self, qualified_id: RecordId, record: Record)
        requires
            old(self).wf(),
        ensures
            final(self).wf(),
            final(self)@ == spec_insert(old(self)@, qualified_id.spec_raw(), record),
    {
        if dash_contains(&self.inner, qualified_id.raw()) {
            return;
        }
        match record.model {
            Some(m) => add_set_member(
                &mut self.by_model,
                &mut self.model_sets,
                m.raw(),
                qualified_id,
            ),
            None => (),
        }
        match record.inherit_id {
            Some(p) => add_set_member(
                &mut self.by_inherit_id,
                &mut self.inherit_sets,
                p.raw(),
                qualified_id,
            ),
            None => (),
        }
        self.by_prefix.insert(&record.id, qualified_id);
        let idx = self.records.len() as u64;
        self.records.push(record);
        dash_insert(&mut self.inner, qualified_id.raw(), idx);
        let total = self.records.len();
        proof {
            assert(self.records@.len() == total as nat);
            assert(self@.store =~= spec_insert(old(self)@, qualified_id.spec_raw(), record).store);
            assert(self@ =~= spec_insert(old(self)@, qualified_id.spec_raw(), record));
            lemma_insert_integrity(old(self)@, qualified_id.spec_raw(), record);
        }
    }

    /// Inserts `record` under `qualified_id` as [`Self::insert`] does, but
    /// records the unqualified id in the caller-supplied trie instead of
    /// the index's own; a caller loading a large batch keeps one exclusive
    /// trie handle across the whole batch this way.
    pub fn insert_with_trie(
        &mut self,
        qualified_id: RecordId,
        record: Record,
        prefix: &mut PrefixTrie<Record>,
    )
        requires
            old(self).wf(),
            old(prefix).wf(),
        ensures
            final(self).wf(),
            final(prefix).wf(),
            final(self)@.prefixes == old(self)@.prefixes,
            (IndexView { prefixes: final(prefix)@, ..final(self)@ }) == spec_insert(
                (IndexView { prefixes: old(prefix)@, ..old(self)@ }),
                qualified_id.spec_raw(),
                record,
            ),
    {
        if dash_contains(&self.inner, qualified_id.raw()) {
            return;
        }
        match record.model {
            Some(m) => add_set_member(
                &mut self.by_model,
                &mut self.model_sets,
                m.raw(),
                qualified_id,
            ),
            None => (),
        }
        match record.inherit_id {
            Some(p) => add_set_member(
                &mut self.by_inherit_id,
                &mut self.inherit_sets,
                p.raw(),
                qualified_id,
            ),
            None => (),
        }
        prefix.insert(&record.id, qualified_id);
        let idx = self.records.len() as u64;
        self.records.push(record);
        dash_insert(&mut self.inner, qualified_id.raw(), idx);
        let total = self.records.len();
        proof {
            let combined_old = (IndexView { prefixes: old(prefix)@, ..old(self)@ });
            assert(self.records@.len() == total as nat);
            assert(self@.store =~= spec_insert(combined_old, qualified_id.spec_raw(), record).store);
            assert((IndexView { prefixes: prefix@, ..self@ }) =~= spec_insert(
                combined_old,
                qualified_id.spec_raw(),
                record,
            ));
            lemma_insert_integrity(old(self)@, qualified_id.spec_raw(), record);
            let own_ins = spec_insert(old(self)@, qualified_id.spec_raw(), record);
            assert(self@.store == own_ins.store);
            assert(self@.models == own_ins.models);
            assert(self@.inherits == own_ins.inherits);
            assert(ref_integral(self@)) by {
                assert forall|k: Seq<u8>, id: u64|
                    self@.prefixes.contains_key(k) && #[trigger] self@.prefixes[k].contains(id)
                    implies self@.store.contains_key(id) by {
                    assert(old(self)@.prefixes[k].contains(id));
                    assert(old(self)@.store.contains_key(id));
                }
            }
        }
    }

    /// Interns each record's qualified id and inserts the records in the
    /// given order, into the index's own prefix trie.
    pub fn append(&mut self, interner: &mut Interner, records: Vec<Record>)
        requires
            old(self).wf(),
            old(interner).wf(),
        ensures
            final(self).wf(),
            final(interner).wf(),
            final(self)@ == spec_append(old(self)@, old(interner)@, records@).0,
            final(interner)@ == spec_append(old(self)@, old(interner)@, records@).1,
    {
        let mut rest = records;
        while rest.len() > 0
            invariant
                self.wf(),
                interner.wf(),
                spec_append(self@, interner@, rest@) == spec_append(
                    old(self)@,
                    old(interner)@,
                    records@,
                ),
            decreases rest@.len(),
        {
            let rec = rest.remove(0);
            let qid_bytes = rec.qualified_id();
            let qid: RecordId = interner.intern(&qid_bytes);
            self.insert(qid, rec);
        }
    }

    /// As [`Self::append`], but records unqualified ids in the
    /// caller-supplied trie.
    pub fn append_with_trie(
        &mut self,
        interner: &mut Interner,
        records: Vec<Record>,
        prefix: &mut PrefixTrie<Record>,
    )
        requires
            old(self).wf(),
            old(interner).wf(),
            old(prefix).wf(),
        ensures
            final(self).wf(),
            final(interner).wf(),
            final(prefix).wf(),
            final(self)@.prefixes == old(self)@.prefixes,
            (IndexView { prefixes: final(prefix)@, ..final(self)@ }) == spec_append(
                (IndexView { prefixes: old(prefix)@, ..old(self)@ }),
                old(interner)@,
                records@,
            ).0,
            final(interner)@ == spec_append(
                (IndexView { prefixes: old(prefix)@, ..old(self)@ }),
                old(interner)@,
                records@,
            ).1,
    {
        let mut rest = records;
        while rest.len() > 0
            invariant
                self.wf(),
                interner.wf(),
                prefix.wf(),
                self@.prefixes == old(self)@.prefixes,
                spec_append((IndexView { prefixes: prefix@, ..self@ }), interner@, rest@)
                    == spec_append(
                    (IndexView { prefixes: old(prefix)@, ..old(self)@ }),
                    old(interner)@,
                    records@,
                ),
            decreases rest@.len(),
        {
            let rec = rest.remove(0);
            let qid_bytes = rec.qualified_id();
            let qid: RecordId = interner.intern(&qid_bytes);
            self.insert_with_trie(qid, rec, prefix);
        }
    }

    /// The record declared under `id`, if any.
    pub fn get(&self, id: &RecordId) -> (r: Option<&Record>)
        requires
            self.wf(),
        ensures
            match r {
                Some(rec) => self@.store.contains_key(id.spec_raw()) && *rec == self@.store[id.spec_raw()],
                None => !self@.store.contains_key(id.spec_raw()),
            },
    {
        match dash_get(&self.inner, id.raw()) {
            Some(idx) => {
                let n = self.records.len();
                proof {
                    assert((idx as int) < n as int);
                }
                Some(&self.records[idx as usize])
            }
            None => None,
        }
    }

    /// Whether a record is declared under `id`.
    pub fn contains_id(&self, id: &RecordId) -> (r: bool)
        requires
            self.wf(),
        ensures
            r == self@.store.contains_key(id.spec_raw()),
    {
        dash_contains(&self.inner, id.raw())
    }

    /// Resolves a member set against the primary store: each member is
    /// returned with its record, in the set's storage order. A stale member
    /// that the store does not know would be skipped silently rather than
    /// failing; with intact referential integrity there is none.
    fn resolve_references(&self, ids: &SymbolSet<Record>) -> (r: Vec<(RecordId, &Record)>)
        requires
            self.wf(),
            ids.wf(),
            forall|x: u64| ids@.contains(x) ==> self@.store.contains_key(x),
        ensures
            forall|j: int|
                #![trigger r@[j]]
                0 <= j < r@.len() ==> {
                    &&& ids@.contains(r@[j].0.spec_raw())
                    &&& self@.store.contains_key(r@[j].0.spec_raw())
                    &&& *r@[j].1 == self@.store[r@[j].0.spec_raw()]
                },
            forall|x: u64|
                ids@.contains(x) ==> exists|j: int|
                    0 <= j < r@.len() && r@[j].0.spec_raw() == x,
            forall|i: int, j: int|
                0 <= i < j < r@.len() ==> r@[i].0.spec_raw() != r@[j].0.spec_raw(),
    {
        let members = ids.to_vec();
        let n = members.len();
        let mut r: Vec<(RecordId, &Record)> = Vec::new();
        for i in 0..n
            invariant
                n == members@.len(),
                self.wf(),
                forall|i2: int| 0 <= i2 < n ==> ids@.contains(#[trigger] members@[i2].spec_raw()),
                forall|x: u64|
                    ids@.contains(x) ==> exists|i2: int|
                        0 <= i2 < n && members@[i2].spec_raw() == x,
                forall|i2: int, j2: int|
                    0 <= i2 < j2 < n ==> members@[i2].spec_raw() != members@[j2].spec_raw(),
                forall|x: u64| ids@.contains(x) ==> self@.store.contains_key(x),
                r@.len() == i,
                forall|j: int|
                    #![trigger r@[j]]
                    0 <= j < i ==> {
                        &&& r@[j].0 == members@[j]
                        &&& self@.store.contains_key(members@[j].spec_raw())
                        &&& *r@[j].1 == self@.store[members@[j].spec_raw()]
                    },
        {
            let sym = members[i];
            match self.get(&sym) {
                Some(rec) => {
                    r.push((sym, rec));
                }
                None => (),
            }
        }
        proof {
            assert forall|x: u64| ids@.contains(x) implies exists|j: int|
                0 <= j < r@.len() && r@[j].0.spec_raw() == x by {
                let i2 = choose|i2: int| 0 <= i2 < n && members@[i2].spec_raw() == x;
                assert(r@[i2].0.spec_raw() == x);
            }
        }
        r
    }

    /// All records owned by `model`, each id paired with its record. Every
    /// member of the model's inverted-index set is returned exactly once;
    /// an unknown model yields the empty sequence.
    pub fn by_model(&self, model: &ModelName) -> (r: Vec<(RecordId, &Record)>)
        requires
            self.wf(),
        ensures
            forall|j: int|
                #![trigger r@[j]]
                0 <= j < r@.len() ==> {
                    &&& self@.models.contains_key(model.spec_raw())
                    &&& self@.models[model.spec_raw()].contains(r@[j].0.spec_raw())
                    &&& self@.store.contains_key(r@[j].0.spec_raw())
                    &&& *r@[j].1 == self@.store[r@[j].0.spec_raw()]
                },
            forall|x: u64|
                self@.models.contains_key(model.spec_raw()) && self@.models[model.spec_raw()].contains(x)
                    ==> exists|j: int| 0 <= j < r@.len() && r@[j].0.spec_raw() == x,
            forall|i: int, j: int|
                0 <= i < j < r@.len() ==> r@[i].0.spec_raw() != r@[j].0.spec_raw(),
    {
        match dash_get(&self.by_model, model.raw()) {
            Some(idx) => {
                let n = self.model_sets.len();
                proof {
                    assert((idx as int) < n as int);
                    assert(self@.models.contains_key(model.spec_raw()));
                    assert(self@.models[model.spec_raw()] == self.model_sets@[idx as int]@);
                    assert forall|x: u64| self.model_sets@[idx as int]@.contains(x)
                        implies self@.store.contains_key(x) by {
                        assert(self@.models[model.spec_raw()].contains(x));
                    }
                }
                self.resolve_references(&self.model_sets[idx as usize])
            }
            None => Vec::new(),
        }
    }

    /// All records inheriting from the record declared under `inherit_id`,
    /// each id paired with its record. Every member of the parent's
    /// inverted-index set is returned exactly once; an unknown parent
    /// yields the empty sequence.
    pub fn by_inherit_id(&self, inherit_id: &RecordId) -> (r: Vec<(RecordId, &Record)>)
        requires
            self.wf(),
        ensures
            forall|j: int|
                #![trigger r@[j]]
                0 <= j < r@.len() ==> {
                    &&& self@.inherits.contains_key(inherit_id.spec_raw())
                    &&& self@.inherits[inherit_id.spec_raw()].contains(r@[j].0.spec_raw())
                    &&& self@.store.contains_key(r@[j].0.spec_raw())
                    &&& *r@[j].1 == self@.store[r@[j].0.spec_raw()]
                },
            forall|x: u64|
                self@.inherits.contains_key(inherit_id.spec_raw()) && self@.inherits[inherit_id.spec_raw()].contains(x)
                    ==> exists|j: int| 0 <= j < r@.len() && r@[j].0.spec_raw() == x,
            forall|i: int, j: int|
                0 <= i < j < r@.len() ==> r@[i].0.spec_raw() != r@[j].0.spec_raw(),
    {
        match dash_get(&self.by_inherit_id, inherit_id.raw()) {
            Some(idx) => {
                let n = self.inherit_sets.len();
                proof {
                    assert((idx as int) < n as int);
                    assert(self@.inherits.contains_key(inherit_id.spec_raw()));
                    assert(self@.inherits[inherit_id.spec_raw()] == self.inherit_sets@[idx as int]@);
                    assert forall|x: u64| self.inherit_sets@[idx as int]@.contains(x)
                        implies self@.store.contains_key(x) by {
                        assert(self@.inherits[inherit_id.spec_raw()].contains(x));
                    }
                }
                self.resolve_references(&self.inherit_sets[idx as usize])
            }
            None => Vec::new(),
        }
    }
}

impl Default for RecordIndex {
    /// Creates an empty index.
    fn default() -> (r: Self)
        ensures
            r.wf(),
            r@.store == Map::<u64, Record>::empty(),
            r@.models == Map::<u64, Set<u64>>::empty(),
            r@.inherits == Map::<u64, Set<u64>>::empty(),
            r@.prefixes == Map::<Seq<u8>, Set<u64>>::empty(),
    {
        RecordIndex::new()
    }
}

} // verus!
