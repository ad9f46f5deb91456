use symbol_index::record::{ModelName, Record, RecordId, RecordIndex, SourceLocation};
use symbol_index::symbol::Interner;
use symbol_index::trie::PrefixTrie;

fn loc() -> SourceLocation {
    SourceLocation { path: b"/addons/foo.xml".to_vec(), line: 1, column: 1 }
}

fn rec(
    module: &str,
    id: &str,
    model: Option<ModelName>,
    inherit_id: Option<RecordId>,
) -> Record {
    Record {
        id: id.as_bytes().to_vec(),
        module: module.as_bytes().to_vec(),
        model,
        inherit_id,
        location: loc(),
    }
}

#[test]
fn qualified_id_joins_module_and_local_id() {
    let r = rec("foo", "bar", None, None);
    assert_eq!(r.qualified_id(), b"foo.bar".to_vec());
}

#[test]
fn single_model_two_records() {
    let mut interner = Interner::new();
    let foo: ModelName = interner.intern(&b"foo".to_vec());
    let mut index = RecordIndex::new();
    index.append(
        &mut interner,
        vec![rec("foo", "a", Some(foo), None), rec("foo", "b", Some(foo), None)],
    );
    let a: RecordId = interner.intern(&b"foo.a".to_vec());
    let b: RecordId = interner.intern(&b"foo.b".to_vec());
    let got = index.by_model(&foo);
    assert_eq!(got.len(), 2);
    let mut raws: Vec<u64> = got.iter().map(|(id, _)| id.raw()).collect();
    raws.sort();
    let mut want = vec![a.raw(), b.raw()];
    want.sort();
    assert_eq!(raws, want);
    for (id, r) in got {
        if id.raw() == a.raw() {
            assert_eq!(r.id, b"a".to_vec());
        } else {
            assert_eq!(r.id, b"b".to_vec());
        }
        assert_eq!(r.module, b"foo".to_vec());
    }
}

#[test]
fn inheritance_chain() {
    let mut interner = Interner::new();
    let mut index = RecordIndex::new();
    let base = rec("m", "base", None, None);
    let base_id: RecordId = interner.intern(&base.qualified_id());
    index.insert(base_id, base);
    let child = rec("m", "child", None, Some(base_id));
    let child_id: RecordId = interner.intern(&child.qualified_id());
    index.insert(child_id, child);

    let under_base = index.by_inherit_id(&base_id);
    assert_eq!(under_base.len(), 1);
    assert_eq!(under_base[0].0.raw(), child_id.raw());
    assert_eq!(under_base[0].1.id, b"child".to_vec());

    let under_child = index.by_inherit_id(&child_id);
    assert!(under_child.is_empty());
}

#[test]
fn insert_is_idempotent() {
    let mut interner = Interner::new();
    let foo: ModelName = interner.intern(&b"foo".to_vec());
    let mut index = RecordIndex::new();
    let qid: RecordId = interner.intern(&b"foo.a".to_vec());
    index.insert(qid, rec("foo", "a", Some(foo), None));
    index.insert(qid, rec("foo", "a", Some(foo), None));
    assert_eq!(index.by_model(&foo).len(), 1);
    assert!(index.contains_id(&qid));
    let entries = index.by_prefix.prefix_entries(&b"a".to_vec());
    assert_eq!(entries.len(), 1);
    assert_eq!(entries[0].1.to_vec().len(), 1);
}

#[test]
fn no_overwrite_of_present_id() {
    let mut interner = Interner::new();
    let foo: ModelName = interner.intern(&b"foo".to_vec());
    let bar: ModelName = interner.intern(&b"bar".to_vec());
    let mut index = RecordIndex::new();
    let qid: RecordId = interner.intern(&b"foo.a".to_vec());
    index.insert(qid, rec("foo", "a", Some(foo), None));
    // a different record under the same qualified id must change nothing
    index.insert(qid, rec("foo", "a", Some(bar), None));
    let first = index.get(&qid).expect("record must stay");
    assert_eq!(first.model.map(|m| m.raw()), Some(foo.raw()));
    assert!(index.by_model(&bar).is_empty());
    assert_eq!(index.by_model(&foo).len(), 1);
}

#[test]
fn batch_append_order_is_irrelevant() {
    let mut interner = Interner::new();
    let foo: ModelName = interner.intern(&b"foo".to_vec());
    let make_a = |m: ModelName| rec("foo", "a", Some(m), None);
    let make_b = |m: ModelName| rec("foo", "b", Some(m), None);

    let mut first = RecordIndex::new();
    first.append(&mut interner, vec![make_a(foo), make_b(foo)]);
    let mut second = RecordIndex::new();
    second.append(&mut interner, vec![make_b(foo), make_a(foo)]);

    let a: RecordId = interner.intern(&b"foo.a".to_vec());
    let b: RecordId = interner.intern(&b"foo.b".to_vec());
    for index in [&first, &second] {
        assert!(index.contains_id(&a));
        assert!(index.contains_id(&b));
        let mut raws: Vec<u64> = index.by_model(&foo).iter().map(|(id, _)| id.raw()).collect();
        raws.sort();
        let mut want = vec![a.raw(), b.raw()];
        want.sort();
        assert_eq!(raws, want);
        let keys: Vec<Vec<u8>> = index
            .by_prefix
            .prefix_entries(&Vec::new())
            .iter()
            .map(|(k, _)| k.clone())
            .collect();
        assert_eq!(keys, vec![b"a".to_vec(), b"b".to_vec()]);
    }
}

#[test]
fn external_trie_batch_path() {
    let mut interner = Interner::new();
    let mut index = RecordIndex::new();
    let mut trie: PrefixTrie<Record> = PrefixTrie::new();
    index.append_with_trie(
        &mut interner,
        vec![rec("m", "x", None, None), rec("m", "y", None, None)],
        &mut trie,
    );
    // the external trie received the local ids, the index's own did not
    assert_eq!(trie.prefix_entries(&Vec::new()).len(), 2);
    assert!(index.by_prefix.prefix_entries(&Vec::new()).is_empty());
    let x: RecordId = interner.intern(&b"m.x".to_vec());
    assert!(index.contains_id(&x));
}

#[test]
fn records_of_different_modules_share_a_trie_key() {
    let mut interner = Interner::new();
    let mut index = RecordIndex::new();
    index.append(
        &mut interner,
        vec![rec("alpha", "view_form", None, None), rec("beta", "view_form", None, None)],
    );
    let entries = index.by_prefix.prefix_entries(&b"view".to_vec());
    assert_eq!(entries.len(), 1);
    assert_eq!(entries[0].0, b"view_form".to_vec());
    let ids = entries[0].1.to_vec();
    assert_eq!(ids.len(), 2);
    let a: RecordId = interner.intern(&b"alpha.view_form".to_vec());
    let b: RecordId = interner.intern(&b"beta.view_form".to_vec());
    let mut raws: Vec<u64> = ids.iter().map(|id| id.raw()).collect();
    raws.sort();
    let mut want = vec![a.raw(), b.raw()];
    want.sort();
    assert_eq!(raws, want);
}
