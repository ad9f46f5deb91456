use symbol_index::record::{Model, Record};
use symbol_index::symbol::{Interner, Symbol};
use symbol_index::symbol_map::{SymbolMap, SymbolSet};
use symbol_index::test_utils::{read, FileStore, ReadError};
use symbol_index::trie::PrefixTrie;

#[test]
fn interning_bijection() {
    let mut interner = Interner::new();
    let a1: Symbol<Record> = interner.intern(&b"foo.a".to_vec());
    let a2: Symbol<Record> = interner.intern(&b"foo.a".to_vec());
    let b: Symbol<Record> = interner.intern(&b"foo.b".to_vec());
    assert_eq!(a1.raw(), a2.raw());
    assert!(a1 == a2);
    assert!(a1.raw() != b.raw());
    assert_eq!(interner.resolve(a1), &b"foo.a".to_vec());
    assert_eq!(interner.resolve(b), &b"foo.b".to_vec());
}

#[test]
fn interning_empty_string() {
    let mut interner = Interner::new();
    let e1: Symbol<Model> = interner.intern(&Vec::new());
    let e2: Symbol<Model> = interner.intern(&Vec::new());
    assert_eq!(e1.raw(), e2.raw());
    assert_eq!(interner.resolve(e1), &Vec::<u8>::new());
}

#[test]
fn symbol_map_operations() {
    let mut interner = Interner::new();
    let k1: Symbol<Model> = interner.intern(&b"res.partner".to_vec());
    let k2: Symbol<Model> = interner.intern(&b"res.users".to_vec());
    let mut map: SymbolMap<Model, u32> = SymbolMap::new();
    assert!(map.get(&k1).is_none());
    assert!(map.insert(k1, 7));
    assert!(!map.insert(k1, 8));
    assert!(map.insert(k2, 9));
    assert_eq!(map.get(&k1), Some(&8));
    assert_eq!(map.get(&k2), Some(&9));
    if let Some(v) = map.get_mut(&k2) {
        *v = 10;
    }
    assert_eq!(map.get(&k2), Some(&10));
    assert!(map.contains_key(&k1));
    let keys = map.keys();
    assert_eq!(keys.len(), 2);
    let mut it = map.iter();
    let mut seen = 0;
    while let Some((_, _)) = it.next() {
        seen += 1;
    }
    assert_eq!(seen, 2);
}

#[test]
fn symbol_set_operations() {
    let mut interner = Interner::new();
    let a: Symbol<Record> = interner.intern(&b"m.a".to_vec());
    let b: Symbol<Record> = interner.intern(&b"m.b".to_vec());
    let c: Symbol<Record> = interner.intern(&b"m.c".to_vec());
    let mut set: SymbolSet<Record> = SymbolSet::new();
    assert!(set.insert(a));
    assert!(!set.insert(a));
    assert!(set.contains_key(a));
    assert!(!set.contains_key(b));
    set.extend(&vec![a, b, b, c]);
    assert_eq!(set.to_vec().len(), 3);
    let mut it = set.iter();
    let mut seen = 0;
    while let Some(_) = it.next() {
        seen += 1;
    }
    assert_eq!(seen, 3);
}

#[test]
fn prefix_queries_are_complete_and_ordered() {
    let mut interner = Interner::new();
    let id1: Symbol<Record> = interner.intern(&b"m.foo_bar".to_vec());
    let id2: Symbol<Record> = interner.intern(&b"m.foo".to_vec());
    let id3: Symbol<Record> = interner.intern(&b"m.other".to_vec());
    let mut trie: PrefixTrie<Record> = PrefixTrie::new();
    trie.insert(&b"foo_bar".to_vec(), id1);
    trie.insert(&b"foo".to_vec(), id2);
    trie.insert(&b"other".to_vec(), id3);

    let hits = trie.prefix_entries(&b"foo".to_vec());
    let keys: Vec<Vec<u8>> = hits.iter().map(|(k, _)| k.clone()).collect();
    assert_eq!(keys, vec![b"foo".to_vec(), b"foo_bar".to_vec()]);
    let foo_bar_ids = hits[1].1.to_vec();
    assert_eq!(foo_bar_ids.len(), 1);
    assert_eq!(foo_bar_ids[0].raw(), id1.raw());

    assert!(trie.prefix_entries(&b"zzz".to_vec()).is_empty());

    // adding the same id under the same key twice changes nothing
    trie.insert(&b"foo".to_vec(), id2);
    let again = trie.prefix_entries(&b"foo".to_vec());
    assert_eq!(again[0].1.to_vec().len(), 1);
}

#[test]
fn prefix_order_is_lexicographic() {
    let mut interner = Interner::new();
    let id: Symbol<Record> = interner.intern(&b"x".to_vec());
    let mut trie: PrefixTrie<Record> = PrefixTrie::new();
    for key in [&b"b"[..], &b"abc"[..], &b"ab"[..], &b"ba"[..], &b"a"[..]] {
        trie.insert(&key.to_vec(), id);
    }
    let keys: Vec<Vec<u8>> = trie
        .prefix_entries(&Vec::new())
        .iter()
        .map(|(k, _)| k.clone())
        .collect();
    assert_eq!(
        keys,
        vec![b"a".to_vec(), b"ab".to_vec(), b"abc".to_vec(), b"b".to_vec(), b"ba".to_vec()]
    );
}

#[test]
fn trie_get_exact_key() {
    let mut interner = Interner::new();
    let id: Symbol<Record> = interner.intern(&b"m.a".to_vec());
    let mut trie: PrefixTrie<Record> = PrefixTrie::new();
    trie.insert(&b"abc".to_vec(), id);
    assert!(trie.get(&b"abc".to_vec()).is_some());
    assert!(trie.get(&b"ab".to_vec()).is_none());
}

#[test]
fn read_returns_stored_contents() {
    let mut fs = FileStore::new();
    fs.insert(b"/addons/foo.py".to_vec(), b"class Foo: pass".to_vec());
    let data = read(&fs, &b"/addons/foo.py".to_vec()).expect("stored file must be found");
    assert_eq!(data, b"class Foo: pass".to_vec());
    // a second insert under the same path replaces the contents
    fs.insert(b"/addons/foo.py".to_vec(), b"class Bar: pass".to_vec());
    let data = read(&fs, &b"/addons/foo.py".to_vec()).expect("stored file must be found");
    assert_eq!(data, b"class Bar: pass".to_vec());
}

#[test]
fn read_reports_missing_file() {
    let fs = FileStore::new();
    assert_eq!(read(&fs, &b"/nope".to_vec()), Err(ReadError::NotFound));
}
