//! A workspace-wide symbol interning and multi-index engine.
//!
//! The crate provides a string interner handing out compact typed handles
//! ([`symbol::Symbol`]), integer-keyed containers specialized for those
//! handles ([`symbol_map::SymbolMap`], [`symbol_map::SymbolSet`]), a prefix
//! trie for "starts with" symbol search ([`trie::PrefixTrie`]), and a
//! multi-index store of declared records ([`record::RecordIndex`]) kept
//! consistent with three derived indices (by owning model, by inheritance
//! parent, by unqualified-id prefix).

use vstd::prelude::*;

pub mod record;
pub mod test_utils;
pub mod symbol;
pub mod symbol_map;
pub mod trie;

verus! {

/// Compares two byte strings for equality.
pub fn bytes_eq(a: &Vec<u8>, b: &Vec<u8>) -> (r: bool)
    ensures
        r <==> a@ == b@,
{
    if a.len() != b.len() {
        return false;
    }
    let n = a.len();
    for i in 0..n
        invariant
            n == a@.len() == b@.len(),
            forall|j: int| 0 <= j < i ==> a@[j] == b@[j],
    {
        if a[i] != b[i] {
            return false;
        }
    }
    proof {
        assert(a@ =~= b@);
    }
    true
}

/// Copies a byte string.
pub fn clone_bytes(v: &Vec<u8>) -> (r: Vec<u8>)
    ensures
        r@ == v@,
{
    let mut r: Vec<u8> = Vec::new();
    let n = v.len();
    for i in 0..n
        invariant
            n == v@.len(),
            r@ == v@.take(i as int),
    {
        r.push(v[i]);
        proof {
            assert(r@ =~= v@.take(i + 1));
        }
    }
    proof {
        assert(r@ =~= v@);
    }
    r
}

} // verus!
