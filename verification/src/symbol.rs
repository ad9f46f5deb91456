//! String interning and typed symbol handles.
//!
//! An [`Interner`] is a bijection between byte strings and compact integer
//! handles. A [`Symbol`] wraps such an integer together with a phantom
//! domain tag, so that handles for one entity domain (records) cannot be
//! confused with handles for another (models) at compile time, while all
//! domains share one underlying integer space.

use vstd::prelude::*;

verus! {

use core::marker::PhantomData;
use crate::bytes_eq;

/// A compact, copyable handle standing in for an interned byte string.
///
/// The type parameter `K` is a phantom domain tag: `Symbol<Record>` and
/// `Symbol<Model>` are distinct types even though both are indices into the
/// same interner table. Two symbols with the same tag are equal exactly when
/// they were interned from equal strings by the same interner.
pub struct Symbol<K> {
    raw: u64,
    tag: PhantomData<K>,
}

impl<K> Symbol<K> {
    /// The integer identity of this handle within the interner's table.
    pub closed spec fn spec_raw(self) -> u64 {
        self.raw
    }

    pub closed spec fn spec_from_raw(raw: u64) -> Self {
        Symbol { raw, tag: PhantomData }
    }

    /// Wraps a raw table index as a typed handle.
    ///
    /// An integer that did not come from the shared interner table, or that
    /// was obtained for another domain, wraps without a runtime check;
    /// treating it as a symbol of domain `K` is a logic error on the
    /// caller's side.
    #[verifier::when_used_as_spec(spec_from_raw)]
    pub fn from_raw(raw: u64) -> (s: Self)
        ensures
            s == Self::spec_from_raw(raw),
            s.spec_raw() == raw,
    {
        Symbol { raw, tag: PhantomData }
    }

    /// The raw table index of this handle.
    #[verifier::when_used_as_spec(spec_raw)]
    pub fn raw(self) -> (r: u64)
        ensures
            r == self.spec_raw(),
    {
        self.raw
    }

    /// Two handles of one domain are equal exactly when their raw indices are.
    pub proof fn lemma_raw_injective(a: Self, b: Self)
        ensures
            a == b <==> a.spec_raw() == b.spec_raw(),
    {
    }
}

impl<K> Clone for Symbol<K> {
    fn clone(&self) -> (s: Self)
        ensures
            s == *self,
    {
        Symbol { raw: self.raw, tag: PhantomData }
    }
}

impl<K> Copy for Symbol<K> {}

impl<K> PartialEq for Symbol<K> {
    fn eq(&self, other: &Self) -> (r: bool) {
        self.raw == other.raw
    }
}

impl<K> Eq for Symbol<K> {}

impl<K> vstd::std_specs::cmp::PartialEqSpecImpl for Symbol<K> {
    open spec fn obeys_eq_spec() -> bool {
        true
    }

    open spec fn eq_spec(&self, other: &Self) -> bool {
        self.spec_raw() == other.spec_raw()
    }
}

/// Whether the table `tbl` holds the string `s` somewhere.
pub open spec fn table_has(tbl: Seq<Seq<u8>>, s: Seq<u8>) -> bool {
    exists|i: int| 0 <= i < tbl.len() && tbl[i] == s
}

/// The handle that interning `s` into the table `tbl` yields: the index of
/// `s` when the table holds it, the table's length otherwise.
pub open spec fn table_sym(tbl: Seq<Seq<u8>>, s: Seq<u8>) -> u64 {
    if table_has(tbl, s) {
        (choose|i: int| 0 <= i < tbl.len() && tbl[i] == s) as u64
    } else {
        tbl.len() as u64
    }
}

/// The table after interning `s`: unchanged when it holds `s` already,
/// extended by `s` otherwise.
pub open spec fn table_after(tbl: Seq<Seq<u8>>, s: Seq<u8>) -> Seq<Seq<u8>> {
    if table_has(tbl, s) {
        tbl
    } else {
        tbl.push(s)
    }
}

/// A process-lifetime bijection between byte strings and integer handles.
///
/// The table never shrinks: once interned, a string keeps its handle for the
/// interner's whole lifetime, and every handle resolves back to the string it
/// was interned from.
pub struct Interner {
    table: Vec<Vec<u8>>,
}

impl Interner {
    /// The sequence of interned strings, by handle.
    pub closed spec fn view(self) -> Seq<Seq<u8>> {
        self.table@.map_values(|v: Vec<u8>| v@)
    }

    /// The interner is injective: no string occurs twice in the table.
    pub open spec fn wf(self) -> bool {
        &&& forall|i: int, j: int| 0 <= i < j < self@.len() ==> self@[i] != self@[j]
        &&& self@.len() <= u64::MAX
    }

    /// The view is the table, element by element.
    proof fn lemma_view_index(self, i: int)
        requires
            0 <= i < self.table@.len(),
        ensures
            self@.len() == self.table@.len(),
            self@[i] == self.table@[i]@,
    {
    }

    /// Whether `s` has been interned, i.e. already has a handle.
    pub open spec fn has(self, s: Seq<u8>) -> bool {
        table_has(self@, s)
    }

    /// Whether `sym` is a handle this interner has given out.
    pub open spec fn owns<K>(self, sym: Symbol<K>) -> bool {
        sym.spec_raw() < self@.len()
    }

    /// Creates an empty interner.
    pub fn new() -> (r: Self)
        ensures
            r.wf(),
            r@ == Seq::<Seq<u8>>::empty(),
    {
        Interner { table: Vec::new() }
    }

    /// Returns the handle of `s`, interning it first if it is new.
    ///
    /// Equal strings always receive equal handles; distinct strings receive
    /// distinct handles. Interning never invalidates or remaps handles given
    /// out earlier.
    pub fn intern<K>(&mut self, s: &Vec<u8>) -> (sym: Symbol<K>)
        requires
            old(self).wf(),
        ensures
            final(self).wf(),
            final(self).owns(sym),
            final(self)@[sym.spec_raw() as int] == s@,
            sym.spec_raw() == table_sym(old(self)@, s@),
            final(self)@ == table_after(old(self)@, s@),
            old(self).has(s@) ==> final(self)@ == old(self)@,
            !old(self).has(s@) ==> final(self)@ == old(self)@.push(s@),
    {
        let n = self.table.len();
        for i in 0..n
            invariant
                n == self@.len(),
                forall|j: int| 0 <= j < i ==> self@[j] != s@,
                *self == *old(self),
                self.wf(),
        {
            if bytes_eq(&self.table[i], s) {
                proof {
                    assert(self@[i as int] == s@);
                    assert(table_has(self@, s@));
                    let j = choose|j: int| 0 <= j < self@.len() && self@[j] == s@;
                    assert(j == i as int) by {
                        if j < i as int {
                            assert(self@[j] != self@[i as int]);
                        } else if j > i as int {
                            assert(self@[i as int] != self@[j]);
                        }
                    }
                }
                return Symbol::from_raw(i as u64);
            }
        }
        assert(!self.has(s@));
        let mut copy: Vec<u8> = Vec::new();
        let len = s.len();
        for i in 0..len
            invariant
                len == s@.len(),
                copy@ == s@.take(i as int),
                n == self@.len(),
                forall|j: int| 0 <= j < n ==> self@[j] != s@,
                *self == *old(self),
        {
            copy.push(s[i]);
            proof {
                assert(copy@ =~= s@.take(i + 1));
            }
        }
        proof {
            assert(copy@ =~= s@);
        }
        self.table.push(copy);
        let m = self.table.len();
        proof {
            assert(self@ =~= old(self)@.push(s@));
            assert(self@.len() == m as nat);
            assert forall|i: int, j: int| 0 <= i < j < self@.len() implies self@[i] != self@[j] by {
                if j == n as int {
                    assert(self@[i] == old(self)@[i]);
                    assert(self@[j] == s@);
                } else {
                    assert(self@[i] == old(self)@[i]);
                    assert(self@[j] == old(self)@[j]);
                }
            }
        }
        Symbol::from_raw(n as u64)
    }

    /// Returns the string that `sym` was interned from.
    pub fn resolve<K>(&self, sym: Symbol<K>) -> (r: &Vec<u8>)
        requires
            self.owns(sym),
        ensures
            r@ == self@[sym.spec_raw() as int],
    {
        let n = self.table.len();
        proof {
            assert(self@.len() == n as nat);
            self.lemma_view_index(sym.spec_raw() as int);
        }
        &self.table[sym.raw() as usize]
    }
}

/// Interning bijection. In a well-formed interner, a handle resolves to
/// exactly one string and a string has exactly one handle: two handles
/// resolve to equal strings exactly when they are the same handle. Together
/// with `intern`'s postcondition (the returned handle resolves to the
/// interned string), this gives `resolve(intern(s)) == s`, and
/// `intern(s1) == intern(s2)` exactly when `s1 == s2`.
pub proof fn lemma_intern_bijective(it: Interner, a: u64, b: u64)
    requires
        it.wf(),
        a < it@.len(),
        b < it@.len(),
    ensures
        a == b <==> it@[a as int] == it@[b as int],
{
}

} // verus!
