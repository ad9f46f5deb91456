//! Utilities for testing and benchmarking: an in-memory file store that
//! stands in for the real file system, so that indexing runs can be driven
//! from fixed data.

use vstd::prelude::*;

verus! {

use crate::bytes_eq;
use crate::clone_bytes;

/// Whether the entry list `s` holds a file under path `p`.
pub open spec fn fs_has(s: Seq<(Vec<u8>, Vec<u8>)>, p: Seq<u8>) -> bool {
    exists|i: int| 0 <= i < s.len() && s[i].0@ == p
}

/// The contents the entry list `s` holds under path `p`; meaningful when
/// `fs_has(s, p)` holds and no path is stored twice.
pub open spec fn fs_at(s: Seq<(Vec<u8>, Vec<u8>)>, p: Seq<u8>) -> Seq<u8> {
    let i = choose|i: int| 0 <= i < s.len() && s[i].0@ == p;
    s[i].1@
}

/// Why a read failed.
#[derive(Debug, PartialEq, Eq, Structural)]
pub enum ReadError {
    /// The path has no file in the store.
    NotFound,
}

/// An in-memory mapping from paths to file contents.
pub struct FileStore {
    files: Vec<(Vec<u8>, Vec<u8>)>,
}

impl FileStore {
    /// The stored path-contents pairs.
    pub closed spec fn entries(self) -> Seq<(Vec<u8>, Vec<u8>)> {
        self.files@
    }

    /// Whether a file is stored under `p`.
    pub open spec fn has(self, p: Seq<u8>) -> bool {
        fs_has(self.entries(), p)
    }

    /// The contents stored under `p`; meaningful when `has(p)` holds in a
    /// well-formed store.
    pub open spec fn contents_of(self, p: Seq<u8>) -> Seq<u8> {
        fs_at(self.entries(), p)
    }

    /// No path is stored twice.
    pub open spec fn wf(self) -> bool {
        forall|i: int, j: int|
            0 <= i < j < self.entries().len() ==> self.entries()[i].0@ != self.entries()[j].0@
    }

    /// Creates an empty store.
    pub fn new() -> (r: Self)
        ensures
            r.wf(),
            forall|p: Seq<u8>| !r.has(p),
    {
        FileStore { files: Vec::new() }
    }

    /// Stores `data` under `path`, replacing what was stored there before
    /// and leaving every other path as it was.
    pub fn insert(&mut self, path: Vec<u8>, data: Vec<u8>)
        requires
            old(self).wf(),
        ensures
            final(self).wf(),
            final(self).has(path@),
            final(self).contents_of(path@) == data@,
            forall|q: Seq<u8>| q != path@ ==> (final(self).has(q) <==> old(self).has(q)),
            forall|q: Seq<u8>|
                q != path@ && old(self).has(q) ==> final(self).contents_of(q) == old(
                    self,
                ).contents_of(q),
    {
        let n = self.files.len();
        for i in 0..n
            invariant
                n == self.entries().len(),
                forall|j: int| 0 <= j < i ==> self.entries()[j].0@ != path@,
                *self == *old(self),
                self.wf(),
        {
            if bytes_eq(&self.files[i].0, &path) {
                let slot = &mut self.files[i];
                *slot = (path, data);
                proof {
                    lemma_pointwise(old(self).entries(), self.entries(), path@, data@, i as int);
                }
                return;
            }
        }
        self.files.push((path, data));
        proof {
            assert(self.entries().drop_last() =~= old(self).entries());
            lemma_pointwise(
                old(self).entries(),
                self.entries(),
                path@,
                data@,
                self.entries().len() - 1,
            );
        }
    }
}

/// When two stores differ in one entry only, whose path is unchanged, reads
/// of every path relate as `insert` promises.
proof fn lemma_pointwise(
    pre: Seq<(Vec<u8>, Vec<u8>)>,
    post: Seq<(Vec<u8>, Vec<u8>)>,
    path: Seq<u8>,
    data: Seq<u8>,
    at: int,
)
    requires
        0 <= at < post.len(),
        pre.len() == post.len() || pre.len() + 1 == post.len() && at == pre.len(),
        forall|j: int| 0 <= j < pre.len() && j != at ==> post[j] == pre[j],
        post[at].0@ == path,
        post[at].1@ == data,
        at < pre.len() ==> pre[at].0@ == path,
        forall|i: int, j: int| 0 <= i < j < pre.len() ==> pre[i].0@ != pre[j].0@,
        at == pre.len() ==> (forall|i: int| 0 <= i < pre.len() ==> pre[i].0@ != path),
    ensures
        forall|i: int, j: int| 0 <= i < j < post.len() ==> post[i].0@ != post[j].0@,
        fs_has(post, path),
        fs_at(post, path) == data,
        forall|q: Seq<u8>| q != path ==> (fs_has(post, q) <==> fs_has(pre, q)),
        forall|q: Seq<u8>|
            q != path && fs_has(pre, q) ==> #[trigger] fs_at(post, q) == fs_at(pre, q),
{
    assert forall|i: int, j: int| 0 <= i < j < post.len() implies post[i].0@ != post[j].0@ by {
        if i != at && j != at {
            assert(post[i] == pre[i] && post[j] == pre[j]);
        } else if i == at && at < pre.len() {
            assert(post[j] == pre[j]);
            assert(pre[at].0@ != pre[j].0@);
        } else if j == at && at < pre.len() {
            assert(post[i] == pre[i]);
            assert(pre[i].0@ != pre[at].0@);
        } else {
            assert(post[i] == pre[i]);
        }
    }
    assert(post[at].0@ == path);
    assert(fs_has(post, path));
    let w = choose|i: int| 0 <= i < post.len() && post[i].0@ == path;
    assert(w == at) by {
        if w != at {
            assert(post[w].0@ != post[at].0@ || post[at].0@ != post[w].0@);
        }
    }
    assert forall|q: Seq<u8>| q != path implies (fs_has(post, q) <==> fs_has(pre, q)) by {
        if fs_has(post, q) {
            let i = choose|i: int| 0 <= i < post.len() && post[i].0@ == q;
            assert(i != at);
            assert(pre[i].0@ == q);
            assert(fs_has(pre, q));
        }
        if fs_has(pre, q) {
            let i = choose|i: int| 0 <= i < pre.len() && pre[i].0@ == q;
            assert(i != at ==> post[i].0@ == q);
            assert(post[i].0@ == q);
            assert(fs_has(post, q));
        }
    }
    assert forall|q: Seq<u8>| q != path && fs_has(pre, q) implies #[trigger] fs_at(post, q)
        == fs_at(pre, q) by {
        let i = choose|i: int| 0 <= i < post.len() && post[i].0@ == q;
        let j = choose|j: int| 0 <= j < pre.len() && pre[j].0@ == q;
        assert(i != at && j != at);
        assert(post[i] == pre[i]);
        assert(post[j] == pre[j]);
        if i != j {
            assert(pre[i].0@ != pre[j].0@ || pre[j].0@ != pre[i].0@);
        }
    }
}

/// Reads the file stored under `path`, or reports that no file is there.
pub fn read(fs: &FileStore, path: &Vec<u8>) -> (r: Result<Vec<u8>, ReadError>)
    requires
        fs.wf(),
    ensures
        match r {
            Ok(data) => fs.has(path@) && data@ == fs.contents_of(path@),
            Err(e) => !fs.has(path@) && e == ReadError::NotFound,
        },
{
    let n = fs.files.len();
    for i in 0..n
        invariant
            n == fs.entries().len(),
            fs.wf(),
            forall|j: int| 0 <= j < i ==> fs.entries()[j].0@ != path@,
    {
        if bytes_eq(&fs.files[i].0, path) {
            proof {
                let j = choose|j: int|
                    0 <= j < fs.entries().len() && fs.entries()[j].0@ == path@;
                assert(j == i as int) by {
                    if j < i as int {
                        assert(fs.entries()[j].0@ != fs.entries()[i as int].0@);
                    } else if j > i as int {
                        assert(fs.entries()[i as int].0@ != fs.entries()[j].0@);
                    }
                }
            }
            return Ok(clone_bytes(&fs.files[i].1));
        }
    }
    Err(ReadError::NotFound)
}

} // verus!
