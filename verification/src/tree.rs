use vstd::prelude::*;

use crate::hash::calculate_hash;
use crate::hash::sha256_digest;

verus! {

/// Mathematical model of an entry's kind: a directory, or a file with its
/// last-modified timestamp and its content digest. A file's digest is `None`
/// when its content has not been — or could not be — read; the staleness
/// rule treats such a file as changed (fail open toward re-copying).
#[verifier::ext_equal]
pub enum KindView {
    Dir,
    File { mtime: u64, digest: Option<Seq<u8>> },
}

/// Mathematical model of one tree entry: a root-relative path (as bytes)
/// together with the entry's kind.
#[verifier::ext_equal]
pub struct EntryView {
    pub path: Seq<u8>,
    pub kind: KindView,
}

/// The kind of an entry: a directory, or a file carrying its last-modified
/// timestamp and the SHA-256 digest of its content (`None` when the content
/// was not, or could not be, read).
#[derive(Debug, PartialEq, Eq)]
pub enum Kind {
    Dir,
    File { mtime: u64, digest: Option<Vec<u8>> },
}

/// The view of an optional digest.
pub open spec fn digest_view(d: Option<Vec<u8>>) -> Option<Seq<u8>> {
    match d {
        Some(v) => Some(v@),
        None => None,
    }
}

/// One entry of a scanned tree: a root-relative path and the entry's kind.
#[derive(Debug, PartialEq, Eq)]
pub struct Entry {
    pub path: Vec<u8>,
    pub kind: Kind,
}

/// A snapshot of a directory tree: the entries found by one walk of a root,
/// in traversal order (a directory before its descendants).
#[derive(Debug, PartialEq, Eq)]
pub struct Tree {
    pub entries: Vec<Entry>,
}

impl View for Kind {
    type V = KindView;

    open spec fn view(&self) -> KindView {
        match self {
            Kind::Dir => KindView::Dir,
            Kind::File { mtime, digest } => KindView::File {
                mtime: *mtime,
                digest: digest_view(*digest),
            },
        }
    }
}

impl View for Entry {
    type V = EntryView;

    open spec fn view(&self) -> EntryView {
        EntryView { path: self.path@, kind: self.kind@ }
    }
}

impl View for Tree {
    type V = Seq<EntryView>;

    open spec fn view(&self) -> Seq<EntryView> {
        self.entries@.map_values(|e: Entry| e@)
    }
}

/// No two entries of the tree carry the same relative path.
pub open spec fn paths_unique(t: Seq<EntryView>) -> bool {
    forall|i: int, j: int| 0 <= i < j < t.len() ==> t[i].path != t[j].path
}

/// The kind recorded for path `p` in `t`, taking the first entry whose path
/// matches, or `None` when no entry does.
pub open spec fn lookup(t: Seq<EntryView>, p: Seq<u8>) -> Option<KindView>
    decreases t.len(),
{
    if t.len() == 0 {
        None
    } else if t[0].path == p {
        Some(t[0].kind)
    } else {
        lookup(t.drop_first(), p)
    }
}

/// Whether some entry of `t` carries the path `p`.
pub open spec fn has_path(t: Seq<EntryView>, p: Seq<u8>) -> bool {
    lookup(t, p) is Some
}

/// `lookup` misses exactly when no entry carries the path.
pub proof fn lemma_lookup_none_iff(t: Seq<EntryView>, p: Seq<u8>)
    ensures
        (lookup(t, p) is None) <==> (forall|i: int| 0 <= i < t.len() ==> t[i].path != p),
    decreases t.len(),
{
    if t.len() > 0 {
        lemma_lookup_none_iff(t.drop_first(), p);
        assert(forall|i: int| #![auto] 0 <= i < t.drop_first().len() ==> t.drop_first()[i] == t[i + 1]);
        if lookup(t, p) is None {
            assert forall|i: int| 0 <= i < t.len() implies t[i].path != p by {
                if i > 0 {
                    assert(t.drop_first()[i - 1] == t[i]);
                    assert(t.drop_first()[i - 1].path != p);
                }
            }
        } else {
            if t[0].path != p {
                assert(!(lookup(t.drop_first(), p) is None));
                let i = choose|i: int|
                    0 <= i < t.drop_first().len() && t.drop_first()[i].path == p;
                assert(t[i + 1].path == p);
            }
        }
    }
}

/// Looking up over a concatenation reads the left part first.
pub proof fn lemma_lookup_append(a: Seq<EntryView>, b: Seq<EntryView>, p: Seq<u8>)
    ensures
        lookup(a + b, p) == (if has_path(a, p) {
            lookup(a, p)
        } else {
            lookup(b, p)
        }),
    decreases a.len(),
{
    if a.len() == 0 {
        assert(a + b =~= b);
    } else {
        assert((a + b).drop_first() =~= a.drop_first() + b);
        assert((a + b)[0] == a[0]);
        lemma_lookup_append(a.drop_first(), b, p);
    }
}

/// In a tree with unique paths, looking up an entry's own path finds exactly
/// that entry's kind.
pub proof fn lemma_lookup_at_index(t: Seq<EntryView>, i: int)
    requires
        paths_unique(t),
        0 <= i < t.len(),
    ensures
        lookup(t, t[i].path) == Some(t[i].kind),
    decreases t.len(),
{
    if i == 0 {
    } else {
        assert(t[0].path != t[i].path);
        assert(paths_unique(t.drop_first())) by {
            assert(forall|x: int, y: int| #![auto]
                0 <= x < y < t.drop_first().len() ==> t.drop_first()[x].path != t.drop_first()[y].path);
        }
        lemma_lookup_at_index(t.drop_first(), i - 1);
        assert(t.drop_first()[i - 1] == t[i]);
    }
}

/// A successful lookup comes from some entry of the tree.
pub proof fn lemma_lookup_finds_entry(t: Seq<EntryView>, p: Seq<u8>, k: KindView)
    requires
        lookup(t, p) == Some(k),
    ensures
        exists|i: int| 0 <= i < t.len() && #[trigger] t[i] == (EntryView { path: p, kind: k }),
    decreases t.len(),
{
    if t[0].path == p {
        assert(t[0] == (EntryView { path: p, kind: k }));
    } else {
        lemma_lookup_finds_entry(t.drop_first(), p, k);
        let j = choose|j: int|
            0 <= j < t.drop_first().len() && t.drop_first()[j] == (EntryView { path: p, kind: k });
        assert(t[j + 1] == (EntryView { path: p, kind: k }));
    }
}

/// Compares two byte vectors for element-wise equality.
pub fn bytes_eq(a: &Vec<u8>, b: &Vec<u8>) -> (r: bool)
    ensures
        r == (a@ == b@),
{
    if a.len() != b.len() {
        return false;
    }
    let mut i: usize = 0;
    while i < a.len()
        invariant
            i <= a.len(),
            a@.len() == b@.len(),
            forall|j: int| 0 <= j < i ==> a@[j] == b@[j],
        decreases a.len() - i,
    {
        if a[i] != b[i] {
            return false;
        }
        i += 1;
    }
    proof {
        assert(a@ =~= b@);
    }
    true
}

/// Copies a byte vector.
pub fn clone_bytes(v: &Vec<u8>) -> (r: Vec<u8>)
    ensures
        r@ == v@,
{
    let mut r: Vec<u8> = Vec::new();
    let mut i: usize = 0;
    while i < v.len()
        invariant
            i <= v.len(),
            r@ == v@.subrange(0, i as int),
        decreases v.len() - i,
    {
        r.push(v[i]);
        proof {
            assert(v@.subrange(0, i as int + 1) =~= v@.subrange(0, i as int).push(v@[i as int]));
        }
        i += 1;
    }
    proof {
        assert(v@.subrange(0, v@.len() as int) =~= v@);
    }
    r
}

impl Entry {
    /// Builds a directory entry for the given relative path.
    pub fn dir(path: Vec<u8>) -> (e: Entry)
        ensures
            e@ == (EntryView { path: path@, kind: KindView::Dir }),
    {
        Entry { path, kind: Kind::Dir }
    }

    /// Builds a file entry for the given relative path: the recorded digest
    /// is the SHA-256 digest of `content`.
    pub fn file(path: Vec<u8>, mtime: u64, content: &Vec<u8>) -> (e: Entry)
        ensures
            e@ == (EntryView {
                path: path@,
                kind: KindView::File { mtime, digest: Some(sha256_digest(content@)) },
            }),
    {
        let digest = calculate_hash(content);
        Entry { path, kind: Kind::File { mtime, digest: Some(digest) } }
    }

    /// Builds a file entry whose content digest is not available: one whose
    /// content has not been, or could not be, read. The staleness rule treats
    /// such a file as changed.
    pub fn file_without_digest(path: Vec<u8>, mtime: u64) -> (e: Entry)
        ensures
            e@ == (EntryView { path: path@, kind: KindView::File { mtime, digest: None } }),
    {
        Entry { path, kind: Kind::File { mtime, digest: None } }
    }
}

impl Tree {
    /// An empty snapshot.
    pub fn new() -> (t: Tree)
        ensures
            t@ == Seq::<EntryView>::empty(),
    {
        let t = Tree { entries: Vec::new() };
        proof {
            assert(t@ =~= Seq::<EntryView>::empty());
        }
        t
    }

    /// Appends one entry to the snapshot.
    pub fn push(&mut self, e: Entry)
        ensures
            final(self)@ == old(self)@.push(e@),
    {
        let ghost ev = e@;
        self.entries.push(e);
        proof {
            assert(self@ =~= old(self)@.push(ev));
        }
    }

}

/// Finds the first entry of `t` whose path equals `p`.
pub fn find_entry<'a>(t: &'a Tree, p: &Vec<u8>) -> (r: Option<&'a Entry>)
    ensures
        match r {
            Some(e) => lookup(t@, p@) == Some(e@.kind) && e@.path == p@,
            None => lookup(t@, p@) is None,
        },
{
    let n = t.entries.len();
    proof {
        assert(n == t@.len());
        assert(t@.subrange(0, n as int) =~= t@);
    }
    let mut i: usize = 0;
    while i < n
        invariant
            i <= n,
            n == t@.len(),
            n == t.entries.len(),
            lookup(t@, p@) == lookup(t@.subrange(i as int, n as int), p@),
        decreases n - i,
    {
        if bytes_eq(&t.entries[i].path, p) {
            proof {
                let suffix = t@.subrange(i as int, n as int);
                assert(suffix[0] == t@[i as int]);
                assert(t@[i as int] == t.entries@[i as int]@);
            }
            return Some(&t.entries[i]);
        }
        proof {
            let suffix = t@.subrange(i as int, n as int);
            assert(suffix[0] == t@[i as int]);
            assert(t@[i as int] == t.entries@[i as int]@);
            assert(suffix.drop_first() =~= t@.subrange(i as int + 1, n as int));
        }
        i += 1;
    }
    proof {
        assert(t@.subrange(n as int, n as int) =~= Seq::<EntryView>::empty());
    }
    None
}

} // verus!
