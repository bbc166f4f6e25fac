use vstd::prelude::*;

use crate::detector::is_file_updated;
use crate::detector::needs_update;
use crate::tree::clone_bytes;
use crate::tree::digest_view;
use crate::tree::find_entry;
use crate::tree::has_path;
use crate::tree::lookup;
use crate::tree::paths_unique;
use crate::tree::lemma_lookup_append;
use crate::tree::lemma_lookup_none_iff;
use crate::tree::Entry;
use crate::tree::EntryView;
use crate::tree::Kind;
use crate::tree::KindView;
use crate::tree::Tree;

verus! {

/// Mathematical model of one reconciliation action.
#[verifier::ext_equal]
pub enum ActionView {
    CreateDir(Seq<u8>),
    CopyFile(Seq<u8>),
    SkipFile(Seq<u8>),
    RemoveFile(Seq<u8>),
    RemoveDir(Seq<u8>),
}

/// One step of a reconciliation pass, to be carried out against the
/// destination root: create a directory, copy a file from the source root,
/// note a file as unchanged, or remove an extraneous file or directory.
#[derive(Debug, PartialEq, Eq)]
pub enum Action {
    CreateDir(Vec<u8>),
    CopyFile(Vec<u8>),
    SkipFile(Vec<u8>),
    RemoveFile(Vec<u8>),
    RemoveDir(Vec<u8>),
}

impl View for Action {
    type V = ActionView;

    open spec fn view(&self) -> ActionView {
        match self {
            Action::CreateDir(p) => ActionView::CreateDir(p@),
            Action::CopyFile(p) => ActionView::CopyFile(p@),
            Action::SkipFile(p) => ActionView::SkipFile(p@),
            Action::RemoveFile(p) => ActionView::RemoveFile(p@),
            Action::RemoveDir(p) => ActionView::RemoveDir(p@),
        }
    }
}

/// The views of a vector of actions.
pub open spec fn acts_view(s: Seq<Action>) -> Seq<ActionView> {
    s.map_values(|a: Action| a@)
}

/// The action (if any) that one source entry contributes: create the
/// directory when no destination directory stands at the path, copy a stale
/// file, or skip an up-to-date one.
pub open spec fn entry_actions(e: EntryView, dest: Seq<EntryView>) -> Seq<ActionView> {
    match e.kind {
        KindView::Dir => if lookup(dest, e.path) == Some(KindView::Dir) {
            Seq::<ActionView>::empty()
        } else {
            seq![ActionView::CreateDir(e.path)]
        },
        KindView::File { mtime, digest } => if needs_update(mtime, digest, lookup(dest, e.path)) {
            seq![ActionView::CopyFile(e.path)]
        } else {
            seq![ActionView::SkipFile(e.path)]
        },
    }
}

/// The creations, copies and skips of a pass: one decision per source entry,
/// in source-walk order.
pub open spec fn copy_actions(src: Seq<EntryView>, dest: Seq<EntryView>) -> Seq<ActionView>
    decreases src.len(),
{
    if src.len() == 0 {
        Seq::<ActionView>::empty()
    } else {
        entry_actions(src[0], dest) + copy_actions(src.drop_first(), dest)
    }
}

/// The removal action for one destination entry.
pub open spec fn removal_action(e: EntryView) -> ActionView {
    match e.kind {
        KindView::Dir => ActionView::RemoveDir(e.path),
        KindView::File { .. } => ActionView::RemoveFile(e.path),
    }
}

/// The removal (if any) that one destination entry contributes: entries whose
/// path never appeared under the source root are removed.
pub open spec fn removal_part(e: EntryView, src: Seq<EntryView>) -> Seq<ActionView> {
    if has_path(src, e.path) {
        Seq::<ActionView>::empty()
    } else {
        seq![removal_action(e)]
    }
}

/// The removals of a pass, in reverse destination-walk order, so that the
/// contents of a directory are removed before the directory itself.
pub open spec fn delete_actions(dest: Seq<EntryView>, src: Seq<EntryView>) -> Seq<ActionView>
    decreases dest.len(),
{
    if dest.len() == 0 {
        Seq::<ActionView>::empty()
    } else {
        removal_part(dest.last(), src) + delete_actions(dest.drop_last(), src)
    }
}

/// The whole plan of one reconciliation pass: every creation, copy and skip,
/// in source-walk order, followed — only when deletion is enabled — by every
/// removal. All creations and copies therefore precede all removals.
pub open spec fn plan_spec(src: Seq<EntryView>, dest: Seq<EntryView>, delete: bool) -> Seq<
    ActionView,
> {
    copy_actions(src, dest) + if delete {
        delete_actions(dest, src)
    } else {
        Seq::<ActionView>::empty()
    }
}

/// What becomes of a destination entry's kind after the pass: overwritten
/// with the source file's digest (timestamped `now`) when stale, turned into
/// a directory when the source holds one there, otherwise untouched.
pub open spec fn applied_kind(k: KindView, src: Seq<EntryView>, p: Seq<u8>, now: u64) -> KindView {
    match lookup(src, p) {
        Some(KindView::File { mtime, digest }) => if needs_update(mtime, digest, Some(k)) {
            KindView::File { mtime: now, digest }
        } else {
            k
        },
        Some(KindView::Dir) => KindView::Dir,
        None => k,
    }
}

/// Whether a destination entry survives the pass.
pub open spec fn keep_entry(e: EntryView, src: Seq<EntryView>, delete: bool) -> bool {
    !delete || has_path(src, e.path)
}

/// A destination entry after the pass.
pub open spec fn apply_entry(e: EntryView, src: Seq<EntryView>, now: u64) -> EntryView {
    EntryView { path: e.path, kind: applied_kind(e.kind, src, e.path, now) }
}

/// The surviving destination entries after the pass, in destination order,
/// each updated from its source counterpart where stale.
pub open spec fn updated_entries(
    dest: Seq<EntryView>,
    src: Seq<EntryView>,
    delete: bool,
    now: u64,
) -> Seq<EntryView>
    decreases dest.len(),
{
    if dest.len() == 0 {
        Seq::<EntryView>::empty()
    } else {
        let rest = updated_entries(dest.drop_first(), src, delete, now);
        if keep_entry(dest[0], src, delete) {
            seq![apply_entry(dest[0], src, now)] + rest
        } else {
            rest
        }
    }
}

/// The kind a newly created destination entry takes: a fresh copy of a file
/// carries the source digest and is timestamped `now`.
pub open spec fn fresh_kind(k: KindView, now: u64) -> KindView {
    match k {
        KindView::Dir => KindView::Dir,
        KindView::File { mtime, digest } => KindView::File { mtime: now, digest },
    }
}

/// A destination entry created for a source entry whose path was absent.
pub open spec fn fresh_entry(e: EntryView, now: u64) -> EntryView {
    EntryView { path: e.path, kind: fresh_kind(e.kind, now) }
}

/// The entries created under the destination root during the pass: one for
/// each source entry whose path the destination did not hold, in source order.
pub open spec fn fresh_entries(src: Seq<EntryView>, dest: Seq<EntryView>, now: u64) -> Seq<
    EntryView,
>
    decreases src.len(),
{
    if src.len() == 0 {
        Seq::<EntryView>::empty()
    } else {
        let rest = fresh_entries(src.drop_first(), dest, now);
        if has_path(dest, src[0].path) {
            rest
        } else {
            seq![fresh_entry(src[0], now)] + rest
        }
    }
}

/// The destination tree after one reconciliation pass of `src` onto `dest`:
/// the surviving destination entries, updated where stale, followed by the
/// newly created ones. `now` is the timestamp that fresh copies carry.
pub open spec fn sync_result(
    src: Seq<EntryView>,
    dest: Seq<EntryView>,
    delete: bool,
    now: u64,
) -> Seq<EntryView> {
    updated_entries(dest, src, delete, now) + fresh_entries(src, dest, now)
}

/// What one reconciliation pass leaves at relative path `p`, stated directly
/// over the two input trees.
pub open spec fn final_lookup(
    src: Seq<EntryView>,
    dest: Seq<EntryView>,
    delete: bool,
    now: u64,
    p: Seq<u8>,
) -> Option<KindView> {
    match lookup(dest, p) {
        Some(dk) => if !delete || has_path(src, p) {
            Some(applied_kind(dk, src, p, now))
        } else {
            None
        },
        None => match lookup(src, p) {
            Some(k) => Some(fresh_kind(k, now)),
            None => None,
        },
    }
}

proof fn lemma_unique_drop_first(t: Seq<EntryView>)
    requires
        paths_unique(t),
        t.len() > 0,
    ensures
        paths_unique(t.drop_first()),
{
    assert forall|x: int, y: int|
        0 <= x < y < t.drop_first().len() implies t.drop_first()[x].path != t.drop_first()[y].path by {
        assert(t.drop_first()[x] == t[x + 1]);
        assert(t.drop_first()[y] == t[y + 1]);
    }
}

/// Looking up a path among the surviving, updated destination entries.
pub proof fn lemma_updated_lookup(
    dest: Seq<EntryView>,
    src: Seq<EntryView>,
    delete: bool,
    now: u64,
    p: Seq<u8>,
)
    requires
        paths_unique(dest),
    ensures
        lookup(updated_entries(dest, src, delete, now), p) == (match lookup(dest, p) {
            Some(dk) => if !delete || has_path(src, p) {
                Some(applied_kind(dk, src, p, now))
            } else {
                None
            },
            None => None,
        }),
    decreases dest.len(),
{
    if dest.len() == 0 {
    } else {
        lemma_unique_drop_first(dest);
        lemma_updated_lookup(dest.drop_first(), src, delete, now, p);
        let rest = updated_entries(dest.drop_first(), src, delete, now);
        if dest[0].path == p {
            if keep_entry(dest[0], src, delete) {
                let u = updated_entries(dest, src, delete, now);
                assert(u == seq![apply_entry(dest[0], src, now)] + rest);
                assert(u[0] == apply_entry(dest[0], src, now));
            } else {
                lemma_lookup_none_iff(dest.drop_first(), p);
                assert(forall|i: int|
                    0 <= i < dest.drop_first().len() ==> dest.drop_first()[i] == dest[i + 1]);
                assert(lookup(dest.drop_first(), p) is None);
            }
        } else {
            if keep_entry(dest[0], src, delete) {
                let u = seq![apply_entry(dest[0], src, now)] + rest;
                assert(u[0].path == dest[0].path);
                assert(u.drop_first() =~= rest);
            }
        }
    }
}

/// Looking up a path among the freshly created destination entries.
pub proof fn lemma_fresh_lookup(src: Seq<EntryView>, dest: Seq<EntryView>, now: u64, p: Seq<u8>)
    ensures
        lookup(fresh_entries(src, dest, now), p) == (if has_path(dest, p) {
            None::<KindView>
        } else {
            match lookup(src, p) {
                Some(k) => Some(fresh_kind(k, now)),
                None => None,
            }
        }),
    decreases src.len(),
{
    if src.len() == 0 {
    } else {
        lemma_fresh_lookup(src.drop_first(), dest, now, p);
        let rest = fresh_entries(src.drop_first(), dest, now);
        if !has_path(dest, src[0].path) {
            let f = seq![fresh_entry(src[0], now)] + rest;
            assert(f[0] == fresh_entry(src[0], now));
            assert(f.drop_first() =~= rest);
        }
    }
}

/// The master statement of one reconciliation pass: what the resulting tree
/// holds at any relative path `p`, as a function of the two input trees.
pub proof fn lemma_sync_lookup(
    src: Seq<EntryView>,
    dest: Seq<EntryView>,
    delete: bool,
    now: u64,
    p: Seq<u8>,
)
    requires
        paths_unique(dest),
    ensures
        lookup(sync_result(src, dest, delete, now), p) == final_lookup(src, dest, delete, now, p),
{
    let u = updated_entries(dest, src, delete, now);
    let f = fresh_entries(src, dest, now);
    lemma_lookup_append(u, f, p);
    lemma_updated_lookup(dest, src, delete, now, p);
    lemma_fresh_lookup(src, dest, now, p);
}

proof fn lemma_updated_unique(dest: Seq<EntryView>, src: Seq<EntryView>, delete: bool, now: u64)
    requires
        paths_unique(dest),
    ensures
        paths_unique(updated_entries(dest, src, delete, now)),
    decreases dest.len(),
{
    if dest.len() == 0 {
    } else {
        lemma_unique_drop_first(dest);
        lemma_updated_unique(dest.drop_first(), src, delete, now);
        let rest = updated_entries(dest.drop_first(), src, delete, now);
        if keep_entry(dest[0], src, delete) {
            let u = seq![apply_entry(dest[0], src, now)] + rest;
            assert forall|i: int, j: int| 0 <= i < j < u.len() implies u[i].path != u[j].path by {
                if i == 0 {
                    assert(u[j] == rest[j - 1]);
                    let q = rest[j - 1].path;
                    lemma_lookup_none_iff(rest, q);
                    assert(has_path(rest, q));
                    lemma_updated_lookup(dest.drop_first(), src, delete, now, q);
                    assert(has_path(dest.drop_first(), q));
                    lemma_lookup_none_iff(dest.drop_first(), q);
                    let k = choose|k: int|
                        0 <= k < dest.drop_first().len() && dest.drop_first()[k].path == q;
                    assert(dest[k + 1].path == q);
                    assert(dest[0].path != dest[k + 1].path);
                } else {
                    assert(u[i] == rest[i - 1]);
                    assert(u[j] == rest[j - 1]);
                }
            }
        }
    }
}

proof fn lemma_fresh_unique(src: Seq<EntryView>, dest: Seq<EntryView>, now: u64)
    requires
        paths_unique(src),
    ensures
        paths_unique(fresh_entries(src, dest, now)),
    decreases src.len(),
{
    if src.len() == 0 {
    } else {
        lemma_unique_drop_first(src);
        lemma_fresh_unique(src.drop_first(), dest, now);
        let rest = fresh_entries(src.drop_first(), dest, now);
        if !has_path(dest, src[0].path) {
            let f = seq![fresh_entry(src[0], now)] + rest;
            assert forall|i: int, j: int| 0 <= i < j < f.len() implies f[i].path != f[j].path by {
                if i == 0 {
                    assert(f[j] == rest[j - 1]);
                    let q = rest[j - 1].path;
                    lemma_lookup_none_iff(rest, q);
                    assert(has_path(rest, q));
                    lemma_fresh_lookup(src.drop_first(), dest, now, q);
                    assert(has_path(src.drop_first(), q));
                    lemma_lookup_none_iff(src.drop_first(), q);
                    let k = choose|k: int|
                        0 <= k < src.drop_first().len() && src.drop_first()[k].path == q;
                    assert(src[k + 1].path == q);
                    assert(src[0].path != src[k + 1].path);
                } else {
                    assert(f[i] == rest[i - 1]);
                    assert(f[j] == rest[j - 1]);
                }
            }
        }
    }
}

/// A pass keeps the destination snapshot well formed: no two entries of the
/// resulting tree carry the same relative path, so cycles can be chained.
pub proof fn lemma_sync_result_wf(src: Seq<EntryView>, dest: Seq<EntryView>, delete: bool, now: u64)
    requires
        paths_unique(src),
        paths_unique(dest),
    ensures
        paths_unique(sync_result(src, dest, delete, now)),
{
    lemma_updated_unique(dest, src, delete, now);
    lemma_fresh_unique(src, dest, now);
    let u = updated_entries(dest, src, delete, now);
    let f = fresh_entries(src, dest, now);
    assert forall|i: int, j: int|
        0 <= i < j < (u + f).len() implies (u + f)[i].path != (u + f)[j].path by {
        if j < u.len() {
            assert((u + f)[i] == u[i]);
            assert((u + f)[j] == u[j]);
        } else if i >= u.len() {
            assert((u + f)[i] == f[i - u.len()]);
            assert((u + f)[j] == f[j - u.len()]);
        } else {
            assert((u + f)[i] == u[i]);
            assert((u + f)[j] == f[j - u.len()]);
            let qu = u[i].path;
            let qf = f[j - u.len()].path;
            lemma_lookup_none_iff(u, qu);
            assert(has_path(u, qu));
            lemma_updated_lookup(dest, src, delete, now, qu);
            assert(has_path(dest, qu));
            lemma_lookup_none_iff(f, qf);
            assert(has_path(f, qf));
            lemma_fresh_lookup(src, dest, now, qf);
            assert(!has_path(dest, qf));
        }
    }
}

proof fn lemma_copy_actions_snoc(src: Seq<EntryView>, dest: Seq<EntryView>)
    requires
        src.len() > 0,
    ensures
        copy_actions(src, dest) == copy_actions(src.drop_last(), dest) + entry_actions(
            src.last(),
            dest,
        ),
    decreases src.len(),
{
    if src.len() == 1 {
        assert(src.drop_first() =~= Seq::<EntryView>::empty());
        assert(src.drop_last() =~= Seq::<EntryView>::empty());
        assert(copy_actions(src, dest) =~= copy_actions(src.drop_last(), dest) + entry_actions(
            src.last(),
            dest,
        ));
    } else {
        lemma_copy_actions_snoc(src.drop_first(), dest);
        assert(src.drop_first().drop_last() =~= src.drop_last().drop_first());
        assert(src.drop_first().last() == src.last());
        assert(src.drop_last()[0] == src[0]);
        assert(copy_actions(src, dest) =~= copy_actions(src.drop_last(), dest) + entry_actions(
            src.last(),
            dest,
        ));
    }
}

proof fn lemma_delete_actions_head(dest: Seq<EntryView>, src: Seq<EntryView>)
    requires
        dest.len() > 0,
    ensures
        delete_actions(dest, src) == delete_actions(dest.drop_first(), src) + removal_part(
            dest[0],
            src,
        ),
    decreases dest.len(),
{
    if dest.len() == 1 {
        assert(dest.drop_first() =~= Seq::<EntryView>::empty());
        assert(dest.drop_last() =~= Seq::<EntryView>::empty());
        assert(dest.last() == dest[0]);
        assert(delete_actions(dest, src) =~= delete_actions(dest.drop_first(), src)
            + removal_part(dest[0], src));
    } else {
        lemma_delete_actions_head(dest.drop_last(), src);
        assert(dest.drop_last().drop_first() =~= dest.drop_first().drop_last());
        assert(dest.drop_last()[0] == dest[0]);
        assert(dest.drop_first().last() == dest.last());
        assert(delete_actions(dest, src) =~= delete_actions(dest.drop_first(), src)
            + removal_part(dest[0], src));
    }
}

proof fn lemma_updated_snoc(dest: Seq<EntryView>, src: Seq<EntryView>, delete: bool, now: u64)
    requires
        dest.len() > 0,
    ensures
        updated_entries(dest, src, delete, now) == updated_entries(
            dest.drop_last(),
            src,
            delete,
            now,
        ) + (if keep_entry(dest.last(), src, delete) {
            seq![apply_entry(dest.last(), src, now)]
        } else {
            Seq::<EntryView>::empty()
        }),
    decreases dest.len(),
{
    if dest.len() == 1 {
        assert(dest.drop_first() =~= Seq::<EntryView>::empty());
        assert(dest.drop_last() =~= Seq::<EntryView>::empty());
        assert(updated_entries(dest, src, delete, now) =~= updated_entries(
            dest.drop_last(),
            src,
            delete,
            now,
        ) + (if keep_entry(dest.last(), src, delete) {
            seq![apply_entry(dest.last(), src, now)]
        } else {
            Seq::<EntryView>::empty()
        }));
    } else {
        lemma_updated_snoc(dest.drop_first(), src, delete, now);
        assert(dest.drop_first().drop_last() =~= dest.drop_last().drop_first());
        assert(dest.drop_first().last() == dest.last());
        assert(dest.drop_last()[0] == dest[0]);
        assert(updated_entries(dest, src, delete, now) =~= updated_entries(
            dest.drop_last(),
            src,
            delete,
            now,
        ) + (if keep_entry(dest.last(), src, delete) {
            seq![apply_entry(dest.last(), src, now)]
        } else {
            Seq::<EntryView>::empty()
        }));
    }
}

proof fn lemma_fresh_snoc(src: Seq<EntryView>, dest: Seq<EntryView>, now: u64)
    requires
        src.len() > 0,
    ensures
        fresh_entries(src, dest, now) == fresh_entries(src.drop_last(), dest, now) + (if has_path(
            dest,
            src.last().path,
        ) {
            Seq::<EntryView>::empty()
        } else {
            seq![fresh_entry(src.last(), now)]
        }),
    decreases src.len(),
{
    if src.len() == 1 {
        assert(src.drop_first() =~= Seq::<EntryView>::empty());
        assert(src.drop_last() =~= Seq::<EntryView>::empty());
        assert(fresh_entries(src, dest, now) =~= fresh_entries(src.drop_last(), dest, now) + (
        if has_path(dest, src.last().path) {
            Seq::<EntryView>::empty()
        } else {
            seq![fresh_entry(src.last(), now)]
        }));
    } else {
        lemma_fresh_snoc(src.drop_first(), dest, now);
        assert(src.drop_first().drop_last() =~= src.drop_last().drop_first());
        assert(src.drop_first().last() == src.last());
        assert(src.drop_last()[0] == src[0]);
        assert(fresh_entries(src, dest, now) =~= fresh_entries(src.drop_last(), dest, now) + (
        if has_path(dest, src.last().path) {
            Seq::<EntryView>::empty()
        } else {
            seq![fresh_entry(src.last(), now)]
        }));
    }
}

/// Computes the plan of one reconciliation pass of `src` onto `dest`: which
/// directories to create, which files to copy or skip, and — when `delete`
/// is set — which extraneous destination entries to remove, children before
/// their directories.
pub fn plan_one_way(src: &Tree, dest: &Tree, delete: bool) -> (r: Vec<Action>)
    ensures
        acts_view(r@) == plan_spec(src@, dest@, delete),
{
    let mut acts: Vec<Action> = Vec::new();
    let n = src.entries.len();
    proof {
        assert(n == src@.len());
        assert(src@.subrange(0, 0) =~= Seq::<EntryView>::empty());
        assert(acts_view(acts@) =~= copy_actions(src@.subrange(0, 0), dest@));
    }
    let mut i: usize = 0;
    while i < n
        invariant
            i <= n,
            n == src@.len(),
            n == src.entries.len(),
            acts_view(acts@) == copy_actions(src@.subrange(0, i as int), dest@),
        decreases n - i,
    {
        let ghost prefix = src@.subrange(0, i as int);
        let ghost ev = src@[i as int];
        proof {
            assert(ev == src.entries@[i as int]@);
        }
        let e = &src.entries[i];
        match &e.kind {
            Kind::Dir => {
                let dest_is_dir = match find_entry(dest, &e.path) {
                    Some(de) => match &de.kind {
                        Kind::Dir => true,
                        Kind::File { .. } => false,
                    },
                    None => false,
                };
                if dest_is_dir {
                    proof {
                        assert(entry_actions(ev, dest@) =~= Seq::<ActionView>::empty());
                    }
                } else {
                    let ghost old_acts = acts@;
                    acts.push(Action::CreateDir(clone_bytes(&e.path)));
                    proof {
                        assert(acts_view(acts@) =~= acts_view(old_acts).push(
                            ActionView::CreateDir(ev.path),
                        ));
                        assert(entry_actions(ev, dest@) =~= seq![ActionView::CreateDir(ev.path)]);
                    }
                }
            },
            Kind::File { mtime, digest } => {
                let dk: Option<&Kind> = match find_entry(dest, &e.path) {
                    Some(de) => Some(&de.kind),
                    None => None,
                };
                let sd: Option<&Vec<u8>> = match digest {
                    Some(d) => Some(d),
                    None => None,
                };
                let ghost old_acts = acts@;
                if is_file_updated(*mtime, sd, dk) {
                    acts.push(Action::CopyFile(clone_bytes(&e.path)));
                    proof {
                        assert(acts_view(acts@) =~= acts_view(old_acts).push(ActionView::CopyFile(
                            ev.path,
                        )));
                        assert(entry_actions(ev, dest@) =~= seq![ActionView::CopyFile(ev.path)]);
                    }
                } else {
                    acts.push(Action::SkipFile(clone_bytes(&e.path)));
                    proof {
                        assert(acts_view(acts@) =~= acts_view(old_acts).push(ActionView::SkipFile(
                            ev.path,
                        )));
                        assert(entry_actions(ev, dest@) =~= seq![ActionView::SkipFile(ev.path)]);
                    }
                }
            },
        }
        proof {
            let longer = src@.subrange(0, i as int + 1);
            lemma_copy_actions_snoc(longer, dest@);
            assert(longer.drop_last() =~= prefix);
            assert(longer.last() == ev);
            assert(acts_view(acts@) =~= copy_actions(prefix, dest@) + entry_actions(ev, dest@));
        }
        i += 1;
    }
    proof {
        assert(src@.subrange(0, n as int) =~= src@);
    }
    let ghost copy_part = copy_actions(src@, dest@);
    if delete {
        let m = dest.entries.len();
        proof {
            assert(m == dest@.len());
            assert(dest@.subrange(m as int, m as int) =~= Seq::<EntryView>::empty());
            assert(acts_view(acts@) =~= copy_part + delete_actions(
                dest@.subrange(m as int, m as int),
                src@,
            ));
        }
        let mut j: usize = m;
        while j > 0
            invariant
                j <= m,
                m == dest@.len(),
                m == dest.entries.len(),
                copy_part == copy_actions(src@, dest@),
                acts_view(acts@) == copy_part + delete_actions(
                    dest@.subrange(j as int, m as int),
                    src@,
                ),
            decreases j,
        {
            j -= 1;
            let ghost ev = dest@[j as int];
            proof {
                assert(ev == dest.entries@[j as int]@);
            }
            let e = &dest.entries[j];
            let ghost old_acts = acts@;
            match find_entry(src, &e.path) {
                Some(_) => {
                    proof {
                        assert(removal_part(ev, src@) =~= Seq::<ActionView>::empty());
                    }
                },
                None => {
                    match &e.kind {
                        Kind::Dir => {
                            acts.push(Action::RemoveDir(clone_bytes(&e.path)));
                            proof {
                                assert(acts_view(acts@) =~= acts_view(old_acts).push(
                                    ActionView::RemoveDir(ev.path),
                                ));
                                assert(removal_part(ev, src@) =~= seq![ActionView::RemoveDir(ev.path)]);
                            }
                        },
                        Kind::File { .. } => {
                            acts.push(Action::RemoveFile(clone_bytes(&e.path)));
                            proof {
                                assert(acts_view(acts@) =~= acts_view(old_acts).push(
                                    ActionView::RemoveFile(ev.path),
                                ));
                                assert(removal_part(ev, src@) =~= seq![ActionView::RemoveFile(ev.path)]);
                            }
                        },
                    }
                },
            }
            proof {
                let suffix = dest@.subrange(j as int, m as int);
                lemma_delete_actions_head(suffix, src@);
                assert(suffix[0] == ev);
                assert(suffix.drop_first() =~= dest@.subrange(j as int + 1, m as int));
                assert(acts_view(acts@) =~= copy_part + (delete_actions(
                    dest@.subrange(j as int + 1, m as int),
                    src@,
                ) + removal_part(ev, src@)));
                assert(copy_part + (delete_actions(dest@.subrange(j as int + 1, m as int), src@)
                    + removal_part(ev, src@)) =~= copy_part + delete_actions(
                    dest@.subrange(j as int, m as int),
                    src@,
                ));
            }
        }
        proof {
            assert(dest@.subrange(0, m as int) =~= dest@);
            assert(acts_view(acts@) =~= plan_spec(src@, dest@, delete));
        }
    } else {
        proof {
            assert(acts_view(acts@) =~= plan_spec(src@, dest@, delete));
        }
    }
    acts
}

/// Copies an optional digest.
fn clone_digest(d: &Option<Vec<u8>>) -> (r: Option<Vec<u8>>)
    ensures
        digest_view(r) == digest_view(*d),
{
    match d {
        Some(v) => Some(clone_bytes(v)),
        None => None,
    }
}

/// Copies an entry of a snapshot.
fn clone_entry(e: &Entry) -> (r: Entry)
    ensures
        r@ == e@,
{
    let path = clone_bytes(&e.path);
    match &e.kind {
        Kind::Dir => Entry { path, kind: Kind::Dir },
        Kind::File { mtime, digest } => Entry {
            path,
            kind: Kind::File { mtime: *mtime, digest: clone_digest(digest) },
        },
    }
}

/// One reconciliation pass of `src` onto `dest`, carried out on snapshots:
/// returns the destination tree as it stands after the pass, with `now` as
/// the timestamp of every newly written file.
pub fn sync_oneway(src: &Tree, dest: &Tree, delete: bool, now: u64) -> (r: Tree)
    ensures
        r@ == sync_result(src@, dest@, delete, now),
{
    let mut out = Tree::new();
    let m = dest.entries.len();
    proof {
        assert(m == dest@.len());
        assert(dest@.subrange(0, 0) =~= Seq::<EntryView>::empty());
        assert(out@ =~= updated_entries(dest@.subrange(0, 0), src@, delete, now));
    }
    let mut i: usize = 0;
    while i < m
        invariant
            i <= m,
            m == dest@.len(),
            m == dest.entries.len(),
            out@ == updated_entries(dest@.subrange(0, i as int), src@, delete, now),
        decreases m - i,
    {
        let ghost prefix = dest@.subrange(0, i as int);
        let ghost ev = dest@[i as int];
        proof {
            assert(ev == dest.entries@[i as int]@);
        }
        let e = &dest.entries[i];
        let ghost old_out = out@;
        let se = find_entry(src, &e.path);
        if !delete || se.is_some() {
            let new_entry: Entry = match se {
                Some(sentry) => match &sentry.kind {
                    Kind::File { mtime, digest } => {
                        let sd: Option<&Vec<u8>> = match digest {
                            Some(d) => Some(d),
                            None => None,
                        };
                        if is_file_updated(*mtime, sd, Some(&e.kind)) {
                            Entry {
                                path: clone_bytes(&e.path),
                                kind: Kind::File { mtime: now, digest: clone_digest(digest) },
                            }
                        } else {
                            clone_entry(e)
                        }
                    },
                    Kind::Dir => Entry { path: clone_bytes(&e.path), kind: Kind::Dir },
                },
                None => clone_entry(e),
            };
            proof {
                assert(keep_entry(ev, src@, delete));
            }
            let ghost nv = new_entry@;
            proof {
                assert(nv == apply_entry(ev, src@, now));
            }
            out.push(new_entry);
            proof {
                assert(out@ =~= old_out.push(apply_entry(ev, src@, now)));
            }
        } else {
            proof {
                assert(!keep_entry(ev, src@, delete));
            }
        }
        proof {
            let longer = dest@.subrange(0, i as int + 1);
            lemma_updated_snoc(longer, src@, delete, now);
            assert(longer.drop_last() =~= prefix);
            assert(longer.last() == ev);
            if keep_entry(ev, src@, delete) {
                assert(out@ =~= updated_entries(prefix, src@, delete, now) + seq![apply_entry(ev, src@, now)]);
            } else {
                assert(updated_entries(longer, src@, delete, now) =~= updated_entries(
                    prefix,
                    src@,
                    delete,
                    now,
                ));
            }
            assert(out@ =~= updated_entries(longer, src@, delete, now));
        }
        i += 1;
    }
    proof {
        assert(dest@.subrange(0, m as int) =~= dest@);
    }
    let ghost updated_part = updated_entries(dest@, src@, delete, now);
    let n = src.entries.len();
    proof {
        assert(n == src@.len());
        assert(src@.subrange(0, 0) =~= Seq::<EntryView>::empty());
        assert(out@ =~= updated_part + fresh_entries(src@.subrange(0, 0), dest@, now));
    }
    let mut k: usize = 0;
    while k < n
        invariant
            k <= n,
            n == src@.len(),
            n == src.entries.len(),
            updated_part == updated_entries(dest@, src@, delete, now),
            out@ == updated_part + fresh_entries(src@.subrange(0, k as int), dest@, now),
        decreases n - k,
    {
        let ghost prefix = src@.subrange(0, k as int);
        let ghost ev = src@[k as int];
        proof {
            assert(ev == src.entries@[k as int]@);
        }
        let e = &src.entries[k];
        let ghost old_out = out@;
        if find_entry(dest, &e.path).is_none() {
            let new_entry: Entry = match &e.kind {
                Kind::Dir => clone_entry(e),
                Kind::File { mtime: _, digest } => Entry {
                    path: clone_bytes(&e.path),
                    kind: Kind::File { mtime: now, digest: clone_digest(digest) },
                },
            };
            proof {
                assert(new_entry@ == fresh_entry(ev, now));
            }
            out.push(new_entry);
            proof {
                assert(out@ =~= old_out.push(fresh_entry(ev, now)));
            }
        }
        proof {
            let longer = src@.subrange(0, k as int + 1);
            lemma_fresh_snoc(longer, dest@, now);
            assert(longer.drop_last() =~= prefix);
            assert(longer.last() == ev);
            if has_path(dest@, ev.path) {
                assert(fresh_entries(longer, dest@, now) =~= fresh_entries(prefix, dest@, now));
            } else {
                assert(out@ =~= (updated_part + fresh_entries(prefix, dest@, now)) + seq![fresh_entry(ev, now)]);
            }
            assert(out@ =~= updated_part + fresh_entries(longer, dest@, now));
        }
        k += 1;
    }
    proof {
        assert(src@.subrange(0, n as int) =~= src@);
        assert(out@ =~= sync_result(src@, dest@, delete, now));
    }
    out
}

} // verus!
