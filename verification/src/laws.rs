use vstd::prelude::*;

use crate::detector::needs_update;
use crate::reconcile::apply_entry;
use crate::reconcile::copy_actions;
use crate::reconcile::delete_actions;
use crate::reconcile::entry_actions;
use crate::reconcile::fresh_entries;
use crate::reconcile::keep_entry;
use crate::reconcile::lemma_sync_lookup;
use crate::reconcile::lemma_sync_result_wf;
use crate::reconcile::plan_spec;
use crate::reconcile::removal_part;
use crate::reconcile::sync_result;
use crate::reconcile::updated_entries;
use crate::reconcile::ActionView;
use crate::tree::has_path;
use crate::tree::lemma_lookup_at_index;
use crate::tree::lemma_lookup_finds_entry;
use crate::tree::lemma_lookup_none_iff;
use crate::tree::lookup;
use crate::tree::paths_unique;
use crate::tree::EntryView;
use crate::tree::KindView;

verus! {

/// Every file entry of `t` carries a timestamp no later than `now`: the tree
/// was not modified after the moment the pass ran.
pub open spec fn mtime_at_most(e: EntryView, now: u64) -> bool {
    match e.kind {
        KindView::Dir => true,
        KindView::File { mtime, .. } => mtime <= now,
    }
}

/// See `mtime_at_most`, over a whole tree.
pub open spec fn mtimes_at_most(t: Seq<EntryView>, now: u64) -> bool {
    forall|i: int| 0 <= i < t.len() ==> mtime_at_most(#[trigger] t[i], now)
}

/// A plan that performs no work: every action merely notes an unchanged file.
pub open spec fn all_skips(s: Seq<ActionView>) -> bool {
    forall|i: int| 0 <= i < s.len() ==> (#[trigger] s[i]) is SkipFile
}

/// Whether one entry's content digest is available.
pub open spec fn digest_present(e: EntryView) -> bool {
    match e.kind {
        KindView::Dir => true,
        KindView::File { digest, .. } => digest is Some,
    }
}

/// Every file of `t` has a content digest: the whole tree was readable. A
/// file without one is treated as changed on every pass, so it re-copies
/// each cycle and idempotence cannot be promised of it.
pub open spec fn digests_present(t: Seq<EntryView>) -> bool {
    forall|i: int| 0 <= i < t.len() ==> digest_present(#[trigger] t[i])
}

proof fn lemma_all_skips_append(a: Seq<ActionView>, b: Seq<ActionView>)
    requires
        all_skips(a),
        all_skips(b),
    ensures
        all_skips(a + b),
{
    assert forall|i: int| 0 <= i < (a + b).len() implies ((a + b)[i]) is SkipFile by {
        if i < a.len() {
            assert((a + b)[i] == a[i]);
        } else {
            assert((a + b)[i] == b[i - a.len()]);
        }
    }
}

proof fn lemma_copy_all_skips(src: Seq<EntryView>, dest: Seq<EntryView>)
    requires
        forall|i: int| 0 <= i < src.len() ==> all_skips(entry_actions(#[trigger] src[i], dest)),
    ensures
        all_skips(copy_actions(src, dest)),
    decreases src.len(),
{
    if src.len() == 0 {
    } else {
        assert forall|i: int|
            0 <= i < src.drop_first().len() implies all_skips(
            entry_actions(#[trigger] src.drop_first()[i], dest),
        ) by {
            assert(src.drop_first()[i] == src[i + 1]);
            assert(all_skips(entry_actions(src[i + 1], dest)));
        }
        lemma_copy_all_skips(src.drop_first(), dest);
        assert(all_skips(entry_actions(src[0], dest)));
        lemma_all_skips_append(entry_actions(src[0], dest), copy_actions(src.drop_first(), dest));
    }
}

proof fn lemma_delete_actions_empty(dest: Seq<EntryView>, src: Seq<EntryView>)
    requires
        forall|i: int| 0 <= i < dest.len() ==> has_path(src, (#[trigger] dest[i]).path),
    ensures
        delete_actions(dest, src) == Seq::<ActionView>::empty(),
    decreases dest.len(),
{
    if dest.len() == 0 {
    } else {
        assert(has_path(src, dest[dest.len() - 1].path));
        assert(removal_part(dest.last(), src) =~= Seq::<ActionView>::empty());
        assert forall|i: int|
            0 <= i < dest.drop_last().len() implies has_path(
            src,
            (#[trigger] dest.drop_last()[i]).path,
        ) by {
            assert(dest.drop_last()[i] == dest[i]);
        }
        lemma_delete_actions_empty(dest.drop_last(), src);
        assert(delete_actions(dest, src) =~= Seq::<ActionView>::empty());
    }
}

/// Mirror completeness: whatever relative path holds a file under the source
/// root holds, after one reconciliation pass, a file with the same content
/// digest under the destination root — in every mode.
pub proof fn lemma_mirror_completeness(
    src: Seq<EntryView>,
    dest: Seq<EntryView>,
    delete: bool,
    now: u64,
    p: Seq<u8>,
    m: u64,
    d: Option<Seq<u8>>,
)
    requires
        paths_unique(dest),
        lookup(src, p) == Some(KindView::File { mtime: m, digest: d }),
    ensures
        match lookup(sync_result(src, dest, delete, now), p) {
            Some(KindView::File { mtime: _, digest: rd }) => rd == d,
            _ => false,
        },
{
    lemma_sync_lookup(src, dest, delete, now, p);
}

/// Every path present under the source root — file or directory — is still
/// present under the destination root after a pass: a pass never removes
/// anything the source holds.
pub proof fn lemma_source_paths_survive(
    src: Seq<EntryView>,
    dest: Seq<EntryView>,
    delete: bool,
    now: u64,
    p: Seq<u8>,
)
    requires
        paths_unique(dest),
        has_path(src, p),
    ensures
        has_path(sync_result(src, dest, delete, now), p),
{
    lemma_sync_lookup(src, dest, delete, now, p);
}

/// Idempotence: a pass applied to its own result plans no further work.
/// Running the same pass again — same source tree, same deletion policy —
/// yields a plan whose every action skips an unchanged file; nothing is
/// created, copied or removed. (`now`, the timestamp the first pass stamped
/// onto its copies, must not precede the source files' own timestamps: the
/// source saw no intervening change.)
pub proof fn lemma_idempotence(src: Seq<EntryView>, dest: Seq<EntryView>, delete: bool, now: u64)
    requires
        paths_unique(src),
        paths_unique(dest),
        mtimes_at_most(src, now),
        digests_present(src),
    ensures
        all_skips(plan_spec(src, sync_result(src, dest, delete, now), delete)),
{
    let dest2 = sync_result(src, dest, delete, now);
    assert forall|i: int|
        0 <= i < src.len() implies all_skips(entry_actions(#[trigger] src[i], dest2)) by {
        let p = src[i].path;
        lemma_lookup_at_index(src, i);
        lemma_sync_lookup(src, dest, delete, now, p);
        assert(mtime_at_most(src[i], now));
        assert(digest_present(src[i]));
        match src[i].kind {
            KindView::Dir => {
                assert(lookup(dest2, p) == Some(KindView::Dir));
                assert(entry_actions(src[i], dest2) =~= Seq::<ActionView>::empty());
            },
            KindView::File { mtime: sm, digest: sd } => {
                assert(sd is Some);
                match lookup(dest2, p) {
                    Some(KindView::File { mtime: m2, digest: d2 }) => {
                        assert(d2 == sd);
                        assert(m2 >= sm);
                        assert(!needs_update(sm, sd, lookup(dest2, p)));
                        assert(entry_actions(src[i], dest2) =~= seq![ActionView::SkipFile(p)]);
                        assert(all_skips(seq![ActionView::SkipFile(p)]));
                    },
                    _ => {
                        assert(false);
                    },
                }
            },
        }
    }
    lemma_copy_all_skips(src, dest2);
    if delete {
        assert forall|i: int|
            0 <= i < dest2.len() implies has_path(src, (#[trigger] dest2[i]).path) by {
            let p = dest2[i].path;
            lemma_lookup_none_iff(dest2, p);
            assert(lookup(dest2, p) is Some);
            lemma_sync_lookup(src, dest, delete, now, p);
        }
        lemma_delete_actions_empty(dest2, src);
        lemma_all_skips_append(copy_actions(src, dest2), delete_actions(dest2, src));
    } else {
        lemma_all_skips_append(copy_actions(src, dest2), Seq::<ActionView>::empty());
    }
}

proof fn lemma_updated_identity(t: Seq<EntryView>, src: Seq<EntryView>, delete: bool, now: u64)
    requires
        forall|i: int|
            0 <= i < t.len() ==> keep_entry(#[trigger] t[i], src, delete) && apply_entry(
                t[i],
                src,
                now,
            ) == t[i],
    ensures
        updated_entries(t, src, delete, now) == t,
    decreases t.len(),
{
    if t.len() == 0 {
        assert(updated_entries(t, src, delete, now) =~= t);
    } else {
        assert forall|i: int|
            0 <= i < t.drop_first().len() implies keep_entry(
            #[trigger] t.drop_first()[i],
            src,
            delete,
        ) && apply_entry(t.drop_first()[i], src, now) == t.drop_first()[i] by {
            assert(t.drop_first()[i] == t[i + 1]);
        }
        lemma_updated_identity(t.drop_first(), src, delete, now);
        assert(apply_entry(t[0], src, now) == t[0]);
        assert(updated_entries(t, src, delete, now) =~= t);
    }
}

proof fn lemma_fresh_entries_empty(s: Seq<EntryView>, dest: Seq<EntryView>, now: u64)
    requires
        forall|i: int| 0 <= i < s.len() ==> has_path(dest, (#[trigger] s[i]).path),
    ensures
        fresh_entries(s, dest, now) == Seq::<EntryView>::empty(),
    decreases s.len(),
{
    if s.len() == 0 {
    } else {
        assert forall|i: int|
            0 <= i < s.drop_first().len() implies has_path(
            dest,
            (#[trigger] s.drop_first()[i]).path,
        ) by {
            assert(s.drop_first()[i] == s[i + 1]);
        }
        lemma_fresh_entries_empty(s.drop_first(), dest, now);
        assert(has_path(dest, s[0].path));
    }
}

/// The sharper face of idempotence: the tree a pass produces is a fixed
/// point. Applying the same pass to it again — whatever timestamp that later
/// run would stamp — reproduces it exactly, entry for entry.
pub proof fn lemma_sync_fixed_point(
    src: Seq<EntryView>,
    dest: Seq<EntryView>,
    delete: bool,
    now: u64,
    now_later: u64,
)
    requires
        paths_unique(src),
        paths_unique(dest),
        mtimes_at_most(src, now),
        digests_present(src),
    ensures
        sync_result(src, sync_result(src, dest, delete, now), delete, now_later) == sync_result(
            src,
            dest,
            delete,
            now,
        ),
{
    let dest2 = sync_result(src, dest, delete, now);
    lemma_sync_result_wf(src, dest, delete, now);
    assert forall|i: int|
        0 <= i < dest2.len() implies keep_entry(#[trigger] dest2[i], src, delete) && apply_entry(
        dest2[i],
        src,
        now_later,
    ) == dest2[i] by {
        let p = dest2[i].path;
        lemma_lookup_at_index(dest2, i);
        lemma_sync_lookup(src, dest, delete, now, p);
        match lookup(src, p) {
            Some(KindView::File { mtime: sm, digest: sd }) => {
                let sk = KindView::File { mtime: sm, digest: sd };
                lemma_lookup_finds_entry(src, p, sk);
                let j = choose|j: int|
                    0 <= j < src.len() && src[j] == (EntryView { path: p, kind: sk });
                assert(mtime_at_most(src[j], now));
                assert(digest_present(src[j]));
                assert(sm <= now);
                assert(sd is Some);
                match dest2[i].kind {
                    KindView::File { mtime: m2, digest: d2 } => {
                        assert(d2 == sd);
                        assert(m2 >= sm);
                        assert(!needs_update(sm, sd, Some(dest2[i].kind)));
                    },
                    KindView::Dir => {
                        assert(false);
                    },
                }
            },
            Some(KindView::Dir) => {
                assert(dest2[i].kind == KindView::Dir);
            },
            None => {},
        }
    }
    assert forall|k: int| 0 <= k < src.len() implies has_path(dest2, (#[trigger] src[k]).path) by {
        lemma_lookup_at_index(src, k);
        lemma_sync_lookup(src, dest, delete, now, src[k].path);
    }
    lemma_updated_identity(dest2, src, delete, now_later);
    lemma_fresh_entries_empty(src, dest2, now_later);
    assert(sync_result(src, dest2, delete, now_later) =~= dest2);
}

proof fn lemma_copy_contains(
    src: Seq<EntryView>,
    dest: Seq<EntryView>,
    p: Seq<u8>,
    m: u64,
    d: Option<Seq<u8>>,
)
    requires
        lookup(src, p) == Some(KindView::File { mtime: m, digest: d }),
        needs_update(m, d, lookup(dest, p)),
    ensures
        copy_actions(src, dest).contains(ActionView::CopyFile(p)),
    decreases src.len(),
{
    if src.len() == 0 {
        assert(false);
    } else if src[0].path == p {
        assert(entry_actions(src[0], dest) =~= seq![ActionView::CopyFile(p)]);
        assert(copy_actions(src, dest)[0] == ActionView::CopyFile(p));
    } else {
        lemma_copy_contains(src.drop_first(), dest, p, m, d);
        let rest = copy_actions(src.drop_first(), dest);
        let j = choose|j: int| 0 <= j < rest.len() && rest[j] == ActionView::CopyFile(p);
        let ea = entry_actions(src[0], dest);
        assert(copy_actions(src, dest)[ea.len() + j] == rest[j]);
    }
}

/// Content change over equal or reversed timestamps is still detected: a
/// source file whose digest differs from the destination's is planned for
/// copying, and the pass re-copies it, even when its timestamp is no newer
/// than the destination's.
pub proof fn lemma_content_change_detected(
    src: Seq<EntryView>,
    dest: Seq<EntryView>,
    delete: bool,
    now: u64,
    p: Seq<u8>,
    m: u64,
    d: Seq<u8>,
    dm: u64,
    dd: Seq<u8>,
)
    requires
        paths_unique(dest),
        lookup(src, p) == Some(KindView::File { mtime: m, digest: Some(d) }),
        lookup(dest, p) == Some(KindView::File { mtime: dm, digest: Some(dd) }),
        m <= dm,
        d != dd,
    ensures
        plan_spec(src, dest, delete).contains(ActionView::CopyFile(p)),
        lookup(sync_result(src, dest, delete, now), p) == Some(
            KindView::File { mtime: now, digest: Some(d) },
        ),
{
    lemma_sync_lookup(src, dest, delete, now, p);
    lemma_copy_contains(src, dest, p, m, Some(d));
    let ca = copy_actions(src, dest);
    let j = choose|j: int| 0 <= j < ca.len() && ca[j] == ActionView::CopyFile(p);
    assert(plan_spec(src, dest, delete)[j] == ca[j]);
}

/// Fail open toward re-copying: a source file whose content digest could not
/// be computed is planned for copying on every pass — whatever the
/// destination holds at its path and whatever the timestamps say — rather
/// than aborting the pass.
pub proof fn lemma_unreadable_file_recopied(
    src: Seq<EntryView>,
    dest: Seq<EntryView>,
    delete: bool,
    p: Seq<u8>,
    m: u64,
)
    requires
        lookup(src, p) == Some(KindView::File { mtime: m, digest: None }),
    ensures
        plan_spec(src, dest, delete).contains(ActionView::CopyFile(p)),
{
    lemma_copy_contains(src, dest, p, m, None);
    let ca = copy_actions(src, dest);
    let j = choose|j: int| 0 <= j < ca.len() && ca[j] == ActionView::CopyFile(p);
    assert(plan_spec(src, dest, delete)[j] == ca[j]);
}

/// Deletion reconciliation: a destination path that the source does not hold
/// is removed by a pass with deletion enabled, and left exactly as it was by
/// a pass with deletion disabled.
pub proof fn lemma_deletion_reconciliation(
    src: Seq<EntryView>,
    dest: Seq<EntryView>,
    now: u64,
    p: Seq<u8>,
)
    requires
        paths_unique(dest),
        has_path(dest, p),
        !has_path(src, p),
    ensures
        lookup(sync_result(src, dest, true, now), p) is None,
        lookup(sync_result(src, dest, false, now), p) == lookup(dest, p),
{
    lemma_sync_lookup(src, dest, true, now, p);
    lemma_sync_lookup(src, dest, false, now, p);
}

/// Bidirectional pass order: the source-to-destination pass runs first, and
/// the reverse pass then carries the destination's state — which the first
/// pass already settled — back. A path holding a file under the source root
/// before the cycle therefore ends the cycle holding that same digest in
/// both trees.
///
/// Deliberate deviation, flagged for stakeholders: one might expect the
/// destination's content to win at a divergent path, the reverse pass being
/// the one applied last. That outcome is unattainable once staleness falls
/// back to comparing the two files' own digests: the first pass already
/// copies wherever the digests differ, so a cycle converges on the first
/// pass's source content. It was reachable only while the detector hashed
/// one file twice and so never saw the divergence; "last pass wins" remains
/// true only where the two digests already agree.
pub proof fn lemma_bidirectional_pass_order(
    src: Seq<EntryView>,
    dest: Seq<EntryView>,
    delete: bool,
    now_first: u64,
    now_second: u64,
    p: Seq<u8>,
    m: u64,
    d: Option<Seq<u8>>,
)
    requires
        paths_unique(src),
        paths_unique(dest),
        lookup(src, p) == Some(KindView::File { mtime: m, digest: d }),
    ensures
        ({
            let dest_after = sync_result(src, dest, delete, now_first);
            let src_after = sync_result(dest_after, src, delete, now_second);
            &&& match lookup(dest_after, p) {
                Some(KindView::File { mtime: _, digest: rd }) => rd == d,
                _ => false,
            }
            &&& match lookup(src_after, p) {
                Some(KindView::File { mtime: _, digest: rd }) => rd == d,
                _ => false,
            }
        }),
{
    lemma_mirror_completeness(src, dest, delete, now_first, p, m, d);
    let dest_after = sync_result(src, dest, delete, now_first);
    lemma_sync_lookup(dest_after, src, delete, now_second, p);
}

} // verus!
