use vstd::prelude::*;

use crate::tree::bytes_eq;
use crate::tree::Kind;
use crate::tree::KindView;

verus! {

/// The view of an optional borrowed kind.
pub open spec fn kind_opt_view(o: Option<&Kind>) -> Option<KindView> {
    match o {
        Some(k) => Some(k@),
        None => None,
    }
}

/// The view of an optional borrowed digest.
pub open spec fn digest_opt_view(o: Option<&Vec<u8>>) -> Option<Seq<u8>> {
    match o {
        Some(d) => Some(d@),
        None => None,
    }
}

/// Whether two content digests settle a file as changed. A digest that could
/// not be computed settles nothing, so the file counts as changed (fail open
/// toward re-copying).
pub open spec fn digests_differ(a: Option<Seq<u8>>, b: Option<Seq<u8>>) -> bool {
    match (a, b) {
        (Some(x), Some(y)) => x != y,
        _ => true,
    }
}

/// The staleness rule for one source file against what the destination holds
/// at the same relative path: copy when the destination has no file there,
/// when the source timestamp is strictly newer, or — timestamps inconclusive —
/// when the two content digests differ or either one is unavailable.
pub open spec fn needs_update(
    src_mtime: u64,
    src_digest: Option<Seq<u8>>,
    dest: Option<KindView>,
) -> bool {
    match dest {
        None => true,
        Some(KindView::Dir) => true,
        Some(KindView::File { mtime: dest_mtime, digest: dest_digest }) => src_mtime > dest_mtime
            || digests_differ(src_digest, dest_digest),
    }
}

/// Whether the timestamps alone leave the decision to the content digests:
/// only when the destination holds a file there whose timestamp is not older
/// than the source's. In every other case the file is copied without any
/// hashing, so a caller needs digests only where this returns true.
pub open spec fn timestamps_inconclusive(src_mtime: u64, dest: Option<KindView>) -> bool {
    match dest {
        Some(KindView::File { mtime: dest_mtime, .. }) => src_mtime <= dest_mtime,
        _ => false,
    }
}

/// Decides whether the content digests are needed for one source file: see
/// `timestamps_inconclusive`.
pub fn content_comparison_needed(src_mtime: u64, dest: Option<&Kind>) -> (r: bool)
    ensures
        r == timestamps_inconclusive(src_mtime, kind_opt_view(dest)),
{
    match dest {
        Some(Kind::File { mtime: dest_mtime, digest: _ }) => src_mtime <= *dest_mtime,
        _ => false,
    }
}

/// Decides whether the destination copy of a source file is stale. The two
/// digests were computed independently, one from each file's own content; a
/// missing digest (unreadable content) counts as stale.
pub fn is_file_updated(src_mtime: u64, src_digest: Option<&Vec<u8>>, dest: Option<&Kind>) -> (r:
    bool)
    ensures
        r == needs_update(src_mtime, digest_opt_view(src_digest), kind_opt_view(dest)),
{
    match dest {
        None => true,
        Some(Kind::Dir) => true,
        Some(Kind::File { mtime: dest_mtime, digest: dest_digest }) => {
            if src_mtime > *dest_mtime {
                true
            } else {
                match (src_digest, dest_digest) {
                    (Some(a), Some(b)) => !bytes_eq(a, b),
                    _ => true,
                }
            }
        },
    }
}

} // verus!
