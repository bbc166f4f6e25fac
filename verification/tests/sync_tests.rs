use rusty_file_sync::engine::run_cycle;
use rusty_file_sync::engine::sync_bothways;
use rusty_file_sync::engine::SyncMode;
use rusty_file_sync::reconcile::plan_one_way;
use rusty_file_sync::reconcile::sync_oneway;
use rusty_file_sync::reconcile::Action;
use rusty_file_sync::tree::Entry;
use rusty_file_sync::tree::Kind;
use rusty_file_sync::tree::Tree;

fn pb(s: &str) -> Vec<u8> {
    s.as_bytes().to_vec()
}

fn sha(content: &str) -> Vec<u8> {
    <sha2::Sha256 as sha2::Digest>::digest(content.as_bytes()).to_vec()
}

fn some_sha(content: &str) -> Option<Vec<u8>> {
    Some(sha(content))
}

fn file_entry(path: &str, mtime: u64, content: &str) -> Entry {
    Entry::file(pb(path), mtime, &pb(content))
}

fn tree_of(entries: Vec<Entry>) -> Tree {
    Tree { entries }
}

#[test]
fn one_way_delete_fills_empty_destination() {
    let src = tree_of(vec![Entry::dir(pb("dir")), file_entry("dir/note.txt", 50, "hi")]);
    let dest = tree_of(vec![]);

    let plan = plan_one_way(&src, &dest, true);
    assert_eq!(
        plan,
        vec![Action::CreateDir(pb("dir")), Action::CopyFile(pb("dir/note.txt"))]
    );

    let after = sync_oneway(&src, &dest, true, 100);
    assert_eq!(after.entries.len(), 2);
    assert_eq!(after.entries[0].path, pb("dir"));
    assert_eq!(after.entries[0].kind, Kind::Dir);
    assert_eq!(after.entries[1].path, pb("dir/note.txt"));
    assert_eq!(
        after.entries[1].kind,
        Kind::File { mtime: 100, digest: some_sha("hi") }
    );
}

#[test]
fn one_way_delete_removes_extraneous_entry() {
    let src = tree_of(vec![file_entry("f.txt", 10, "a")]);
    let dest = tree_of(vec![file_entry("f.txt", 20, "a"), file_entry("stale.txt", 5, "z")]);

    let plan = plan_one_way(&src, &dest, true);
    assert_eq!(
        plan,
        vec![Action::SkipFile(pb("f.txt")), Action::RemoveFile(pb("stale.txt"))]
    );

    let after = sync_oneway(&src, &dest, true, 100);
    assert_eq!(after.entries.len(), 1);
    assert_eq!(after.entries[0].path, pb("f.txt"));
    // Skipped as unchanged: the destination file keeps its own timestamp.
    assert_eq!(after.entries[0].kind, Kind::File { mtime: 20, digest: some_sha("a") });
}

#[test]
fn one_way_keep_preserves_extraneous_entry() {
    let src = tree_of(vec![file_entry("f.txt", 10, "a")]);
    let dest = tree_of(vec![file_entry("f.txt", 20, "a"), file_entry("stale.txt", 5, "z")]);

    let plan = plan_one_way(&src, &dest, false);
    assert_eq!(plan, vec![Action::SkipFile(pb("f.txt"))]);

    let after = sync_oneway(&src, &dest, false, 100);
    assert_eq!(after.entries.len(), 2);
    assert_eq!(after.entries[1].path, pb("stale.txt"));
    assert_eq!(after.entries[1].kind, Kind::File { mtime: 5, digest: some_sha("z") });
}

#[test]
fn content_change_detected_despite_older_timestamp() {
    // The source file was edited but its timestamp is older than the
    // destination's: the digests differ, so it is still re-copied.
    let src = tree_of(vec![file_entry("f.txt", 5, "new")]);
    let dest = tree_of(vec![file_entry("f.txt", 10, "old")]);

    let plan = plan_one_way(&src, &dest, true);
    assert_eq!(plan, vec![Action::CopyFile(pb("f.txt"))]);

    let after = sync_oneway(&src, &dest, true, 77);
    assert_eq!(after.entries.len(), 1);
    assert_eq!(after.entries[0].kind, Kind::File { mtime: 77, digest: some_sha("new") });
}

#[test]
fn equal_timestamps_and_content_are_skipped() {
    let src = tree_of(vec![file_entry("f.txt", 10, "same")]);
    let dest = tree_of(vec![file_entry("f.txt", 10, "same")]);

    let plan = plan_one_way(&src, &dest, true);
    assert_eq!(plan, vec![Action::SkipFile(pb("f.txt"))]);
}

#[test]
fn second_cycle_plans_no_work() {
    let src = tree_of(vec![Entry::dir(pb("dir")), file_entry("dir/note.txt", 50, "hi")]);
    let dest = tree_of(vec![file_entry("left.txt", 1, "x")]);

    let after_first = sync_oneway(&src, &dest, true, 100);
    let plan_second = plan_one_way(&src, &after_first, true);
    assert_eq!(plan_second, vec![Action::SkipFile(pb("dir/note.txt"))]);
}

#[test]
fn second_pass_reproduces_the_tree_exactly() {
    let src = tree_of(vec![
        Entry::dir(pb("dir")),
        file_entry("dir/note.txt", 50, "hi"),
        file_entry("top.txt", 60, "t"),
    ]);
    let dest = tree_of(vec![file_entry("old.txt", 1, "o")]);

    let first = sync_oneway(&src, &dest, true, 100);
    let second = sync_oneway(&src, &first, true, 200);
    assert_eq!(first, second);
}

#[test]
fn deletion_removes_whole_subtree_children_first() {
    let src = tree_of(vec![file_entry("keep.txt", 1, "k")]);
    let dest = tree_of(vec![
        file_entry("keep.txt", 2, "k"),
        Entry::dir(pb("stale")),
        file_entry("stale/x.txt", 3, "x"),
    ]);

    let plan = plan_one_way(&src, &dest, true);
    // Removals come after copies/skips, and a directory's contents are
    // removed before the directory itself.
    assert_eq!(
        plan,
        vec![
            Action::SkipFile(pb("keep.txt")),
            Action::RemoveFile(pb("stale/x.txt")),
            Action::RemoveDir(pb("stale")),
        ]
    );
}

#[test]
fn bidirectional_passes_run_in_fixed_order() {
    // Divergent content: the first pass copies the source's bytes onto the
    // destination, and the second pass then carries that settled state back.
    let src = tree_of(vec![file_entry("a.txt", 1, "X")]);
    let dest = tree_of(vec![file_entry("a.txt", 2, "Y")]);

    let (src_after, dest_after) = sync_bothways(&src, &dest, true, 10, 11);
    assert_eq!(dest_after.entries.len(), 1);
    assert_eq!(dest_after.entries[0].kind, Kind::File { mtime: 10, digest: some_sha("X") });
    assert_eq!(src_after.entries.len(), 1);
    assert_eq!(src_after.entries[0].kind, Kind::File { mtime: 11, digest: some_sha("X") });
}

#[test]
fn bidirectional_equal_content_converges() {
    let src = tree_of(vec![file_entry("a.txt", 1, "Y")]);
    let dest = tree_of(vec![file_entry("a.txt", 2, "Y")]);

    let (src_after, dest_after) = sync_bothways(&src, &dest, true, 10, 11);
    assert_eq!(dest_after.entries[0].kind, Kind::File { mtime: 2, digest: some_sha("Y") });
    assert_eq!(src_after.entries[0].kind, Kind::File { mtime: 11, digest: some_sha("Y") });
}

#[test]
fn run_cycle_one_way_leaves_source_untouched() {
    let src = tree_of(vec![file_entry("f.txt", 10, "a")]);
    let dest = tree_of(vec![]);

    let (src_after, dest_after) = run_cycle(src, dest, SyncMode::OneWayDelete, 42, 43);
    assert_eq!(src_after.entries, vec![file_entry("f.txt", 10, "a")]);
    assert_eq!(dest_after.entries.len(), 1);
    assert_eq!(dest_after.entries[0].kind, Kind::File { mtime: 42, digest: some_sha("a") });
}

#[test]
fn run_cycle_bidirectional_runs_both_passes() {
    let src = tree_of(vec![file_entry("a.txt", 1, "X")]);
    let dest = tree_of(vec![file_entry("b.txt", 2, "Z")]);

    let (src_after, dest_after) = run_cycle(src, dest, SyncMode::BiDirectionalKeep, 10, 11);
    // Keep mode: nothing is deleted, both files end up in both trees.
    assert_eq!(dest_after.entries.len(), 2);
    assert_eq!(dest_after.entries[0].path, pb("b.txt"));
    assert_eq!(dest_after.entries[1].path, pb("a.txt"));
    assert_eq!(src_after.entries.len(), 2);
    assert_eq!(src_after.entries[0].path, pb("a.txt"));
    assert_eq!(src_after.entries[1].path, pb("b.txt"));
    assert_eq!(src_after.entries[1].kind, Kind::File { mtime: 11, digest: some_sha("Z") });
}

#[test]
fn unreadable_source_file_is_recopied_every_cycle() {
    // The source file's content could not be read while hashing: fail open
    // toward re-copying instead of aborting the pass.
    let src = tree_of(vec![Entry::file_without_digest(pb("f.txt"), 5)]);
    let dest = tree_of(vec![file_entry("f.txt", 99, "a")]);

    let plan = plan_one_way(&src, &dest, true);
    assert_eq!(plan, vec![Action::CopyFile(pb("f.txt"))]);

    // Still planned for copying on the next cycle.
    let after = sync_oneway(&src, &dest, true, 100);
    let plan_again = plan_one_way(&src, &after, true);
    assert_eq!(plan_again, vec![Action::CopyFile(pb("f.txt"))]);
}

#[test]
fn unreadable_destination_file_is_recopied() {
    // A destination file that can be overwritten but not read: its digest is
    // unavailable, so the comparison fails open and the file is re-copied.
    let src = tree_of(vec![file_entry("f.txt", 5, "a")]);
    let dest = tree_of(vec![Entry::file_without_digest(pb("f.txt"), 99)]);

    let plan = plan_one_way(&src, &dest, true);
    assert_eq!(plan, vec![Action::CopyFile(pb("f.txt"))]);

    let after = sync_oneway(&src, &dest, true, 100);
    assert_eq!(after.entries[0].kind, Kind::File { mtime: 100, digest: some_sha("a") });
}

#[test]
fn source_directory_over_destination_file_creates_directory() {
    let src = tree_of(vec![Entry::dir(pb("p"))]);
    let dest = tree_of(vec![file_entry("p", 1, "x")]);

    let plan = plan_one_way(&src, &dest, false);
    assert_eq!(plan, vec![Action::CreateDir(pb("p"))]);

    let after = sync_oneway(&src, &dest, false, 100);
    assert_eq!(after.entries.len(), 1);
    assert_eq!(after.entries[0].kind, Kind::Dir);
}

#[test]
fn source_file_over_destination_directory_is_copied() {
    let src = tree_of(vec![file_entry("p", 5, "data")]);
    let dest = tree_of(vec![Entry::dir(pb("p"))]);

    let plan = plan_one_way(&src, &dest, false);
    assert_eq!(plan, vec![Action::CopyFile(pb("p"))]);
}
