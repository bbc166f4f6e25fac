use rusty_file_sync::detector::content_comparison_needed;
use rusty_file_sync::detector::is_file_updated;
use rusty_file_sync::engine::parse_mode;
use rusty_file_sync::engine::SyncMode;
use rusty_file_sync::runloop::is_quit_command;
use rusty_file_sync::runloop::CancellationState;
use rusty_file_sync::runloop::Phase;
use rusty_file_sync::tree::bytes_eq;
use rusty_file_sync::tree::find_entry;
use rusty_file_sync::tree::Entry;
use rusty_file_sync::tree::Kind;
use rusty_file_sync::tree::Tree;

fn pb(s: &str) -> Vec<u8> {
    s.as_bytes().to_vec()
}

fn sha(content: &str) -> Vec<u8> {
    <sha2::Sha256 as sha2::Digest>::digest(content.as_bytes()).to_vec()
}

fn some_sha(content: &str) -> Option<Vec<u8>> {
    Some(sha(content))
}

#[test]
fn parse_mode_recognizes_the_four_words() {
    assert_eq!(parse_mode(&pb("one")), Some(SyncMode::OneWayDelete));
    assert_eq!(parse_mode(&pb("bi")), Some(SyncMode::BiDirectionalDelete));
    assert_eq!(parse_mode(&pb("one+no_delete")), Some(SyncMode::OneWayKeep));
    assert_eq!(parse_mode(&pb("bi+no_delete")), Some(SyncMode::BiDirectionalKeep));
}

#[test]
fn parse_mode_rejects_everything_else() {
    assert_eq!(parse_mode(&pb("")), None);
    assert_eq!(parse_mode(&pb("two")), None);
    assert_eq!(parse_mode(&pb("one ")), None);
    assert_eq!(parse_mode(&pb("ONE")), None);
    assert_eq!(parse_mode(&pb("bi+no_delete ")), None);
}

#[test]
fn mode_flags_match_their_policy() {
    assert!(SyncMode::OneWayDelete.deletes());
    assert!(SyncMode::BiDirectionalDelete.deletes());
    assert!(!SyncMode::OneWayKeep.deletes());
    assert!(!SyncMode::BiDirectionalKeep.deletes());
    assert!(!SyncMode::OneWayDelete.bidirectional());
    assert!(!SyncMode::OneWayKeep.bidirectional());
    assert!(SyncMode::BiDirectionalDelete.bidirectional());
    assert!(SyncMode::BiDirectionalKeep.bidirectional());
}

#[test]
fn quit_command_is_exactly_the_letter_q() {
    assert!(is_quit_command(&pb("q")));
    assert!(!is_quit_command(&pb("")));
    assert!(!is_quit_command(&pb("qq")));
    assert!(!is_quit_command(&pb("quit")));
    assert!(!is_quit_command(&pb("Q")));
}

#[test]
fn cancellation_walks_through_its_phases() {
    let mut c = CancellationState::new();
    assert_eq!(c.phase, Phase::Running);
    assert!(c.should_start_cycle());

    c.request_stop();
    assert_eq!(c.phase, Phase::Stopping);
    assert!(!c.should_start_cycle());

    // A second request changes nothing.
    c.request_stop();
    assert_eq!(c.phase, Phase::Stopping);

    c.mark_stopped();
    assert_eq!(c.phase, Phase::Stopped);
    assert!(!c.should_start_cycle());

    c.request_stop();
    assert_eq!(c.phase, Phase::Stopped);
}

#[test]
fn missing_destination_needs_copy() {
    assert!(is_file_updated(10, Some(&sha("a")), None));
}

#[test]
fn destination_directory_in_place_of_file_needs_copy() {
    assert!(is_file_updated(10, Some(&sha("a")), Some(&Kind::Dir)));
}

#[test]
fn newer_source_timestamp_needs_copy() {
    let dest = Kind::File { mtime: 5, digest: some_sha("a") };
    assert!(is_file_updated(10, Some(&sha("a")), Some(&dest)));
}

#[test]
fn inconclusive_timestamps_fall_back_to_digests() {
    let same = Kind::File { mtime: 10, digest: some_sha("a") };
    assert!(!is_file_updated(10, Some(&sha("a")), Some(&same)));

    let differs = Kind::File { mtime: 10, digest: some_sha("b") };
    assert!(is_file_updated(10, Some(&sha("a")), Some(&differs)));

    // Older source, changed content: still detected.
    let newer_dest = Kind::File { mtime: 20, digest: some_sha("old") };
    assert!(is_file_updated(10, Some(&sha("new")), Some(&newer_dest)));
}

#[test]
fn missing_digest_on_either_side_needs_copy() {
    let dest = Kind::File { mtime: 10, digest: some_sha("a") };
    assert!(is_file_updated(10, None, Some(&dest)));

    let unreadable_dest = Kind::File { mtime: 10, digest: None };
    assert!(is_file_updated(10, Some(&sha("a")), Some(&unreadable_dest)));
    assert!(is_file_updated(10, None, Some(&unreadable_dest)));
}

#[test]
fn digests_are_needed_only_when_timestamps_are_inconclusive() {
    let older_dest = Kind::File { mtime: 5, digest: None };
    let newer_dest = Kind::File { mtime: 20, digest: None };
    let same_dest = Kind::File { mtime: 10, digest: None };

    assert!(!content_comparison_needed(10, None));
    assert!(!content_comparison_needed(10, Some(&Kind::Dir)));
    assert!(!content_comparison_needed(10, Some(&older_dest)));
    assert!(content_comparison_needed(10, Some(&same_dest)));
    assert!(content_comparison_needed(10, Some(&newer_dest)));
}

#[test]
fn file_entries_carry_the_sha256_of_their_content() {
    let e = Entry::file(pb("f"), 3, &pb("hi"));
    match &e.kind {
        Kind::File { mtime, digest } => {
            assert_eq!(*mtime, 3);
            let digest = digest.as_ref().expect("a hashed entry carries a digest");
            assert_eq!(digest.len(), 32);
            assert_eq!(*digest, sha("hi"));
            assert_ne!(*digest, pb("hi"));
        },
        Kind::Dir => panic!("expected a file entry"),
    }
}

#[test]
fn digests_of_distinct_contents_differ() {
    assert_ne!(sha("a"), sha("b"));
    let ea = Entry::file(pb("f"), 1, &pb("a"));
    let eb = Entry::file(pb("f"), 1, &pb("b"));
    assert_ne!(ea.kind, eb.kind);
}

#[test]
fn bytes_eq_compares_contents() {
    assert!(bytes_eq(&pb("abc"), &pb("abc")));
    assert!(!bytes_eq(&pb("abc"), &pb("abd")));
    assert!(!bytes_eq(&pb("abc"), &pb("ab")));
    assert!(bytes_eq(&pb(""), &pb("")));
}

#[test]
fn find_entry_locates_paths() {
    let t = Tree {
        entries: vec![Entry::dir(pb("d")), Entry::file(pb("d/f"), 1, &pb("x"))],
    };
    let found = find_entry(&t, &pb("d/f"));
    assert!(found.is_some());
    assert_eq!(found.unwrap().kind, Kind::File { mtime: 1, digest: some_sha("x") });
    assert!(find_entry(&t, &pb("missing")).is_none());
}
