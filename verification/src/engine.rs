use vstd::prelude::*;

use crate::reconcile::sync_oneway;
use crate::reconcile::sync_result;
use crate::tree::bytes_eq;
use crate::tree::Tree;

verus! {

/// The four synchronization policies: one-way or bidirectional propagation,
/// each with or without deletion of destination entries absent from the
/// source.
#[derive(Clone, Copy, Debug, PartialEq, Eq, Structural)]
pub enum SyncMode {
    OneWayDelete,
    OneWayKeep,
    BiDirectionalDelete,
    BiDirectionalKeep,
}

/// Whether a mode removes destination entries absent from the source.
pub open spec fn mode_deletes(mode: SyncMode) -> bool {
    mode == SyncMode::OneWayDelete || mode == SyncMode::BiDirectionalDelete
}

/// Whether a mode runs a second, reverse reconciliation pass.
pub open spec fn mode_bidirectional(mode: SyncMode) -> bool {
    mode == SyncMode::BiDirectionalDelete || mode == SyncMode::BiDirectionalKeep
}

impl SyncMode {
    /// Whether this mode removes destination entries absent from the source.
    pub fn deletes(&self) -> (r: bool)
        ensures
            r == mode_deletes(*self),
    {
        match self {
            SyncMode::OneWayDelete => true,
            SyncMode::BiDirectionalDelete => true,
            SyncMode::OneWayKeep => false,
            SyncMode::BiDirectionalKeep => false,
        }
    }

    /// Whether this mode runs a second, reverse reconciliation pass.
    pub fn bidirectional(&self) -> (r: bool)
        ensures
            r == mode_bidirectional(*self),
    {
        match self {
            SyncMode::BiDirectionalDelete => true,
            SyncMode::BiDirectionalKeep => true,
            SyncMode::OneWayDelete => false,
            SyncMode::OneWayKeep => false,
        }
    }
}

/// The bytes of the mode word selecting one-way propagation with deletion.
pub open spec fn mode_word_one() -> Seq<u8> {
    seq![111u8, 110u8, 101u8]
}

/// The bytes of the mode word selecting bidirectional propagation with
/// deletion.
pub open spec fn mode_word_bi() -> Seq<u8> {
    seq![98u8, 105u8]
}

/// The bytes of the mode word selecting one-way propagation without
/// deletion.
pub open spec fn mode_word_one_no_delete() -> Seq<u8> {
    seq![111u8, 110u8, 101u8, 43u8, 110u8, 111u8, 95u8, 100u8, 101u8, 108u8, 101u8, 116u8, 101u8]
}

/// The bytes of the mode word selecting bidirectional propagation without
/// deletion.
pub open spec fn mode_word_bi_no_delete() -> Seq<u8> {
    seq![98u8, 105u8, 43u8, 110u8, 111u8, 95u8, 100u8, 101u8, 108u8, 101u8, 116u8, 101u8]
}

/// The mode a command-line mode word selects, or `None` for any word that is
/// not one of the four recognized ones.
pub open spec fn mode_of(s: Seq<u8>) -> Option<SyncMode> {
    if s == mode_word_one() {
        Some(SyncMode::OneWayDelete)
    } else if s == mode_word_bi() {
        Some(SyncMode::BiDirectionalDelete)
    } else if s == mode_word_one_no_delete() {
        Some(SyncMode::OneWayKeep)
    } else if s == mode_word_bi_no_delete() {
        Some(SyncMode::BiDirectionalKeep)
    } else {
        None
    }
}

fn push_no_delete_suffix(v: &mut Vec<u8>)
    ensures
        final(v)@ == old(v)@ + seq![43u8, 110u8, 111u8, 95u8, 100u8, 101u8, 108u8, 101u8, 116u8, 101u8],
{
    v.push(43u8);
    v.push(110u8);
    v.push(111u8);
    v.push(95u8);
    v.push(100u8);
    v.push(101u8);
    v.push(108u8);
    v.push(101u8);
    v.push(116u8);
    v.push(101u8);
    proof {
        assert(v@ =~= old(v)@ + seq![43u8, 110u8, 111u8, 95u8, 100u8, 101u8, 108u8, 101u8, 116u8, 101u8]);
    }
}

fn make_mode_word_one() -> (v: Vec<u8>)
    ensures
        v@ == mode_word_one(),
{
    let mut v: Vec<u8> = Vec::new();
    v.push(111u8);
    v.push(110u8);
    v.push(101u8);
    proof {
        assert(v@ =~= mode_word_one());
    }
    v
}

fn make_mode_word_bi() -> (v: Vec<u8>)
    ensures
        v@ == mode_word_bi(),
{
    let mut v: Vec<u8> = Vec::new();
    v.push(98u8);
    v.push(105u8);
    proof {
        assert(v@ =~= mode_word_bi());
    }
    v
}

fn make_mode_word_one_no_delete() -> (v: Vec<u8>)
    ensures
        v@ == mode_word_one_no_delete(),
{
    let mut v = make_mode_word_one();
    push_no_delete_suffix(&mut v);
    proof {
        assert(v@ =~= mode_word_one_no_delete());
    }
    v
}

fn make_mode_word_bi_no_delete() -> (v: Vec<u8>)
    ensures
        v@ == mode_word_bi_no_delete(),
{
    let mut v = make_mode_word_bi();
    push_no_delete_suffix(&mut v);
    proof {
        assert(v@ =~= mode_word_bi_no_delete());
    }
    v
}

/// Parses a command-line mode word (as bytes). Exactly the four recognized
/// words yield a mode; every other input yields `None`.
pub fn parse_mode(s: &Vec<u8>) -> (r: Option<SyncMode>)
    ensures
        r == mode_of(s@),
{
    if bytes_eq(s, &make_mode_word_one()) {
        Some(SyncMode::OneWayDelete)
    } else if bytes_eq(s, &make_mode_word_bi()) {
        Some(SyncMode::BiDirectionalDelete)
    } else if bytes_eq(s, &make_mode_word_one_no_delete()) {
        Some(SyncMode::OneWayKeep)
    } else if bytes_eq(s, &make_mode_word_bi_no_delete()) {
        Some(SyncMode::BiDirectionalKeep)
    } else {
        None
    }
}

/// Two sequential reconciliation passes: first `src` onto `dest`, then the
/// updated destination back onto `src`, in that fixed order. Returns the two
/// trees as (source after, destination after).
pub fn sync_bothways(src: &Tree, dest: &Tree, delete: bool, now_first: u64, now_second: u64) -> (r:
    (Tree, Tree))
    ensures
        r.1@ == sync_result(src@, dest@, delete, now_first),
        r.0@ == sync_result(r.1@, src@, delete, now_second),
{
    let new_dest = sync_oneway(src, dest, delete, now_first);
    let new_src = sync_oneway(&new_dest, src, delete, now_second);
    (new_src, new_dest)
}

/// One cycle of the engine: the passes that `mode` selects, applied to the
/// two snapshots. Returns (source after, destination after); a one-way mode
/// leaves the source untouched.
pub fn run_cycle(src: Tree, dest: Tree, mode: SyncMode, now_first: u64, now_second: u64) -> (r: (
    Tree,
    Tree,
))
    ensures
        r.1@ == sync_result(src@, dest@, mode_deletes(mode), now_first),
        mode_bidirectional(mode) ==> r.0@ == sync_result(
            r.1@,
            src@,
            mode_deletes(mode),
            now_second,
        ),
        !mode_bidirectional(mode) ==> r.0@ == src@,
{
    let delete = mode.deletes();
    if mode.bidirectional() {
        sync_bothways(&src, &dest, delete, now_first, now_second)
    } else {
        let new_dest = sync_oneway(&src, &dest, delete, now_first);
        (src, new_dest)
    }
}

} // verus!
