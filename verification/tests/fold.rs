use keel::log::error::Error;
use keel::log::fold::Fold;
use keel::log::record::{Record, SegHeader, MAGIC, VERSION};
use keel::raft::{ConfState, Entry, EntryPayload, HardState, SnapshotMeta};


fn entry(term: u64, index: u64) -> Entry {
    Entry::new(term, index, EntryPayload::Noop)
}

fn fold(records: Vec<Record>) -> Result<Fold, Error> {
    let mut f = Fold::default();
    for r in records {
        f.apply(r)?;
    }
    f.finish()
}

fn indices(f: &Fold) -> Vec<u64> {
    f.entries.iter().map(|e| e.index).collect()
}

#[test]
fn entries_accumulate_in_file_order() {
    let f = fold(vec![
        Record::Entries(vec![entry(1, 1), entry(1, 2)]),
        Record::Entries(vec![entry(1, 3)]),
    ])
    .unwrap();
    assert_eq!(indices(&f), vec![1, 2, 3]);
}

#[test]
fn a_truncate_drops_the_suffix_and_the_replacement_follows_it() {
    let f = fold(vec![
        Record::Entries(vec![entry(1, 1), entry(1, 2), entry(1, 3)]),
        Record::Truncate { from: 2 },
        Record::Entries(vec![entry(4, 2)]),
    ])
    .unwrap();
    assert_eq!(indices(&f), vec![1, 2]);
    assert_eq!(f.entries[1].term, 4, "the later term wins at index 2");
}

#[test]
fn the_last_hard_state_wins() {
    let f = fold(vec![
        Record::Entries(vec![entry(1, 1)]),
        Record::HardState(HardState {
            term: 1,
            voted_for: Some(2),
            commit: 0,
        }),
        Record::HardState(HardState {
            term: 5,
            voted_for: None,
            commit: 1,
        }),
    ])
    .unwrap();
    assert_eq!(f.hard_state.term, 5);
    assert_eq!(f.hard_state.voted_for, None);
    assert_eq!(f.hard_state.commit, 1);
}

#[test]
fn a_snapshot_drops_the_prefix_it_covers() {
    let f = fold(vec![
        Record::Entries(vec![entry(1, 1), entry(1, 2), entry(1, 3)]),
        Record::Snapshot(SnapshotMeta {
            index: 2,
            term: 1,
            conf: ConfState::single(vec![1]),
        }),
    ])
    .unwrap();
    assert_eq!(indices(&f), vec![3]);
    assert_eq!(f.last_index(), 3);
}

/// A snapshot installed from a leader whose
/// history this log does not share takes the whole log with it.
///
/// The entries above such a snapshot are not a continuation of it. They
/// belong to the history the install replaced, and keeping them recovers a
/// log spliced from two: the leader's below the floor, this node's above
/// it. `RaftLog::restore_snapshot` clears them in memory; before this the
/// durable log did not, so the splice appeared on the next restart.
#[test]
fn a_snapshot_that_conflicts_with_the_log_discards_all_of_it() {
    let f = fold(vec![
        Record::Entries((1..=10).map(|i| entry(5, i)).collect()),
        // Index 7 is term 5 on this node and term 7 in the snapshot: two
        // different histories, and the snapshot's is the surviving one.
        Record::Snapshot(SnapshotMeta {
            index: 7,
            term: 7,
            conf: ConfState::single(vec![1]),
        }),
    ])
    .unwrap();
    assert!(
        f.entries.is_empty(),
        "entries 8..10 came from the history the snapshot replaced and were kept: {:?}",
        indices(&f)
    );
    assert_eq!(f.last_index(), 7);
}

/// And the case it must not break: a snapshot the node took itself, whose
/// index and term the log agrees with, still compacts rather than clears.
#[test]
fn a_snapshot_the_log_agrees_with_only_compacts() {
    let f = fold(vec![
        Record::Entries((1..=10).map(|i| entry(5, i)).collect()),
        Record::Snapshot(SnapshotMeta {
            index: 7,
            term: 5,
            conf: ConfState::single(vec![1]),
        }),
    ])
    .unwrap();
    assert_eq!(indices(&f), vec![8, 9, 10]);
    assert_eq!(f.last_index(), 10);
}

/// A second snapshot at a floor the first one established agrees with it,
/// because the floor carries a term. Without that the re-emission
/// `compact_to` performs would read as a conflict and discard a log that
/// nothing is wrong with.
#[test]
fn a_snapshot_at_the_existing_floor_is_not_a_conflict() {
    let f = fold(vec![
        Record::Snapshot(SnapshotMeta {
            index: 20,
            term: 3,
            conf: ConfState::single(vec![1]),
        }),
        Record::Entries((21..=25).map(|i| entry(3, i)).collect()),
        Record::Snapshot(SnapshotMeta {
            index: 20,
            term: 3,
            conf: ConfState::single(vec![1]),
        }),
    ])
    .unwrap();
    assert_eq!(indices(&f), vec![21, 22, 23, 24, 25]);
}

/// A floor never moves backwards.
///
/// A stale snapshot record — one an older segment still holds, or one a
/// harness offered late — would otherwise recover a log whose floor is below
/// where the state machine has already applied to, and the entries between
/// the two are gone.
#[test]
fn a_snapshot_below_the_floor_already_folded_does_not_move_it_back() {
    let f = fold(vec![
        Record::Snapshot(SnapshotMeta {
            index: 40,
            term: 4,
            conf: ConfState::single(vec![1]),
        }),
        Record::Entries((41..=45).map(|i| entry(4, i)).collect()),
        Record::Snapshot(SnapshotMeta {
            index: 20,
            term: 2,
            conf: ConfState::single(vec![1]),
        }),
    ])
    .unwrap();
    assert_eq!(
        f.snapshot.as_ref().map(|s| s.index),
        Some(40),
        "the floor went backwards"
    );
    assert_eq!(indices(&f), vec![41, 42, 43, 44, 45]);
}

#[test]
fn a_snapshot_past_the_log_leaves_nothing_and_still_sets_the_floor() {
    let f = fold(vec![
        Record::Entries(vec![entry(1, 1)]),
        Record::Snapshot(SnapshotMeta {
            index: 9,
            term: 4,
            conf: ConfState::single(vec![1]),
        }),
    ])
    .unwrap();
    assert!(f.entries.is_empty());
    assert_eq!(f.last_index(), 9, "the snapshot is the log's floor now");
}

#[test]
fn entries_that_do_not_continue_the_log_are_refused() {
    // Not inferred as a truncation. A writer that overwrites history has to
    // emit a Truncate saying so, and one that does not is a bug that should
    // surface at recovery rather than silently produce a different log.
    let err = fold(vec![
        Record::Entries(vec![entry(1, 1), entry(1, 2), entry(1, 3)]),
        Record::Entries(vec![entry(4, 2)]),
    ])
    .unwrap_err();
    assert!(
        matches!(
            err,
            Error::Discontiguous {
                expected: 4,
                found: 2
            }
        ),
        "got {err:?}"
    );
}

#[test]
fn a_gap_in_the_stream_is_refused() {
    let err = fold(vec![
        Record::Entries(vec![entry(1, 1)]),
        Record::Entries(vec![entry(1, 5)]),
    ])
    .unwrap_err();
    assert!(matches!(err, Error::Discontiguous { .. }), "got {err:?}");
}

#[test]
fn a_commit_index_the_tail_took_with_it_is_clamped() {
    // The hard state naming commit 9 was durable; entries 3..9 were not.
    let f = fold(vec![
        Record::Entries(vec![entry(1, 1), entry(1, 2)]),
        Record::HardState(HardState {
            term: 3,
            voted_for: None,
            commit: 9,
        }),
    ])
    .unwrap();
    assert_eq!(f.hard_state.commit, 2);
    assert_eq!(f.hard_state.term, 3, "the term and the vote are untouched");
    assert!(f.clamped_commit, "the clamp is evidence and gets reported");
}

#[test]
fn a_compacted_log_starts_at_its_floor_rather_than_at_index_one() {
    let mut f = Fold {
        floor: 77,
        ..Fold::default()
    };
    f.apply(Record::Entries(vec![entry(1, 78), entry(1, 79)]))
        .unwrap();
    let f = f.finish().unwrap();
    assert_eq!(indices(&f), vec![78, 79]);
}

#[test]
fn a_snapshot_read_after_the_entries_it_covers_still_sets_the_floor() {
    // compact_to re-emits the snapshot into the live segment, so it arrives
    // *after* the surviving entries rather than before them.
    let mut f = Fold {
        floor: 77,
        ..Fold::default()
    };
    f.apply(Record::Entries((78..=105).map(|i| entry(1, i)).collect()))
        .unwrap();
    f.apply(Record::Snapshot(SnapshotMeta {
        index: 100,
        term: 1,
        conf: ConfState::single(vec![1]),
    }))
    .unwrap();
    let f = f.finish().unwrap();
    assert_eq!(f.entries.first().map(|e| e.index), Some(101));
    assert_eq!(f.entries.last().map(|e| e.index), Some(105));
}

#[test]
fn a_segment_header_folds_to_nothing() {
    let f = fold(vec![
        Record::SegHeader(SegHeader {
            magic: MAGIC,
            version: VERSION,
            seq: 0,
            base_index: 1,
        }),
        Record::Entries(vec![entry(1, 1)]),
    ])
    .unwrap();
    assert_eq!(indices(&f), vec![1]);
}

#[test]
fn a_replay_stops_where_the_records_do() {
    let mut bytes = Record::Entries(vec![entry(1, 1)]).encode();
    bytes.extend_from_slice(&Record::HardState(HardState { term: 2, voted_for: None, commit: 1 }).encode());
    let end = bytes.len();
    bytes.extend_from_slice(&[0; 64]);
    let mut f = Fold::starting_at(0);
    let (stopped, stop) = f.replay(&bytes, 0, 512).unwrap();
    assert_eq!(stopped, end);
    assert!(!stop.is_torn());
    assert_eq!(indices(&f), vec![1]);
    assert_eq!(f.hard_state.term, 2);
}

/// A stream that starts midway may truncate below where it starts: what comes
/// after it goes on from there.
#[test]
fn a_truncation_below_the_start_moves_the_start_back() {
    let mut f = Fold::starting_at(40);
    f.apply(Record::Entries(vec![entry(1, 41), entry(1, 42)])).unwrap();
    f.apply(Record::Truncate { from: 30 }).unwrap();
    f.apply(Record::Entries(vec![entry(2, 30), entry(2, 31)])).unwrap();
    let f = f.finish().unwrap();
    assert_eq!(indices(&f), vec![30, 31]);
}

/// A snapshot of something before the stream starts says nothing of it.
#[test]
fn a_snapshot_behind_the_start_is_passed_over() {
    let mut f = Fold::starting_at(40);
    f.apply(Record::Snapshot(SnapshotMeta {
        index: 30,
        term: 1,
        conf: ConfState::single(vec![1]),
    }))
    .unwrap();
    f.apply(Record::Entries(vec![entry(1, 41)])).unwrap();
    let f = f.finish().unwrap();
    assert_eq!(f.snapshot, None);
    assert_eq!(indices(&f), vec![41]);
}
