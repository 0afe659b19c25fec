//! What the log does with a directory that a crash left behind.

use std::cell::RefCell;
use std::rc::Rc;

use keel::log::error::Error;
use keel::log::fs::{erase_chunks, Effect, SyncMode, ERASE_CHUNK};
use keel::log::journal::{Log, LogOptions, Recovered, SyncToken};
use keel::log::memory::MemoryDisk;
use keel::log::record::written_end as end_of_written;
use keel::raft::{ConfState, Entry, EntryPayload, HardState, Index, SnapshotMeta, Term};

fn opts() -> LogOptions {
    LogOptions {
        // Small enough that a few dozen records roll a segment, so the
        // multi-segment paths are exercised without writing megabytes.
        segment_bytes: 1024,
        max_record_bytes: 512,
        sync_mode: SyncMode::Off,
        preallocate: true,
    }
}

fn entry(term: Term, index: Index) -> Entry {
    Entry::new(term, index, EntryPayload::Noop)
}

type Dir = Rc<RefCell<MemoryDisk>>;

fn empty_dir() -> Dir {
    Rc::new(RefCell::new(MemoryDisk::new()))
}

/// A log with what it asks for carried out on a directory as it goes.
struct Hosted {
    log: Log,
    disk: Dir,
}

impl Hosted {
    fn settle(&mut self) {
        let effects = self.log.take_effects();
        assert!(self.disk.borrow_mut().perform_all(&effects), "{effects:?}");
    }

    fn append(&mut self, entries: &[Entry]) -> Result<SyncToken, Error> {
        let r = self.log.append(entries);
        self.settle();
        r
    }

    fn set_hard_state(&mut self, hs: HardState) -> Result<SyncToken, Error> {
        let r = self.log.set_hard_state(hs);
        self.settle();
        r
    }

    fn truncate(&mut self, from: Index) -> Result<SyncToken, Error> {
        let r = self.log.truncate(from);
        self.settle();
        r
    }

    fn install_snapshot(&mut self, meta: &SnapshotMeta) -> Result<SyncToken, Error> {
        let r = self.log.install_snapshot(meta);
        self.settle();
        r
    }

    fn compact_to(&mut self, index: Index) -> Result<u32, Error> {
        let r = self.log.compact_to(index);
        self.settle();
        r
    }

    fn sync(&mut self) -> SyncToken {
        let r = self.log.sync();
        self.settle();
        r
    }

    fn read(&self, lo: Index, hi: Index) -> Result<Vec<Entry>, Error> {
        let mut images = self.disk.borrow().files();
        images.sort_by(|a, b| a.name.cmp(&b.name));
        self.log.read(&images, lo, hi)
    }
}

fn try_open(disk: &Dir) -> Result<(Log, Recovered), Error> {
    let mut effects = Vec::new();
    let files = disk.borrow().files();
    let r = Log::open("log", files, opts(), &mut effects);
    assert!(disk.borrow_mut().perform_all(&effects), "{effects:?}");
    r
}

fn open(disk: &Dir) -> (Hosted, Recovered) {
    match try_open(disk) {
        Ok((log, recovered)) => (Hosted { log, disk: disk.clone() }, recovered),
        Err(e) => panic!("open should succeed: {e:?}"),
    }
}

fn indices(r: &Recovered) -> Vec<Index> {
    r.entries.iter().map(|e| e.index).collect()
}

fn segments(disk: &Dir) -> Vec<String> {
    let mut v: Vec<String> = disk
        .borrow()
        .files()
        .into_iter()
        .map(|f| f.name)
        .filter(|name| name.starts_with("seg-"))
        .collect();
    v.sort();
    v
}

/// Overwrite `len` bytes at `off` with `byte`, the way a torn or shredded write
/// leaves them.
fn scribble(disk: &Dir, name: &str, off: u64, len: usize, byte: u8) {
    let write = Effect::Write { name: name.to_string(), offset: off, bytes: vec![byte; len] };
    assert!(disk.borrow_mut().perform(&write));
}

/// Put a file in place of whatever is there.
fn put_file(disk: &Dir, name: &str, bytes: Vec<u8>) {
    let mut disk = disk.borrow_mut();
    disk.perform(&Effect::Remove { name: name.to_string() });
    assert!(disk.perform(&Effect::Create { name: name.to_string(), allocate: 0 }));
    assert!(disk.perform(&Effect::Write { name: name.to_string(), offset: 0, bytes }));
}

fn file_len(disk: &Dir, name: &str) -> u64 {
    disk.borrow().read(name).unwrap().len() as u64
}

/// The offset just past the last non-zero byte: where the writer had got to.
fn written_end(disk: &Dir, name: &str) -> u64 {
    end_of_written(&disk.borrow().read(name).unwrap()) as u64
}

#[test]
fn an_empty_directory_opens_clean() {
    let dir = empty_dir();
    let (log, rec) = open(&dir);

    assert!(rec.entries.is_empty());
    assert_eq!(rec.segments, 1);
    assert_eq!(rec.discarded_tail_bytes, 0);
    assert_eq!(log.log.last_index(), 0);
}

#[test]
fn a_clean_shutdown_recovers_everything() {
    let dir = empty_dir();
    {
        let (mut log, _) = open(&dir);
        log.append(&[entry(1, 1), entry(1, 2)]).unwrap();
        log.set_hard_state(HardState {
            term: 3,
            voted_for: Some(7),
            commit: 2,
        })
        .unwrap();
        log.append(&[entry(3, 3)]).unwrap();
        log.sync();
    }

    let (log, rec) = open(&dir);
    assert_eq!(indices(&rec), vec![1, 2, 3]);
    assert_eq!(rec.hard_state.term, 3);
    assert_eq!(rec.hard_state.voted_for, Some(7));
    assert_eq!(rec.hard_state.commit, 2);
    assert_eq!(rec.discarded_tail_bytes, 0);
    assert!(!rec.clamped_commit);
    assert_eq!(log.log.last_index(), 3);
}

#[test]
fn a_truncation_survives_a_restart() {
    let dir = empty_dir();
    {
        let (mut log, _) = open(&dir);
        log.append(&[entry(1, 1), entry(1, 2), entry(1, 3)])
            .unwrap();
        log.truncate(2).unwrap();
        log.append(&[entry(4, 2)]).unwrap();
        log.sync();
    }

    let (_, rec) = open(&dir);
    assert_eq!(indices(&rec), vec![1, 2]);
    assert_eq!(
        rec.entries[1].term, 4,
        "the replacement won, not the original"
    );
}

#[test]
fn a_torn_trailing_record_is_discarded_and_the_prefix_survives() {
    let dir = empty_dir();
    let seg = {
        let (mut log, _) = open(&dir);
        log.append(&[entry(1, 1), entry(1, 2)]).unwrap();
        log.sync();
        let seg = segments(&dir)[0].clone();
        // A third record lands half-written, the way a crash mid-append leaves it.
        log.append(&[entry(1, 3)]).unwrap();
        seg
    };
    let end = written_end(&dir, &seg);
    scribble(&dir, &seg, end - 4, 4, 0xab);

    let (log, rec) = open(&dir);
    assert_eq!(indices(&rec), vec![1, 2], "the intact prefix is kept");
    assert!(rec.discarded_tail_bytes > 0, "and the tear is reported");
    assert_eq!(log.log.last_index(), 2);
}

/// The reason recovery erases the tail rather than just moving the cursor back.
#[test]
fn a_torn_record_cannot_be_resurrected_by_a_shorter_one_written_over_it() {
    let dir = empty_dir();
    let seg = {
        let (mut log, _) = open(&dir);
        log.append(&[entry(1, 1)]).unwrap();
        log.sync();
        // A long record, then damage to its first byte only. Its *tail* stays
        // on disk and is a valid-looking frame boundary for whatever the next
        // recovery writes there.
        let payload = EntryPayload::Normal(vec![0xcd; 200]);
        log.append(&[Entry::new(1, 2, payload)]).unwrap();
        segments(&dir)[0].clone()
    };
    let before = written_end(&dir, &seg);
    scribble(&dir, &seg, before - 210, 1, 0x00); // corrupt the long record's length

    let (mut log, rec) = open(&dir);
    assert_eq!(indices(&rec), vec![1]);

    // Write a much shorter record over the same region and reopen. If the old
    // record's tail were still there, this scan would run straight off the end
    // of the new one into it.
    log.append(&[entry(9, 2)]).unwrap();
    log.sync();
    drop(log);

    let (_, rec) = open(&dir);
    assert_eq!(indices(&rec), vec![1, 2]);
    assert_eq!(rec.entries[1].term, 9);
    assert_eq!(rec.discarded_tail_bytes, 0, "nothing is left to trip over");
}

/// Append a prefix, then two more records, then lose the first of the two the
/// way a crash loses a page that never reached the device. Returns the segment,
/// the offset the hole starts at, and the offset the surviving record sits at.
fn a_hole_with_a_record_above_it(dir: &Dir) -> (String, u64, u64) {
    let (mut log, _) = open(dir);
    log.append(&[entry(1, 1)]).unwrap();
    log.sync();

    let seg = segments(dir)[0].clone();
    let hole = written_end(dir, &seg);
    log.append(&[entry(1, 2)]).unwrap();
    let above = written_end(dir, &seg);
    log.append(&[entry(1, 3)]).unwrap();
    log.sync();
    drop(log);

    // The earlier write is gone and the later one survived. A device commits
    // whole blocks and nothing orders those completions, so a hole is a state a
    // real crash reaches — and the bytes it leaves behind are indistinguishable
    // from the preallocated zeros the scan is meant to stop at.
    scribble(dir, &seg, hole, (above - hole) as usize, 0x00);
    (seg, hole, above)
}

#[test]
fn a_hole_a_crash_left_is_not_read_as_the_clean_end_it_looks_like() {
    let dir = empty_dir();
    let (seg, hole, _) = a_hole_with_a_record_above_it(&dir);
    assert!(
        written_end(&dir, &seg) > hole,
        "the fixture is wrong: nothing survived above the hole, so this test \
         is not about the case it says it is"
    );

    let (log, rec) = open(&dir);

    assert_eq!(indices(&rec), vec![1], "the fold stops at the hole");
    assert_eq!(log.log.last_index(), 1);
    assert_eq!(
        written_end(&dir, &seg),
        hole,
        "the survivor is still on disk after recovery, so the next record \
         written at the cursor can be read straight past into it"
    );
    assert!(
        rec.discarded_tail_bytes > 0,
        "recovery called this crash clean. Whether bytes sit above the cursor \
         does not depend on how the scan stopped, and reporting zero here is \
         what lets them survive to be misread on a later open"
    );
}

/// How many bytes one `append` of `e` writes, as the second record of a log.
fn appended_len(e: Entry) -> u64 {
    let dir = empty_dir();
    let (mut log, _) = open(&dir);
    log.append(&[entry(1, 1)]).unwrap();
    let seg = segments(&dir)[0].clone();
    let before = written_end(&dir, &seg);
    log.append(&[e]).unwrap();
    written_end(&dir, &seg) - before
}

/// The other half of [`a_torn_record_cannot_be_resurrected_by_a_shorter_one_written_over_it`],
/// for the tear that takes the *head* of a write rather than its tail.
#[test]
fn a_record_above_a_hole_is_erased_rather_than_read_on_the_next_open() {
    let dir = empty_dir();
    let (_, hole, above) = a_hole_with_a_record_above_it(&dir);

    // A replacement of exactly the encoded length of the record that was lost.
    // That is the common case rather than the corner: records of one shape are
    // one length, so a log re-appending what it lost puts its cursor back on
    // the survivor's first byte.
    assert_eq!(
        appended_len(entry(9, 2)),
        above - hole,
        "the fixture is wrong: the replacement is a different length from the \
         record it replaces, so the cursor never reaches the survivor and \
         nothing here is being tested"
    );

    let (mut log, _) = open(&dir);
    log.append(&[entry(9, 2)]).unwrap();
    log.sync();
    drop(log);

    let (log, rec) = open(&dir);

    assert_eq!(
        indices(&rec),
        vec![1, 2],
        "an entry from before the crash was read back as though this \
         incarnation had written it, which is a Raft log inventing an entry"
    );
    assert_eq!(
        rec.entries[1].term, 9,
        "and the replacement is what survived"
    );
    assert_eq!(log.log.last_index(), 2);
}

#[test]
fn a_commit_index_the_tear_took_with_it_is_clamped_and_reported() {
    let dir = empty_dir();
    let seg = {
        let (mut log, _) = open(&dir);
        log.append(&[entry(1, 1), entry(1, 2)]).unwrap();
        // The hard state is durable; the entries it names are about to not be.
        log.set_hard_state(HardState {
            term: 1,
            voted_for: None,
            commit: 4,
        })
        .unwrap();
        log.sync();
        segments(&dir)[0].clone()
    };
    let _ = seg;

    let (_, rec) = open(&dir);
    assert_eq!(
        rec.hard_state.commit, 2,
        "clamped to what is actually there"
    );
    assert!(rec.clamped_commit, "and reported, because it is evidence");
    assert_eq!(rec.hard_state.term, 1, "the term and vote are untouched");
}

#[test]
fn a_segment_whose_header_never_landed_is_discarded() {
    let dir = empty_dir();
    {
        let (mut log, _) = open(&dir);
        log.append(&[entry(1, 1)]).unwrap();
        log.sync();
    }
    // A crash inside rollover: the file exists, its header does not.
    put_file(&dir, "seg-0000000001.log", vec![0u8; 1024]);

    let (_, rec) = open(&dir);
    assert_eq!(indices(&rec), vec![1]);
    assert_eq!(rec.segments, 1, "the headerless tail segment was removed");
    assert!(dir.borrow().read("seg-0000000001.log").is_none());
}

#[test]
fn damage_below_the_end_of_the_log_is_refused_rather_than_guessed_past() {
    let dir = empty_dir();
    {
        let (mut log, _) = open(&dir);
        // Enough to roll past the first segment.
        for i in 1..=200u64 {
            log.append(&[entry(1, i)]).unwrap();
        }
        log.sync();
    }
    let segs = segments(&dir);
    assert!(segs.len() > 1, "the test needs more than one segment");

    // Corrupt the *first* segment. This is not a crash artifact — a torn tail
    // can only be at the end — so reading past it would silently produce a log
    // with a hole in it.
    let end = written_end(&dir, &segs[0]);
    scribble(&dir, &segs[0], end / 2, 8, 0xff);

    match try_open(&dir) {
        Err(Error::Damaged { .. }) => {}
        Err(e) => panic!("expected Damaged, got {e:?}"),
        Ok(_) => panic!("expected the open to be refused"),
    }
}

#[test]
fn a_headerless_segment_below_the_end_is_also_refused() {
    let dir = empty_dir();
    {
        let (mut log, _) = open(&dir);
        for i in 1..=200u64 {
            log.append(&[entry(1, i)]).unwrap();
        }
        log.sync();
    }
    let segs = segments(&dir);
    assert!(segs.len() > 1);
    put_file(&dir, &segs[0], vec![0u8; 1024]);

    assert!(matches!(
        try_open(&dir),
        Err(Error::Damaged { .. })
    ));
}

#[test]
fn the_log_rolls_segments_and_reads_back_across_them() {
    let dir = empty_dir();
    {
        let (mut log, _) = open(&dir);
        for i in 1..=300u64 {
            log.append(&[entry(1, i)]).unwrap();
        }
        log.sync();
        assert!(log.log.stats().segments > 1, "the test needs a rollover");
    }

    let (log, rec) = open(&dir);
    assert_eq!(rec.entries.len(), 300);
    assert_eq!(log.log.last_index(), 300);
    let slice = log.read(100, 105).unwrap();
    assert_eq!(
        slice.iter().map(|e| e.index).collect::<Vec<_>>(),
        vec![100, 101, 102, 103, 104, 105]
    );
}

#[test]
fn a_snapshot_replaces_the_log_it_covers() {
    let dir = empty_dir();
    {
        let (mut log, _) = open(&dir);
        log.append(&[entry(1, 1), entry(1, 2), entry(1, 3)])
            .unwrap();
        log.install_snapshot(&SnapshotMeta {
            index: 2,
            term: 1,
            conf: ConfState::single(vec![1]),
        })
        .unwrap();
        log.sync();
    }

    let (log, rec) = open(&dir);
    assert_eq!(indices(&rec), vec![3]);
    assert_eq!(rec.snapshot.as_ref().map(|s| s.index), Some(2));
    assert_eq!(log.log.last_index(), 3);
}

#[test]
fn compaction_drops_only_segments_the_snapshot_covers() {
    let dir = empty_dir();
    let (mut log, _) = open(&dir);
    for i in 1..=300u64 {
        log.append(&[entry(1, i)]).unwrap();
    }
    log.sync();
    let before = log.log.stats().segments;
    assert!(before > 2, "the test needs several segments");

    log.install_snapshot(&SnapshotMeta {
        index: 100,
        term: 1,
        conf: ConfState::single(vec![1]),
    })
    .unwrap();
    let removed = log.compact_to(100).unwrap();
    assert!(removed > 0, "at least one whole segment is below index 100");
    assert!(log.log.stats().segments < before);
    drop(log);

    // The hard state and the snapshot were re-emitted before the drop, so they
    // survive losing the segments that originally carried them.
    let (log, rec) = open(&dir);
    assert_eq!(rec.snapshot.as_ref().map(|s| s.index), Some(100));
    assert_eq!(log.log.last_index(), 300);
    assert_eq!(rec.entries.first().map(|e| e.index), Some(101));
}

fn snapshot(index: Index, term: Term) -> SnapshotMeta {
    SnapshotMeta { index, term, conf: ConfState::single(vec![1]) }
}

/// A log whose oldest segments are gone reads back from where it now starts.
#[test]
fn a_compacted_log_reads_back_what_it_holds() {
    let dir = empty_dir();
    let (mut log, _) = open(&dir);
    for i in 1..=300u64 {
        log.append(&[entry(1, i)]).unwrap();
    }
    log.install_snapshot(&snapshot(100, 1)).unwrap();
    assert!(log.compact_to(100).unwrap() > 0);
    let read: Vec<Index> = log.read(101, 105).unwrap().iter().map(|e| e.index).collect();
    assert_eq!(read, vec![101, 102, 103, 104, 105]);
    let all: Vec<Index> = log.read(0, u64::MAX).unwrap().iter().map(|e| e.index).collect();
    assert_eq!(all, (101..=300).collect::<Vec<_>>());
}

/// Entries of one append that fill several segments: each segment starts where the
/// log then stood, so a snapshot near the front covers none of them.
#[test]
fn a_segment_begun_midway_through_an_append_starts_where_the_log_stood() {
    let dir = empty_dir();
    let (mut log, _) = open(&dir);
    let entries: Vec<Entry> = (1..=100)
        .map(|i| Entry::new(1, i, EntryPayload::Normal(vec![7; 20])))
        .collect();
    log.append(&entries).unwrap();
    assert!(log.log.stats().segments >= 3);
    log.install_snapshot(&snapshot(10, 1)).unwrap();
    assert_eq!(log.compact_to(10).unwrap(), 0);
    drop(log);
    let (mut log, rec) = open(&dir);
    assert_eq!(indices(&rec), (11..=100).collect::<Vec<_>>());

    // One further up covers the segments below it, and nothing above it is lost.
    log.install_snapshot(&snapshot(70, 1)).unwrap();
    assert!(log.compact_to(70).unwrap() > 0);
    drop(log);
    let (_, rec) = open(&dir);
    assert_eq!(rec.snapshot.as_ref().map(|s| s.index), Some(70));
    assert_eq!(indices(&rec), (71..=100).collect::<Vec<_>>());
}

/// A truncation below where a later segment starts, and new entries in its place:
/// a compaction that leaves only that segment still leaves all of them.
#[test]
fn a_truncation_below_a_later_segment_survives_a_compaction() {
    let dir = empty_dir();
    let (mut log, _) = open(&dir);
    for i in 1..=200u64 {
        log.append(&[entry(1, i)]).unwrap();
    }
    log.truncate(50).unwrap();
    for i in 50..=120u64 {
        log.append(&[entry(2, i)]).unwrap();
    }
    log.install_snapshot(&snapshot(60, 2)).unwrap();
    log.compact_to(60).unwrap();
    let read: Vec<Index> = log.read(61, 63).unwrap().iter().map(|e| e.index).collect();
    assert_eq!(read, vec![61, 62, 63]);
    drop(log);
    let (mut log, rec) = open(&dir);
    assert_eq!(rec.snapshot.as_ref().map(|s| s.index), Some(60));
    assert_eq!(indices(&rec), (61..=120).collect::<Vec<_>>());
    assert!(rec.entries.iter().all(|e| e.term == 2));

    log.append(&[entry(2, 121)]).unwrap();
    log.install_snapshot(&snapshot(120, 2)).unwrap();
    assert!(log.compact_to(120).unwrap() > 0);
    drop(log);
    let (_, rec) = open(&dir);
    assert_eq!(indices(&rec), vec![121]);
}

/// Records no longer than a segment's header are enough for a log to go on.
#[test]
fn a_log_of_short_records_rolls_and_recovers() {
    let short = |max_record_bytes: u32| LogOptions { segment_bytes: 64, max_record_bytes, ..opts() };
    let disk = empty_dir();
    let opened = |options: LogOptions| {
        let mut effects = Vec::new();
        let files = disk.borrow().files();
        let r = Log::open("log", files, options, &mut effects);
        assert!(disk.borrow_mut().perform_all(&effects), "{effects:?}");
        r
    };
    let (mut log, _) = opened(short(29)).unwrap();
    for i in 1..=40u64 {
        log.append(&[entry(1, i)]).unwrap();
    }
    assert!(log.stats().segments > 5);
    assert!(disk.borrow_mut().perform_all(&log.take_effects()));
    let (_, rec) = opened(short(29)).unwrap();
    assert_eq!(indices(&rec), (1..=40).collect::<Vec<_>>());
    assert!(matches!(opened(short(3)), Err(Error::Damaged { .. })));
}

/// What a first open erased is gone: a second one recovers the same, and finds
/// nothing to discard.
#[test]
fn opening_again_recovers_the_same() {
    let dir = empty_dir();
    let (mut log, _) = open(&dir);
    for i in 1..=80u64 {
        log.append(&[entry(1, i)]).unwrap();
    }
    log.set_hard_state(HardState { term: 1, voted_for: Some(1), commit: 80 }).unwrap();
    log.sync();
    drop(log);
    let last = segments(&dir).pop().unwrap();
    let end = written_end(&dir, &last);
    scribble(&dir, &last, end, 9, 0x5a);
    let (first, one) = open(&dir);
    assert_eq!(one.discarded_tail_bytes, 9);
    let (second, two) = open(&dir);
    assert_eq!(two.discarded_tail_bytes, 0);
    assert_eq!(indices(&two), indices(&one));
    assert_eq!(two.hard_state, one.hard_state);
    assert_eq!(two.segments, one.segments);
    assert_eq!(two.snapshot, one.snapshot);
    assert_eq!(second.log.last_index(), first.log.last_index());
}

#[test]
fn entries_that_do_not_continue_the_log_are_refused_at_the_door() {
    let dir = empty_dir();
    let (mut log, _) = open(&dir);
    log.append(&[entry(1, 1), entry(1, 2)]).unwrap();

    let err = log.append(&[entry(4, 2)]).unwrap_err();
    assert!(
        matches!(
            err,
            Error::Discontiguous {
                expected: 3,
                found: 2
            }
        ),
        "got {err:?}"
    );
}

#[test]
fn a_record_larger_than_the_limit_is_refused() {
    let dir = empty_dir();
    let (mut log, _) = open(&dir);
    let big = Entry::new(1, 1, EntryPayload::Normal(vec![0u8; 1024]));

    assert!(matches!(
        log.append(&[big]),
        Err(Error::RecordTooLarge { .. })
    ));
}

#[test]
fn a_large_ready_is_split_into_recoverable_records() {
    let dir = empty_dir();
    let (mut log, _) = open(&dir);
    let entries: Vec<_> = (1..=6)
        .map(|index| Entry::new(1, index, EntryPayload::Normal(vec![0u8; 180])))
        .collect();

    log.append(&entries).unwrap();
    log.sync();
    drop(log);

    let (_, recovered) = open(&dir);
    assert_eq!(indices(&recovered), (1..=6).collect::<Vec<_>>());
}

/// A sync covers what had been written when it was issued, and nothing later.
/// The token ordering is what the host uses to decide when a `Ready`'s messages
/// may go out.
#[test]
fn a_sync_covers_exactly_what_was_written_before_it() {
    let dir = empty_dir();
    let (mut log, _) = open(&dir);

    let first = log.append(&[entry(1, 1)]).unwrap();
    let durable = log.sync();
    assert!(durable >= first);

    let second = log.append(&[entry(1, 2)]).unwrap();
    assert!(
        second > durable,
        "a later write is not covered by an earlier sync"
    );
    assert_eq!(log.log.durable(), durable);

    let durable = log.sync();
    assert!(durable >= second);
}

#[test]
fn preallocation_leaves_the_segment_at_its_full_size_from_the_start() {
    let dir = empty_dir();
    let (mut log, _) = open(&dir);
    let seg = segments(&dir)[0].clone();
    assert_eq!(file_len(&dir, &seg), opts().segment_bytes);

    log.append(&[entry(1, 1)]).unwrap();
    log.sync();
    assert_eq!(
        file_len(&dir, &seg),
        opts().segment_bytes,
        "an append must never change the file size — that is what keeps a \
         directory fsync off the append path"
    );
}

// ----------------------------------------------------------------------- effects

#[test]
fn a_log_asks_for_contents_before_names() {
    let mut effects = Vec::new();
    let (_, _) = Log::open("log", Vec::new(), opts(), &mut effects).unwrap();
    let name = String::from("seg-0000000000.log");
    assert_eq!(effects.len(), 4);
    assert_eq!(effects[0], Effect::Create { name: name.clone(), allocate: 1024 });
    assert!(matches!(&effects[1], Effect::Write { offset: 0, .. }));
    assert_eq!(effects[2], Effect::Sync { name });
    assert_eq!(effects[3], Effect::SyncDir);
}

#[test]
fn a_sync_with_nothing_staged_asks_for_nothing() {
    let dir = empty_dir();
    let (mut log, _) = open(&dir);
    log.sync();
    assert!(log.log.take_effects().is_empty());
    assert_eq!(log.log.stats().syncs, 0);
    log.append(&[entry(1, 1)]).unwrap();
    log.sync();
    assert_eq!(log.log.stats().syncs, 1);
    assert_eq!(log.log.stats().appends, 1);
}

#[test]
fn a_file_that_is_not_there_cannot_be_written() {
    let mut disk = MemoryDisk::new();
    let write = Effect::Write { name: "a".into(), offset: 3, bytes: vec![7, 8] };
    assert!(!disk.perform(&write));
    assert!(disk.perform(&Effect::Create { name: "a".into(), allocate: 2 }));
    assert!(disk.perform(&write));
    assert_eq!(disk.read("a").unwrap(), vec![0, 0, 0, 7, 8]);
    assert!(disk.perform(&Effect::Erase { name: "a".into(), from: 3, to: 4 }));
    assert_eq!(disk.read("a").unwrap(), vec![0, 0, 0, 0, 8]);
    assert!(disk.perform(&Effect::Remove { name: "a".into() }));
    assert_eq!(disk.read("a"), None);
}

#[test]
fn a_directory_in_memory_keeps_what_a_directory_promises() {
    let mut disk = MemoryDisk::new();
    let create = |name: &str, allocate: u64| Effect::Create { name: name.into(), allocate };
    let write = |name: &str, offset: u64, bytes: &[u8]| Effect::Write {
        name: name.into(),
        offset,
        bytes: bytes.to_vec(),
    };

    // Opening a file again does not lose what it holds.
    assert!(disk.perform(&create("create.bin", 0)));
    assert!(disk.perform(&write("create.bin", 0, b"hello")));
    assert!(disk.perform(&create("create.bin", 0)));
    assert_eq!(disk.read("create.bin").unwrap(), b"hello");

    // A write past the end leaves zeros in the gap.
    assert!(disk.perform(&create("sparse.bin", 0)));
    assert!(disk.perform(&write("sparse.bin", 8, b"xy")));
    assert_eq!(disk.read("sparse.bin").unwrap(), b"\0\0\0\0\0\0\0\0xy");

    // Allocated space reads as zeros, and an allocation never shrinks a file.
    assert!(disk.perform(&create("shrink.bin", 2048)));
    assert_eq!(disk.read("shrink.bin").unwrap(), vec![0; 2048]);
    assert!(disk.perform(&write("shrink.bin", 0, b"keep me")));
    assert!(disk.perform(&create("shrink.bin", 512)));
    let kept = disk.read("shrink.bin").unwrap();
    assert_eq!((kept.len(), &kept[..7]), (2048, &b"keep me"[..]));

    // The size is the high-water mark of allocations and writes.
    assert!(disk.perform(&write("shrink.bin", 4096, b"beyond")));
    assert!(disk.perform(&create("shrink.bin", 1024)));
    assert_eq!(disk.read("shrink.bin").unwrap().len(), 4102);

    // The listing names what was created and not what was removed.
    let names = |disk: &MemoryDisk| {
        disk.files().into_iter().map(|file| file.name).collect::<Vec<String>>()
    };
    assert!(names(&disk).contains(&"sparse.bin".to_string()));
    assert!(disk.perform(&Effect::Remove { name: "sparse.bin".into() }));
    assert!(!names(&disk).contains(&"sparse.bin".to_string()));
    assert!(names(&disk).contains(&"shrink.bin".to_string()));

    // What is missing can be neither read, removed nor synced.
    assert_eq!(disk.read("nope.bin"), None);
    assert!(!disk.perform(&Effect::Remove { name: "nope.bin".into() }));
    assert!(!disk.perform(&Effect::Sync { name: "nope.bin".into() }));
    assert!(disk.perform(&Effect::Sync { name: "shrink.bin".into() }));
    assert!(disk.perform(&Effect::SyncDir));
}

#[test]
fn a_tail_is_erased_a_piece_at_a_time() {
    assert_eq!(erase_chunks(5, 5), vec![]);
    assert_eq!(erase_chunks(5, 9), vec![(5, 4)]);
    assert_eq!(
        erase_chunks(10, 10 + 2 * ERASE_CHUNK + 1),
        vec![
            (10, ERASE_CHUNK),
            (10 + ERASE_CHUNK, ERASE_CHUNK),
            (10 + 2 * ERASE_CHUNK, 1),
        ]
    );
}

#[test]
fn a_lock_that_is_held_is_not_an_io_error() {
    assert!(matches!(
        Error::from_lock(true, "data/log", "would block".into()),
        Error::Locked(dir) if dir == "data/log"
    ));
    assert!(matches!(
        Error::from_lock(false, "data/log", "no space".into()),
        Error::Io(why) if why == "no space"
    ));
}

#[test]
fn only_a_sync_that_reaches_the_device_is_durable() {
    assert!(SyncMode::Durable.is_durable());
    assert!(SyncMode::Full.is_durable());
    assert!(!SyncMode::Barrier.is_durable());
    assert!(!SyncMode::Off.is_durable());
}
