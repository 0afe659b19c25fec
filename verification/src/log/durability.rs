//! What a log promises across a restart.
//!
//! A log is sound when its directory holds exactly its segments, each of them
//! intact, with nothing but zeros above the cursor. Every operation keeps that.
//! What a sound log holds is the fold of the records on its disk, and opening
//! the directory again recovers exactly that, in whatever order the directory
//! lists its files.

use vstd::prelude::*;

use crate::log::error::ErrorView;
use crate::log::fold::{
    entries_above, entries_below, entry_term, folded, lemma_replay_folds_what_a_scan_finds,
    replayed, successor, FoldView,
};
use crate::log::fs::{
    all_grounded, all_performed, grounded, grown, overwritten, performed, Disk, EffectView,
};
use crate::log::journal::{
    batched, batches, cleanup_effects, create_effects, erase_effects, header_fits, header_record, live,
    opened, predecessor, written_above, LogOptions, LogView, RecoveredView, SegmentView,
};
use crate::log::record::{
    lemma_step_reads_frame, lemma_step_stops_at_zeros, lemma_written_len, scanned, step, writable,
    zeros, Outcome, RecordView, SegHeader, Step, Stop, FRAME_HEADER, MAGIC, VERSION,
};
use crate::log::recovery::{
    all_replayed, disk_of, headed, numbered, placed, FileView, FoundView,
};
use crate::log::segment::{
    header_of, law_a_segment_is_found_by_its_name, segment_file, segment_seq,
};
use crate::raft::{EntryView, Index, SnapshotMetaView};
use crate::wire::{lemma_varint_len, lemma_varint_widths, Wire};

verus! {

// ------------------------------------------------------------- one segment

/// A scan ends between where it starts and the end of the file.
proof fn lemma_scan_bounds(bytes: Seq<u8>, pos: int, max: u32)
    requires
        0 <= pos <= bytes.len(),
    ensures
        pos <= scanned(bytes, pos, max).1 <= bytes.len(),
    decreases bytes.len() - pos,
{
    match step(bytes, pos, max) {
        Step::Record(_, end) => {
            if pos < end <= bytes.len() {
                lemma_scan_bounds(bytes, end, max);
            }
        },
        _ => {},
    }
}

/// A record is read from its own bytes alone.
proof fn lemma_step_is_local(a: Seq<u8>, b: Seq<u8>, pos: int, max: u32)
    requires
        0 <= pos <= a.len(),
        a.len() <= b.len(),
        step(a, pos, max) is Record,
        forall|i: int| 0 <= i < step(a, pos, max)->Record_1 && i < a.len() ==> a[i] == b[i],
    ensures
        step(b, pos, max) == step(a, pos, max),
        pos < step(a, pos, max)->Record_1 <= a.len(),
{
    let ra = a.skip(pos);
    let rb = b.skip(pos);
    let len = crate::le::from_le32(ra);
    let end = pos + FRAME_HEADER + len;
    assert(step(a, pos, max)->Record_1 == end);
    assert forall|i: int| 0 <= i < FRAME_HEADER + len implies ra[i] == rb[i] by {
        assert(a[pos + i] == b[pos + i]);
    }
    assert(ra[0] == rb[0] && ra[1] == rb[1] && ra[2] == rb[2] && ra[3] == rb[3]);
    let (ca, cb) = (ra.skip(4), rb.skip(4));
    assert(ca[0] == cb[0] && ca[1] == cb[1] && ca[2] == cb[2] && ca[3] == cb[3]) by {
        assert(ra[4] == rb[4] && ra[5] == rb[5] && ra[6] == rb[6] && ra[7] == rb[7]);
    }
    assert(ra.subrange(FRAME_HEADER as int, FRAME_HEADER + len) =~= rb.subrange(
        FRAME_HEADER as int,
        FRAME_HEADER + len,
    ));
}

/// A scan reads the same records from two files that agree up to where it ends.
proof fn lemma_scan_is_local(a: Seq<u8>, b: Seq<u8>, pos: int, max: u32)
    requires
        0 <= pos <= a.len(),
        a.len() <= b.len(),
        scanned(a, pos, max).2 is Stopped,
        forall|i: int| 0 <= i < scanned(a, pos, max).1 ==> a[i] == b[i],
    ensures
        ({
            let (records, end, _) = scanned(a, pos, max);
            let (more, last, outcome) = scanned(b, end, max);
            scanned(b, pos, max) == (records + more, last, outcome)
        }),
    decreases a.len() - pos,
{
    lemma_scan_bounds(a, pos, max);
    match step(a, pos, max) {
        Step::Record(record, end) => {
            if pos < end <= a.len() {
                lemma_scan_bounds(a, end, max);
                lemma_step_is_local(a, b, pos, max);
                lemma_scan_is_local(a, b, end, max);
                let (records, last, _) = scanned(a, end, max);
                let more = scanned(b, last, max).0;
                assert(seq![record] + (records + more) =~= (seq![record] + records) + more);
            }
        },
        _ => {
            let more = scanned(b, pos, max).0;
            assert(Seq::<RecordView>::empty() + more =~= more);
        },
    }
}

/// Everything from a position on is zero.
pub open spec fn zero_from(bytes: Seq<u8>, pos: int) -> bool {
    forall|i: int| pos <= i < bytes.len() ==> bytes[i] == 0
}

/// A scan that starts where only zeros follow finds nothing.
proof fn lemma_nothing_above(bytes: Seq<u8>, pos: int, max: u32)
    requires
        0 <= pos <= bytes.len(),
        zero_from(bytes, pos),
    ensures
        scanned(bytes, pos, max) == (
            Seq::<RecordView>::empty(),
            pos,
            Outcome::Stopped(Stop::EndOfWrittenRegion),
        ),
{
    let pre = bytes.take(pos);
    let n = (bytes.len() - pos) as nat;
    assert(bytes =~= pre + zeros(n));
    lemma_step_stops_at_zeros(pre, n, max);
}

/// A record written where the scan of a segment ended is the next record that a
/// scan finds, and nothing but zeros follows it.
proof fn lemma_written_record_is_scanned(
    bytes: Seq<u8>,
    pos: int,
    record: RecordView,
    max: u32,
)
    requires
        0 <= pos <= bytes.len(),
        scanned(bytes, pos, max).2 == Outcome::Stopped(Stop::EndOfWrittenRegion),
        zero_from(bytes, scanned(bytes, pos, max).1),
        writable(record, max),
    ensures
        ({
            let (records, end, outcome) = scanned(bytes, pos, max);
            let after = overwritten(bytes, end as nat, record.frame());
            &&& after.len() >= bytes.len()
            &&& after.take(end) == bytes.take(end)
            &&& scanned(after, pos, max) == (
                records.push(record),
                end + record.frame().len(),
                outcome,
            )
            &&& zero_from(after, end + record.frame().len())
            &&& end + record.frame().len() <= after.len()
        }),
{
    let (records, end, outcome) = scanned(bytes, pos, max);
    lemma_scan_bounds(bytes, pos, max);
    let frame = record.frame();
    let after = overwritten(bytes, end as nat, frame);
    let base = grown(bytes, (end + frame.len()) as nat);
    let pre = bytes.take(end);
    let tail = base.skip((end + frame.len()) as int);
    assert(base.take(end) =~= pre);
    assert(after =~= pre + frame + tail);
    assert(forall|i: int| 0 <= i < end ==> bytes[i] == after[i]);
    lemma_scan_is_local(bytes, after, pos, max);
    lemma_step_reads_frame(pre, record, tail, max);
    let next = end + frame.len();
    assert(zero_from(after, next)) by {
        assert forall|i: int| next <= i < after.len() implies after[i] == 0 by {
            assert(after[i] == base[i]);
        }
    }
    lemma_nothing_above(after, next, max);
    assert(seq![record] + Seq::<RecordView>::empty() =~= seq![record]);
    assert(records + seq![record] =~= records.push(record));
    assert(after.take(end) =~= pre);
}

/// A segment whose bytes above the last intact record are erased holds the same
/// records, and ends cleanly.
proof fn lemma_erased_tail_is_not_scanned(bytes: Seq<u8>, pos: int, max: u32)
    requires
        0 <= pos <= bytes.len(),
        scanned(bytes, pos, max).2 is Stopped,
    ensures
        ({
            let (records, end, _) = scanned(bytes, pos, max);
            let count = written_above(bytes, end);
            let after = overwritten(bytes, end as nat, zeros(count));
            &&& after.len() == bytes.len()
            &&& after.take(end) == bytes.take(end)
            &&& scanned(after, pos, max) == (
                records,
                end,
                Outcome::Stopped(Stop::EndOfWrittenRegion),
            )
            &&& zero_from(after, end)
        }),
{
    let (records, end, _) = scanned(bytes, pos, max);
    lemma_scan_bounds(bytes, pos, max);
    lemma_written_len(bytes);
    let count = written_above(bytes, end);
    let after = overwritten(bytes, end as nat, zeros(count));
    assert(after.len() == bytes.len());
    assert(zero_from(after, end));
    assert(forall|i: int| 0 <= i < end ==> bytes[i] == after[i]);
    lemma_scan_is_local(bytes, after, pos, max);
    lemma_nothing_above(after, end, max);
    assert(records + Seq::<RecordView>::empty() =~= records);
    assert(after.take(end) =~= bytes.take(end));
}

/// The records of a segment, its header aside.
pub open spec fn segment_records(bytes: Seq<u8>, max: u32) -> Seq<RecordView> {
    match header_of(bytes, max) {
        Some((_, start)) => scanned(bytes, start, max).0,
        None => Seq::empty(),
    }
}

/// Where the records of a segment end.
pub open spec fn segment_end(bytes: Seq<u8>, max: u32) -> int {
    match header_of(bytes, max) {
        Some((_, start)) => scanned(bytes, start, max).1,
        None => 0,
    }
}

/// Whether a file is a segment with a header that starts where `base_index`
/// says, and records that end cleanly.
pub open spec fn intact(bytes: Seq<u8>, base_index: Index, max: u32) -> bool {
    match header_of(bytes, max) {
        Some((header, start)) => {
            &&& header.base_index == base_index
            &&& scanned(bytes, start, max).2 == Outcome::Stopped(Stop::EndOfWrittenRegion)
        },
        None => false,
    }
}

proof fn lemma_header_bounds(bytes: Seq<u8>, max: u32)
    requires
        header_of(bytes, max) is Some,
    ensures
        0 < (header_of(bytes, max)->Some_0).1 <= bytes.len(),
{
    lemma_step_is_local(bytes, bytes, 0, max);
}

/// A header is read from its own bytes alone.
proof fn lemma_header_is_local(a: Seq<u8>, b: Seq<u8>, end: int, max: u32)
    requires
        header_of(a, max) is Some,
        (header_of(a, max)->Some_0).1 <= end <= a.len() <= b.len(),
        a.take(end) == b.take(end),
    ensures
        header_of(b, max) == header_of(a, max),
{
    lemma_header_bounds(a, max);
    let (ta, tb) = (a.take(end), b.take(end));
    assert forall|i: int| 0 <= i < end implies a[i] == b[i] by {
        assert(ta[i] == a[i]);
        assert(tb[i] == b[i]);
    }
    lemma_step_is_local(a, b, 0, max);
}

/// Writing a record at the end of an intact segment.
proof fn lemma_segment_grows(bytes: Seq<u8>, base_index: Index, record: RecordView, max: u32)
    requires
        intact(bytes, base_index, max),
        zero_from(bytes, segment_end(bytes, max)),
        writable(record, max),
    ensures
        ({
            let end = segment_end(bytes, max);
            let after = overwritten(bytes, end as nat, record.frame());
            &&& 0 <= end
            &&& intact(after, base_index, max)
            &&& segment_records(after, max) == segment_records(bytes, max).push(record)
            &&& segment_end(after, max) == end + record.frame().len()
            &&& zero_from(after, segment_end(after, max))
        }),
{
    let (_, start) = header_of(bytes, max)->0;
    lemma_header_bounds(bytes, max);
    lemma_scan_bounds(bytes, start, max);
    lemma_written_record_is_scanned(bytes, start, record, max);
    let end = segment_end(bytes, max);
    lemma_header_is_local(bytes, overwritten(bytes, end as nat, record.frame()), end, max);
}

/// Whether a record may be as long as the header of any segment takes.
pub open spec fn takes_headers(max: u32) -> bool {
    forall|seq: u64, base_index: Index|
        (#[trigger] header_record(seq, base_index)).body().len() <= max
}

/// A header that a log writes is short.
proof fn lemma_header_is_short(seq: u64, base_index: Index)
    ensures
        header_record(seq, base_index).fits(),
        header_record(seq, base_index).body().len() <= 29,
        header_record(seq, base_index).frame().len() <= 64,
{
    let h = SegHeader { magic: MAGIC, version: VERSION, seq, base_index };
    lemma_varint_widths();
    lemma_varint_len(MAGIC as nat, 5, 15);
    lemma_varint_len(VERSION as nat, 3, 3);
    lemma_varint_len(seq as nat, 10, 1);
    lemma_varint_len(base_index as nat, 10, 1);
    assert(header_record(seq, base_index).payload() == SegHeader::encoding(h));
}

/// Any log that takes records of 29 bytes takes the header of any segment.
pub proof fn law_headers_are_short(max: u32)
    requires
        max >= 29,
    ensures
        takes_headers(max),
{
    assert forall|seq: u64, base_index: Index|
        (#[trigger] header_record(seq, base_index)).body().len() <= max by {
        lemma_header_is_short(seq, base_index);
    }
}

/// The file of a segment that was just created.
pub open spec fn fresh_segment(opts: LogOptions, seq: u64, base_index: Index) -> Seq<u8> {
    overwritten(
        grown(
            Seq::empty(),
            if opts.preallocate {
                opts.segment_bytes as nat
            } else {
                0
            },
        ),
        0,
        header_record(seq, base_index).frame(),
    )
}

proof fn lemma_fresh_segment(opts: LogOptions, seq: u64, base_index: Index, max: u32)
    requires
        header_record(seq, base_index).body().len() <= max,
    ensures
        ({
            let bytes = fresh_segment(opts, seq, base_index);
            let header = header_record(seq, base_index);
            &&& intact(bytes, base_index, max)
            &&& segment_records(bytes, max) == Seq::<RecordView>::empty()
            &&& segment_end(bytes, max) == header.frame().len()
            &&& zero_from(bytes, header.frame().len() as int)
        }),
{
    let bytes = fresh_segment(opts, seq, base_index);
    let header = header_record(seq, base_index);
    lemma_header_is_short(seq, base_index);
    let n = header.frame().len() as int;
    let tail = bytes.skip(n);
    let pre = Seq::<u8>::empty();
    assert(bytes =~= pre + header.frame() + tail);
    lemma_step_reads_frame(pre, header, tail, max);
    assert(zero_from(bytes, n));
    lemma_nothing_above(bytes, n, max);
}

// ------------------------------------------------------------ the whole log

/// The records that the segments of a log hold, in order.
pub open spec fn stream(disk: Disk, segments: Seq<SegmentView>, max: u32) -> Seq<RecordView>
    decreases segments.len(),
{
    if segments.len() == 0 {
        Seq::empty()
    } else {
        stream(disk, segments.drop_last(), max) + segment_records(disk[segments.last().name], max)
    }
}

/// Whether segments are numbered upwards, under names that say so.
pub open spec fn ordered(segments: Seq<SegmentView>) -> bool {
    &&& forall|i: int|
        0 <= i < segments.len() ==> segment_seq((#[trigger] segments[i]).name) == Some(
            segments[i].seq,
        )
    &&& forall|i: int, j: int|
        0 <= i < j < segments.len() ==> (#[trigger] segments[i]).seq < (#[trigger] segments[j]).seq
}

/// Whether every segment is there, intact.
pub open spec fn all_intact(disk: Disk, segments: Seq<SegmentView>, max: u32) -> bool {
    forall|i: int|
        0 <= i < segments.len() ==> {
            &&& disk.contains_key((#[trigger] segments[i]).name)
            &&& intact(disk[segments[i].name], segments[i].base_index, max)
        }
}

/// Whether a directory holds no segment but these.
pub open spec fn no_other(disk: Disk, segments: Seq<SegmentView>) -> bool {
    forall|name: Seq<char>| #[trigger]
        disk.contains_key(name) && segment_seq(name) is Some ==> exists|i: int|
            0 <= i < segments.len() && (#[trigger] segments[i]).name == name
}

impl LogView {
    /// Whether the directory holds the log's segments and no others, each of
    /// them intact, with nothing but zeros above the cursor.
    pub open spec fn complete(self) -> bool {
        let max = self.opts.max_record_bytes;
        &&& self.segments.len() > 0
        &&& all_intact(self.disk, self.segments, max)
        &&& no_other(self.disk, self.segments)
        &&& self.cursor == segment_end(self.disk[self.current().name], max)
        &&& zero_from(self.disk[self.current().name], self.cursor as int)
    }

    /// Whether a log is complete, and its segments are numbered upwards.
    pub open spec fn sound(self) -> bool {
        &&& ordered(self.segments)
        &&& self.complete()
    }

    /// The records on the log's disk.
    pub open spec fn records(self) -> Seq<RecordView> {
        stream(self.disk, self.segments, self.opts.max_record_bytes)
    }

    /// What the records on the log's disk amount to.
    pub open spec fn held(self) -> Result<FoldView, ErrorView> {
        folded(
            FoldView::starting_at(predecessor(self.segments[0].base_index)),
            self.records(),
        )
    }
}

/// The stream of segments that two directories agree on.
proof fn lemma_stream_agrees(a: Disk, b: Disk, segments: Seq<SegmentView>, max: u32)
    requires
        forall|i: int|
            0 <= i < segments.len() ==> a[(#[trigger] segments[i]).name] == b[segments[i].name],
    ensures
        stream(a, segments, max) == stream(b, segments, max),
    decreases segments.len(),
{
    if segments.len() > 0 {
        assert(segments.last() == segments[segments.len() - 1]);
        assert forall|i: int| 0 <= i < segments.drop_last().len() implies a[(
        #[trigger] segments.drop_last()[i]).name] == b[segments.drop_last()[i].name] by {
            assert(segments.drop_last()[i] == segments[i]);
        }
        lemma_stream_agrees(a, b, segments.drop_last(), max);
    }
}

/// Segments with different numbers have different names.
proof fn lemma_names_differ(segments: Seq<SegmentView>, i: int, j: int)
    requires
        ordered(segments),
        0 <= i < segments.len(),
        0 <= j < segments.len(),
        i != j,
    ensures
        segments[i].name != segments[j].name,
{
    assert(segments[i].seq != segments[j].seq) by {
        if i < j {
            assert(segments[i].seq < segments[j].seq);
        } else {
            assert(segments[j].seq < segments[i].seq);
        }
    }
}

/// One more effect performed.
proof fn lemma_performed_snoc(disk: Disk, effects: Seq<EffectView>, e: EffectView)
    ensures
        all_performed(disk, effects.push(e)) == performed(all_performed(disk, effects), e),
{
    assert(effects.push(e).drop_last() =~= effects);
}

proof fn lemma_performed_one(disk: Disk, e: EffectView)
    ensures
        all_performed(disk, seq![e]) == performed(disk, e),
{
    assert(Seq::<EffectView>::empty().push(e) =~= seq![e]);
    lemma_performed_snoc(disk, Seq::empty(), e);
}

/// Writing a record to the current segment keeps a log sound, and adds the
/// record to its stream.
proof fn lemma_put(log: LogView, record: RecordView)
    requires
        log.sound(),
        writable(record, log.opts.max_record_bytes),
        log.cursor + record.frame().len() <= u64::MAX,
    ensures
        log.put(record).sound(),
        log.put(record).records() == log.records().push(record),
        log.put(record).segments == log.segments,
        log.put(record).opts == log.opts,
{
    let max = log.opts.max_record_bytes;
    let next = log.put(record);
    let name = log.current().name;
    let n = log.segments.len() - 1;
    assert(log.segments[n] == log.current());
    let write = EffectView::Write { name, offset: log.cursor, bytes: record.frame() };
    lemma_performed_one(log.disk, write);
    let bytes = log.disk[name];
    lemma_segment_grows(bytes, log.current().base_index, record, max);
    assert(next.disk == log.disk.insert(name, overwritten(bytes, log.cursor as nat, record.frame())));
    assert forall|i: int| 0 <= i < n implies next.disk[(#[trigger] log.segments[i]).name]
        == log.disk[log.segments[i].name] by {
        lemma_names_differ(log.segments, i, n);
    }
    let before = log.segments.drop_last();
    assert forall|i: int| 0 <= i < before.len() implies next.disk[(#[trigger] before[i]).name]
        == log.disk[before[i].name] by {
        assert(before[i] == log.segments[i]);
    }
    lemma_stream_agrees(next.disk, log.disk, before, max);
    assert(next.records() =~= log.records().push(record));
    assert(all_intact(next.disk, next.segments, max)) by {
        assert forall|i: int| 0 <= i < next.segments.len() implies {
            &&& next.disk.contains_key((#[trigger] next.segments[i]).name)
            &&& intact(next.disk[next.segments[i].name], next.segments[i].base_index, max)
        } by {
            if i < n {
                assert(next.disk[log.segments[i].name] == log.disk[log.segments[i].name]);
            }
        }
    }
    assert(no_other(next.disk, next.segments)) by {
        assert forall|other: Seq<char>| #[trigger]
            next.disk.contains_key(other) && segment_seq(other) is Some implies exists|i: int|
            0 <= i < next.segments.len() && (#[trigger] next.segments[i]).name == other by {
            if other == name {
                assert(next.segments[n].name == other);
            } else {
                assert(log.disk.contains_key(other));
            }
        }
    }
}

/// What the directory holds once a segment was created in it.
proof fn lemma_create_performed(disk: Disk, opts: LogOptions, seq: u64, base_index: Index)
    requires
        !disk.contains_key(segment_file(seq)),
    ensures
        all_performed(disk, create_effects(opts, seq, base_index)) == disk.insert(
            segment_file(seq),
            fresh_segment(opts, seq, base_index),
        ),
{
    let all = create_effects(opts, seq, base_index);
    let none = Seq::<EffectView>::empty();
    lemma_performed_snoc(disk, none, all[0]);
    lemma_performed_snoc(disk, none.push(all[0]), all[1]);
    lemma_performed_snoc(disk, none.push(all[0]).push(all[1]), all[2]);
    lemma_performed_snoc(disk, none.push(all[0]).push(all[1]).push(all[2]), all[3]);
    assert(none.push(all[0]).push(all[1]).push(all[2]).push(all[3]) =~= all);
    assert(all_performed(disk, none) == disk);
    assert(all_performed(disk, all) =~= disk.insert(
        segment_file(seq),
        fresh_segment(opts, seq, base_index),
    ));
}

/// A segment added to a sound directory.
proof fn lemma_segment_added(
    log: LogView,
    next: LogView,
    seq: u64,
    base_index: Index,
)
    requires
        log.segments.len() > 0 ==> log.segments.last().seq < seq,
        ordered(log.segments),
        all_intact(log.disk, log.segments, log.opts.max_record_bytes),
        no_other(log.disk, log.segments),
        header_record(seq, base_index).body().len() <= log.opts.max_record_bytes,
        next.opts == log.opts,
        next.segments == log.segments.push(
            SegmentView { seq, name: segment_file(seq), base_index },
        ),
        next.disk == log.disk.insert(segment_file(seq), fresh_segment(log.opts, seq, base_index)),
        next.cursor == header_record(seq, base_index).frame().len(),
    ensures
        next.sound(),
        next.records() == log.records(),
{
    let max = log.opts.max_record_bytes;
    let name = segment_file(seq);
    let n = log.segments.len() as int;
    law_a_segment_is_found_by_its_name(seq);
    lemma_fresh_segment(log.opts, seq, base_index, max);
    assert forall|i: int| 0 <= i < n implies (#[trigger] log.segments[i]).seq < seq
        && log.segments[i].name != name by {
        if i < n - 1 {
            assert(log.segments[i].seq < log.segments[n - 1].seq);
        }
    }
    assert(next.segments.drop_last() =~= log.segments);
    assert forall|i: int| 0 <= i < n implies next.disk[(#[trigger] log.segments[i]).name]
        == log.disk[log.segments[i].name] by {}
    lemma_stream_agrees(next.disk, log.disk, log.segments, max);
    assert(next.records() =~= log.records());
    assert(ordered(next.segments)) by {
        assert forall|i: int| 0 <= i < next.segments.len() implies segment_seq(
            (#[trigger] next.segments[i]).name,
        ) == Some(next.segments[i].seq) by {
            if i < n {
                assert(next.segments[i] == log.segments[i]);
            }
        }
        assert forall|i: int, j: int| 0 <= i < j < next.segments.len() implies (
        #[trigger] next.segments[i]).seq < (#[trigger] next.segments[j]).seq by {
            assert(next.segments[i] == log.segments[i]);
            if j < n {
                assert(next.segments[j] == log.segments[j]);
            }
        }
    }
    assert(all_intact(next.disk, next.segments, max)) by {
        assert forall|i: int| 0 <= i < next.segments.len() implies {
            &&& next.disk.contains_key((#[trigger] next.segments[i]).name)
            &&& intact(next.disk[next.segments[i].name], next.segments[i].base_index, max)
        } by {
            if i < n {
                assert(next.segments[i] == log.segments[i]);
            }
        }
    }
    assert(no_other(next.disk, next.segments)) by {
        assert forall|other: Seq<char>| #[trigger]
            next.disk.contains_key(other) && segment_seq(other) is Some implies exists|i: int|
            0 <= i < next.segments.len() && (#[trigger] next.segments[i]).name == other by {
            if other == name {
                assert(next.segments[n].name == other);
            } else {
                assert(log.disk.contains_key(other));
                let i = choose|i: int|
                    0 <= i < log.segments.len() && (#[trigger] log.segments[i]).name == other;
                assert(next.segments[i] == log.segments[i]);
            }
        }
    }
    assert(next.current().name == name);
}

/// Rolling to a new segment keeps a log sound, and its stream as it was.
proof fn lemma_rolled(log: LogView)
    requires
        log.sound(),
        takes_headers(log.opts.max_record_bytes),
        log.rolled() is Ok,
    ensures
        log.rolled()->Ok_0.sound(),
        log.rolled()->Ok_0.records() == log.records(),
        log.rolled()->Ok_0.segments[0] == log.segments[0],
        log.rolled()->Ok_0.opts == log.opts,
        log.rolled()->Ok_0.cursor <= 64,
{
    let next = log.rolled()->Ok_0;
    let seq = (log.current().seq + 1) as u64;
    let base_index = successor(log.last_index);
    let sync = EffectView::Sync { name: log.current().name };
    lemma_performed_one(log.disk, sync);
    assert(all_performed(log.disk, seq![sync]) == log.disk);
    let name = segment_file(seq);
    law_a_segment_is_found_by_its_name(seq);
    assert(!log.disk.contains_key(name)) by {
        if log.disk.contains_key(name) {
            let i = choose|i: int|
                0 <= i < log.segments.len() && (#[trigger] log.segments[i]).name == name;
            let n = log.segments.len() - 1;
            if i < n {
                assert(log.segments[i].seq < log.segments[n].seq);
            }
        }
    }
    lemma_create_performed(log.disk, log.opts, seq, base_index);
    lemma_header_is_short(seq, base_index);
    lemma_segment_added(log, next, seq, base_index);
}

/// Whatever is staged to a sound log is the next record on its disk, and nothing
/// that was there is lost.
pub proof fn law_a_staged_record_is_on_disk(log: LogView, record: RecordView)
    requires
        log.sound(),
        takes_headers(log.opts.max_record_bytes),
        record.fits(),
        log.staged(record) is Ok,
    ensures
        log.staged(record)->Ok_0.sound(),
        log.staged(record)->Ok_0.records() == log.records().push(record),
        log.staged(record)->Ok_0.segments[0] == log.segments[0],
        log.staged(record)->Ok_0.opts == log.opts,
{
    assert(record.frame().len() == FRAME_HEADER + record.body().len());
    if log.has_room(record) {
        lemma_put(log, record);
    } else {
        lemma_rolled(log);
        lemma_put(log.rolled()->Ok_0, record);
    }
}

// --------------------------------------------------------------- reopening

/// Records folded in two parts.
pub proof fn lemma_folded_concat(f: FoldView, a: Seq<RecordView>, b: Seq<RecordView>)
    ensures
        folded(f, a + b) == (match folded(f, a) {
            Ok(g) => folded(g, b),
            Err(e) => Err(e),
        }),
    decreases a.len(),
{
    if a.len() == 0 {
        assert(a + b =~= b);
    } else {
        assert((a + b).skip(1) =~= a.skip(1) + b);
        assert((a + b)[0] == a[0]);
        match f.applied(a[0]) {
            Ok(next) => {
                lemma_folded_concat(next, a.skip(1), b);
            },
            Err(_) => {},
        }
    }
}

/// One more record folded.
proof fn lemma_folded_snoc(f: FoldView, records: Seq<RecordView>, record: RecordView)
    ensures
        folded(f, records.push(record)) == (match folded(f, records) {
            Ok(g) => g.applied(record),
            Err(e) => Err(e),
        }),
{
    let one = seq![record];
    assert(records.push(record) =~= records + one);
    lemma_folded_concat(f, records, one);
    assert(one.skip(1) =~= Seq::empty());
    match folded(f, records) {
        Ok(g) => {
            match g.applied(record) {
                Ok(h) => {
                    assert(folded(h, one.skip(1)) == Ok::<FoldView, ErrorView>(h));
                },
                Err(_) => {},
            }
        },
        Err(_) => {},
    }
}

/// The stream of a log begins with the records of its oldest segment.
proof fn lemma_stream_front(disk: Disk, segments: Seq<SegmentView>, max: u32)
    requires
        segments.len() > 0,
    ensures
        stream(disk, segments, max) == segment_records(disk[segments[0].name], max) + stream(
            disk,
            segments.skip(1),
            max,
        ),
    decreases segments.len(),
{
    let others = segments.skip(1);
    if others.len() == 0 {
        assert(segments.drop_last() =~= others);
        assert(stream(disk, others, max) =~= Seq::empty());
        assert(stream(disk, segments, max) =~= segment_records(disk[segments[0].name], max)
            + stream(disk, others, max));
    } else {
        lemma_stream_front(disk, segments.drop_last(), max);
        assert(segments.drop_last().skip(1) =~= others.drop_last());
        assert(others.last() == segments.last());
        assert(stream(disk, segments, max) =~= segment_records(disk[segments[0].name], max)
            + stream(disk, others, max));
    }
}

/// A segment as recovery finds it.
pub open spec fn found_of(disk: Disk, segment: SegmentView, max: u32) -> FoundView {
    FoundView {
        seq: segment.seq,
        name: segment.name,
        bytes: disk[segment.name],
        base_index: segment.base_index,
        start: (header_of(disk[segment.name], max)->Some_0).1,
    }
}

/// The segments of a log as recovery finds them.
pub open spec fn all_found(disk: Disk, segments: Seq<SegmentView>, max: u32) -> Seq<FoundView> {
    segments.map_values(|s: SegmentView| found_of(disk, s, max))
}

/// Whether the segments of a directory can be read in order: each has its header,
/// and none but the newest ends in a tear.
pub open spec fn readable(disk: Disk, segments: Seq<SegmentView>, max: u32) -> bool {
    forall|i: int|
        0 <= i < segments.len() ==> {
            &&& disk.contains_key((#[trigger] segments[i]).name)
            &&& match header_of(disk[segments[i].name], max) {
                Some((header, start)) => {
                    let outcome = scanned(disk[segments[i].name], start, max).2;
                    &&& header.base_index == segments[i].base_index
                    &&& outcome is Stopped
                    &&& i < segments.len() - 1 ==> outcome == Outcome::Stopped(
                        Stop::EndOfWrittenRegion,
                    )
                },
                None => false,
            }
        }
}

/// Segments that are intact can be read in order.
proof fn lemma_intact_is_readable(disk: Disk, segments: Seq<SegmentView>, max: u32)
    requires
        all_intact(disk, segments, max),
    ensures
        readable(disk, segments, max),
{
    assert forall|i: int| 0 <= i < segments.len() implies disk.contains_key(
        (#[trigger] segments[i]).name,
    ) && intact(disk[segments[i].name], segments[i].base_index, max) by {}
}

/// Segments that can be read in order can be without the oldest of them.
proof fn lemma_readable_rest(disk: Disk, segments: Seq<SegmentView>, max: u32)
    requires
        segments.len() > 0,
        readable(disk, segments, max),
    ensures
        readable(disk, segments.skip(1), max),
{
    let others = segments.skip(1);
    assert forall|i: int| 0 <= i < others.len() implies {
        &&& disk.contains_key((#[trigger] others[i]).name)
        &&& match header_of(disk[others[i].name], max) {
            Some((header, start)) => {
                let outcome = scanned(disk[others[i].name], start, max).2;
                &&& header.base_index == others[i].base_index
                &&& outcome is Stopped
                &&& i < others.len() - 1 ==> outcome == Outcome::Stopped(Stop::EndOfWrittenRegion)
            },
            None => false,
        }
    } by {
        assert(others[i] == segments[i + 1]);
    }
}

/// Replaying segments folds the stream they make up.
proof fn lemma_replay_folds_the_stream(
    dir: Seq<char>,
    f: FoldView,
    disk: Disk,
    segments: Seq<SegmentView>,
    max: u32,
)
    requires
        segments.len() > 0,
        readable(disk, segments, max),
    ensures
        all_replayed(dir, f, all_found(disk, segments, max), max) == (match folded(
            f,
            stream(disk, segments, max),
        ) {
            Ok(g) => Ok::<(FoldView, int), ErrorView>(
                (g, segment_end(disk[segments.last().name], max)),
            ),
            Err(e) => Err(e),
        }),
    decreases segments.len(),
{
    let found = all_found(disk, segments, max);
    let first = segments[0];
    let bytes = disk[first.name];
    assert(found[0] == found_of(disk, first, max));
    let start = found[0].start;
    lemma_replay_folds_what_a_scan_finds(f, bytes, start, max);
    let records = segment_records(bytes, max);
    lemma_stream_front(disk, segments, max);
    lemma_folded_concat(f, records, stream(disk, segments.skip(1), max));
    let others = segments.skip(1);
    assert(found.skip(1) =~= all_found(disk, others, max));
    if segments.len() == 1 {
        assert(stream(disk, others, max) =~= Seq::empty());
    } else {
        lemma_readable_rest(disk, segments, max);
        match folded(f, records) {
            Ok(g) => {
                lemma_replay_folds_the_stream(dir, g, disk, others, max);
                assert(others.last() == segments.last());
            },
            Err(_) => {},
        }
    }
}

/// Intact segments are found, and none is missing its header.
proof fn lemma_headed(
    dir: Seq<char>,
    disk: Disk,
    segments: Seq<SegmentView>,
    files: Seq<(u64, FileView)>,
    max: u32,
)
    requires
        readable(disk, segments, max),
        files.len() == segments.len(),
        forall|i: int|
            0 <= i < files.len() ==> #[trigger] files[i] == (
                segments[i].seq,
                FileView { name: segments[i].name, bytes: disk[segments[i].name] },
            ),
    ensures
        headed(dir, files, max) == Ok::<(Seq<FoundView>, Option<Seq<char>>), ErrorView>(
            (all_found(disk, segments, max), None),
        ),
    decreases segments.len(),
{
    if segments.len() == 0 {
        assert(all_found(disk, segments, max) =~= Seq::empty());
    } else {
        let others = segments.skip(1);
        assert(files[0].0 == segments[0].seq);
        assert forall|i: int| 0 <= i < files.skip(1).len() implies #[trigger] files.skip(1)[i] == (
            others[i].seq,
            FileView { name: others[i].name, bytes: disk[others[i].name] },
        ) by {
            assert(files.skip(1)[i] == files[i + 1]);
            assert(others[i] == segments[i + 1]);
        }
        lemma_readable_rest(disk, segments, max);
        lemma_headed(dir, disk, others, files.skip(1), max);
        assert(seq![found_of(disk, segments[0], max)] + all_found(disk, others, max) =~= all_found(
            disk,
            segments,
            max,
        ));
    }
}

/// Whether numbered files are in strictly increasing order.
pub open spec fn ascending(found: Seq<(u64, FileView)>) -> bool {
    forall|i: int, j: int|
        0 <= i < j < found.len() ==> (#[trigger] found[i]).0 < (#[trigger] found[j]).0
}

/// What is put in its place joins what was there.
proof fn lemma_placed_holds(found: Seq<(u64, FileView)>, one: (u64, FileView))
    ensures
        placed(found, one).len() == found.len() + 1,
        forall|x: (u64, FileView)| #[trigger]
            placed(found, one).contains(x) <==> found.contains(x) || x == one,
    decreases found.len(),
{
    let all = placed(found, one);
    if found.len() == 0 || found.last().0 <= one.0 {
        assert(all == found.push(one));
        assert forall|x: (u64, FileView)| #[trigger] all.contains(x) <==> found.contains(x) || x
            == one by {
            if all.contains(x) {
                let i = choose|i: int| 0 <= i < all.len() && all[i] == x;
                if i < found.len() {
                    assert(found[i] == x);
                }
            }
            if found.contains(x) {
                let i = choose|i: int| 0 <= i < found.len() && found[i] == x;
                assert(all[i] == x);
            }
            if x == one {
                assert(all[found.len() as int] == x);
            }
        }
    } else {
        let head = found.drop_last();
        let last = found.last();
        assert(forall|i: int| 0 <= i < head.len() ==> (#[trigger] head[i]) == found[i]);
        lemma_placed_holds(head, one);
        let body = placed(head, one);
        assert(all == body.push(last));
        assert forall|x: (u64, FileView)| #[trigger] all.contains(x) <==> found.contains(x) || x
            == one by {
            if all.contains(x) {
                let i = choose|i: int| 0 <= i < all.len() && all[i] == x;
                if i < body.len() {
                    assert(body[i] == x);
                    assert(body.contains(x));
                    if head.contains(x) {
                        let k = choose|k: int| 0 <= k < head.len() && head[k] == x;
                        assert(found[k] == x);
                    }
                } else {
                    assert(found[found.len() - 1] == x);
                }
            }
            if found.contains(x) {
                let i = choose|i: int| 0 <= i < found.len() && found[i] == x;
                if i < head.len() {
                    assert(head[i] == x);
                    assert(body.contains(x));
                    let k = choose|k: int| 0 <= k < body.len() && body[k] == x;
                    assert(all[k] == x);
                } else {
                    assert(all[body.len() as int] == x);
                }
            }
            if x == one {
                assert(body.contains(x));
                let k = choose|k: int| 0 <= k < body.len() && body[k] == x;
                assert(all[k] == x);
            }
        }
    }
}

/// Whether numbered files are in order, those of one number in any.
spec fn rising(found: Seq<(u64, FileView)>) -> bool {
    forall|i: int, j: int|
        0 <= i < j < found.len() ==> (#[trigger] found[i]).0 <= (#[trigger] found[j]).0
}

/// Whether no two numbered files have the same name.
spec fn apart(found: Seq<(u64, FileView)>) -> bool {
    forall|i: int, j: int|
        0 <= i < j < found.len() ==> (#[trigger] found[i]).1.name != (#[trigger] found[j]).1.name
}

/// What is put in its place leaves the rest in order and apart.
proof fn lemma_placed_in_order(found: Seq<(u64, FileView)>, one: (u64, FileView))
    requires
        rising(found),
        apart(found),
        forall|i: int| 0 <= i < found.len() ==> (#[trigger] found[i]).1.name != one.1.name,
    ensures
        rising(placed(found, one)),
        apart(placed(found, one)),
    decreases found.len(),
{
    let all = placed(found, one);
    if found.len() == 0 || found.last().0 <= one.0 {
        assert forall|i: int, j: int| 0 <= i < j < all.len() implies (#[trigger] all[i]).0 <= (
        #[trigger] all[j]).0 && all[i].1.name != all[j].1.name by {
            if j == found.len() && i < found.len() - 1 {
                assert(found[i].0 <= found[found.len() - 1].0);
            }
        }
    } else {
        let head = found.drop_last();
        let last = found.last();
        assert(forall|i: int| 0 <= i < head.len() ==> (#[trigger] head[i]) == found[i]);
        lemma_placed_in_order(head, one);
        lemma_placed_holds(head, one);
        let body = placed(head, one);
        assert(all == body.push(last));
        assert forall|i: int| 0 <= i < body.len() implies (#[trigger] body[i]).0 <= last.0
            && body[i].1.name != last.1.name by {
            assert(body.contains(body[i]));
            assert(found[found.len() - 1] == last);
            if head.contains(body[i]) {
                let k = choose|k: int| 0 <= k < head.len() && head[k] == body[i];
                assert(found[k].0 <= found[found.len() - 1].0);
                assert(found[k].1.name != found[found.len() - 1].1.name);
            }
        }
    }
}

/// Whether a file is one of some, under a number.
pub open spec fn is_numbered(files: Seq<FileView>, x: (u64, FileView)) -> bool {
    exists|i: int|
        0 <= i < files.len() && #[trigger] files[i] == x.1 && segment_seq(files[i].name) == Some(
            x.0,
        )
}

/// Whether no two files claim the same number.
pub open spec fn distinct_numbers(files: Seq<FileView>) -> bool {
    forall|i: int, j: int|
        0 <= i < j < files.len() && segment_seq((#[trigger] files[i]).name) is Some
            ==> segment_seq(files[i].name) != segment_seq((#[trigger] files[j]).name)
}

/// The files of a directory are put in order, and none is lost or made up.
proof fn lemma_numbered_holds(files: Seq<FileView>)
    requires
        distinct_names(files),
    ensures
        rising(numbered(files)),
        apart(numbered(files)),
        forall|x: (u64, FileView)| #[trigger]
            numbered(files).contains(x) <==> is_numbered(files, x),
    decreases files.len(),
{
    if files.len() > 0 {
        let head = files.drop_last();
        let last = files.last();
        assert(forall|i: int| 0 <= i < head.len() ==> #[trigger] head[i] == files[i]);
        lemma_numbered_holds(head);
        let before = numbered(head);
        let n = files.len() - 1;
        match segment_seq(last.name) {
            Some(seq) => {
                assert forall|i: int| 0 <= i < before.len() implies (#[trigger] before[i]).1.name
                    != last.name by {
                    assert(before.contains(before[i]));
                    let k = choose|k: int|
                        0 <= k < head.len() && #[trigger] head[k] == before[i].1 && segment_seq(
                            head[k].name,
                        ) == Some(before[i].0);
                    assert(files[k] == head[k]);
                    assert(files[n] == last);
                }
                lemma_placed_in_order(before, (seq, last));
                lemma_placed_holds(before, (seq, last));
            },
            None => {},
        }
        assert forall|x: (u64, FileView)| #[trigger] numbered(files).contains(x) <==> is_numbered(
            files,
            x,
        ) by {
            if numbered(files).contains(x) {
                if before.contains(x) {
                    let k = choose|k: int|
                        0 <= k < head.len() && #[trigger] head[k] == x.1 && segment_seq(
                            head[k].name,
                        ) == Some(x.0);
                    assert(files[k] == x.1);
                } else {
                    assert(files[n] == x.1);
                }
            }
            if is_numbered(files, x) {
                let k = choose|k: int|
                    0 <= k < files.len() && #[trigger] files[k] == x.1 && segment_seq(files[k].name)
                        == Some(x.0);
                if k < n {
                    assert(head[k] == x.1);
                    assert(is_numbered(head, x));
                    assert(before.contains(x));
                }
            }
        }
    }
}

/// Files whose numbers differ are put in ascending order.
proof fn lemma_numbered(files: Seq<FileView>)
    requires
        distinct_names(files),
        distinct_numbers(files),
    ensures
        ascending(numbered(files)),
        forall|x: (u64, FileView)| #[trigger]
            numbered(files).contains(x) <==> is_numbered(files, x),
{
    lemma_numbered_holds(files);
    let all = numbered(files);
    assert forall|i: int, j: int| 0 <= i < j < all.len() implies (#[trigger] all[i]).0 < (
    #[trigger] all[j]).0 by {
        assert(all.contains(all[i]) && all.contains(all[j]));
        let k = choose|k: int|
            0 <= k < files.len() && #[trigger] files[k] == all[i].1 && segment_seq(files[k].name)
                == Some(all[i].0);
        let m = choose|m: int|
            0 <= m < files.len() && #[trigger] files[m] == all[j].1 && segment_seq(files[m].name)
                == Some(all[j].0);
        if all[i].0 == all[j].0 {
            if k < m {
                assert(segment_seq(files[k].name) != segment_seq(files[m].name));
            } else if m < k {
                assert(segment_seq(files[m].name) != segment_seq(files[k].name));
            }
        }
    }
}

/// Two ascending sequences of the same files are the same.
proof fn lemma_ascending_is_unique(a: Seq<(u64, FileView)>, b: Seq<(u64, FileView)>)
    requires
        ascending(a),
        ascending(b),
        forall|x: (u64, FileView)| #[trigger] a.contains(x) <==> b.contains(x),
    ensures
        a == b,
    decreases a.len(),
{
    if a.len() == 0 {
        if b.len() > 0 {
            assert(b.contains(b[0]));
            assert(a.contains(b[0]));
        }
        assert(a =~= b);
    } else {
        assert(a.contains(a[0]));
        assert(b.contains(a[0]));
        assert(b.len() > 0);
        let (la, lb) = (a.last(), b.last());
        assert(a[a.len() - 1] == la && b[b.len() - 1] == lb);
        assert(a.contains(la) && b.contains(lb));
        assert(b.contains(la) && a.contains(lb));
        let i = choose|i: int| 0 <= i < b.len() && b[i] == la;
        let j = choose|j: int| 0 <= j < a.len() && a[j] == lb;
        if i < b.len() - 1 {
            assert(b[i].0 < b[b.len() - 1].0);
            if j < a.len() - 1 {
                assert(a[j].0 < a[a.len() - 1].0);
            }
        }
        assert(la == lb);
        let (ha, hb) = (a.drop_last(), b.drop_last());
        assert forall|x: (u64, FileView)| #[trigger] ha.contains(x) <==> hb.contains(x) by {
            if ha.contains(x) {
                let k = choose|k: int| 0 <= k < ha.len() && ha[k] == x;
                assert(a[k] == x && a[k].0 < a[a.len() - 1].0);
                assert(a.contains(x));
                let m = choose|m: int| 0 <= m < b.len() && b[m] == x;
                assert(m < b.len() - 1);
                assert(hb[m] == x);
            }
            if hb.contains(x) {
                let k = choose|k: int| 0 <= k < hb.len() && hb[k] == x;
                assert(b[k] == x && b[k].0 < b[b.len() - 1].0);
                assert(b.contains(x));
                assert(a.contains(x));
                let m = choose|m: int| 0 <= m < a.len() && a[m] == x;
                assert(m < a.len() - 1);
                assert(ha[m] == x);
            }
        }
        lemma_ascending_is_unique(ha, hb);
        assert(a =~= ha.push(la));
        assert(b =~= hb.push(lb));
    }
}

/// Whether no two files share a name.
pub open spec fn distinct_names(files: Seq<FileView>) -> bool {
    forall|i: int, j: int|
        0 <= i < j < files.len() ==> (#[trigger] files[i]).name != (#[trigger] files[j]).name
}

/// What a directory of distinct files holds.
proof fn lemma_disk_of(files: Seq<FileView>)
    requires
        distinct_names(files),
    ensures
        forall|i: int|
            0 <= i < files.len() ==> disk_of(files).contains_key((#[trigger] files[i]).name)
                && disk_of(files)[files[i].name] == files[i].bytes,
        forall|name: Seq<char>| #[trigger]
            disk_of(files).contains_key(name) ==> exists|i: int|
                0 <= i < files.len() && (#[trigger] files[i]).name == name,
    decreases files.len(),
{
    if files.len() > 0 {
        let head = files.drop_last();
        let n = files.len() - 1;
        assert(forall|i: int| 0 <= i < head.len() ==> #[trigger] head[i] == files[i]);
        lemma_disk_of(head);
        assert forall|i: int| 0 <= i < files.len() implies disk_of(files).contains_key(
            (#[trigger] files[i]).name,
        ) && disk_of(files)[files[i].name] == files[i].bytes by {
            if i < n {
                assert(head[i] == files[i]);
                assert(files[i].name != files[n].name);
            }
        }
        assert forall|name: Seq<char>| #[trigger] disk_of(files).contains_key(name) implies exists|
            i: int,
        |
            0 <= i < files.len() && (#[trigger] files[i]).name == name by {
            if name == files.last().name {
                assert(files[n].name == name);
            } else {
                assert(disk_of(head).contains_key(name));
                let k = choose|k: int| 0 <= k < head.len() && (#[trigger] head[k]).name == name;
                assert(files[k].name == name);
            }
        }
    }
}

/// The files of a directory that holds a log's segments and no others differ in
/// their numbers.
proof fn lemma_numbers_differ(segments: Seq<SegmentView>, files: Seq<FileView>)
    requires
        ordered(segments),
        distinct_names(files),
        no_other(disk_of(files), segments),
    ensures
        distinct_numbers(files),
{
    lemma_disk_of(files);
    assert forall|i: int, j: int|
        0 <= i < j < files.len() && segment_seq(
            (#[trigger] files[i]).name,
        ) is Some implies segment_seq(files[i].name) != segment_seq((#[trigger] files[j]).name) by {
        if segment_seq(files[i].name) == segment_seq(files[j].name) {
            assert(disk_of(files).contains_key(files[i].name));
            assert(disk_of(files).contains_key(files[j].name));
            let a = choose|a: int|
                0 <= a < segments.len() && (#[trigger] segments[a]).name == files[i].name;
            let b = choose|b: int|
                0 <= b < segments.len() && (#[trigger] segments[b]).name == files[j].name;
            assert(segments[a].seq == segments[b].seq);
            if a < b {
                assert(segments[a].seq < segments[b].seq);
            }
            if b < a {
                assert(segments[b].seq < segments[a].seq);
            }
        }
    }
}

/// Whatever order a directory lists its files in, the segments of a sound log
/// are found in order.
proof fn lemma_segments_are_found(log: LogView, files: Seq<FileView>)
    requires
        log.sound(),
        distinct_names(files),
        disk_of(files) == log.disk,
    ensures
        numbered(files) == wanted_files(log.disk, log.segments),
{
    lemma_disk_of(files);
    lemma_numbers_differ(log.segments, files);
    lemma_numbered(files);
    let wanted = wanted_files(log.disk, log.segments);
    assert(ascending(wanted)) by {
        assert forall|i: int, j: int| 0 <= i < j < wanted.len() implies (#[trigger] wanted[i]).0 < (
        #[trigger] wanted[j]).0 by {
            assert(log.segments[i].seq < log.segments[j].seq);
        }
    }
    assert forall|x: (u64, FileView)| #[trigger]
        numbered(files).contains(x) <==> wanted.contains(x) by {
        if numbered(files).contains(x) {
            let k = choose|k: int|
                0 <= k < files.len() && #[trigger] files[k] == x.1 && segment_seq(files[k].name)
                    == Some(x.0);
            assert(log.disk.contains_key(files[k].name));
            let a = choose|a: int|
                0 <= a < log.segments.len() && (#[trigger] log.segments[a]).name == files[k].name;
            assert(wanted[a] == x);
        }
        if wanted.contains(x) {
            let a = choose|a: int| 0 <= a < wanted.len() && wanted[a] == x;
            let name = log.segments[a].name;
            assert(log.disk.contains_key(name));
            let k = choose|k: int| 0 <= k < files.len() && (#[trigger] files[k]).name == name;
            assert(files[k] == x.1);
            assert(is_numbered(files, x));
        }
    }
    lemma_ascending_is_unique(numbered(files), wanted);
}

/// The files of a log's segments as a directory numbers them.
spec fn wanted_files(disk: Disk, segments: Seq<SegmentView>) -> Seq<(u64, FileView)> {
    Seq::new(
        segments.len(),
        |i: int|
            (segments[i].seq, FileView { name: segments[i].name, bytes: disk[segments[i].name] }),
    )
}

/// A directory that lists the segments of a complete log in their order is opened
/// as that log.
proof fn lemma_reopened(log: LogView, files: Seq<FileView>)
    requires
        log.complete(),
        disk_of(files) == log.disk,
        numbered(files) == wanted_files(log.disk, log.segments),
        log.held() is Ok,
        log.held()->Ok_0.finished() is Ok,
    ensures
        ({
            let f = log.held()->Ok_0.finished()->Ok_0;
            let (effects, result) = opened(log.dir, files, log.opts);
            &&& effects == Seq::<EffectView>::empty()
            &&& result == Ok::<(LogView, RecoveredView), ErrorView>(
                (
                    LogView::blank(log.dir, log.opts, log.disk).holding(
                        log.segments,
                        log.cursor,
                        f,
                    ),
                    RecoveredView {
                        hard_state: f.hard_state,
                        snapshot: f.snapshot,
                        entries: f.entries,
                        discarded_tail_bytes: 0,
                        clamped_commit: f.clamped_commit,
                        segments: log.segments.len() as u32,
                    },
                ),
            )
        }),
{
    let max = log.opts.max_record_bytes;
    lemma_intact_is_readable(log.disk, log.segments, max);
    lemma_headed(log.dir, log.disk, log.segments, numbered(files), max);
    let found = all_found(log.disk, log.segments, max);
    let n = log.segments.len() - 1;
    assert(found[0] == found_of(log.disk, log.segments[0], max));
    assert(found.last() == found_of(log.disk, log.segments[n], max));
    let start = FoldView::starting_at(predecessor(log.segments[0].base_index));
    lemma_replay_folds_the_stream(log.dir, start, log.disk, log.segments, max);
    let bytes = log.disk[log.current().name];
    lemma_written_len(bytes);
    assert(written_above(bytes, log.cursor as int) == 0);
    assert(live(found) =~= log.segments);
    let none = Seq::<EffectView>::empty();
    assert(cleanup_effects(None) + erase_effects(found.last().name, log.cursor, 0) =~= none);
    assert(all_performed(log.disk, none) == log.disk);
}

/// Opening the directory of a sound log again, whatever order it lists its files
/// in, recovers exactly what the records on its disk amount to: the same
/// entries, the same snapshot, and the hard state with its commit index clamped
/// to the log. Nothing is discarded, nothing is asked of the directory, and the
/// log goes on where it stood.
pub proof fn law_reopening_recovers_what_is_held(log: LogView, files: Seq<FileView>)
    requires
        log.sound(),
        distinct_names(files),
        disk_of(files) == log.disk,
        log.held() is Ok,
        log.held()->Ok_0.finished() is Ok,
    ensures
        ({
            let f = log.held()->Ok_0.finished()->Ok_0;
            let (effects, result) = opened(log.dir, files, log.opts);
            &&& effects == Seq::<EffectView>::empty()
            &&& result == Ok::<(LogView, RecoveredView), ErrorView>(
                (
                    LogView::blank(log.dir, log.opts, log.disk).holding(
                        log.segments,
                        log.cursor,
                        f,
                    ),
                    RecoveredView {
                        hard_state: f.hard_state,
                        snapshot: f.snapshot,
                        entries: f.entries,
                        discarded_tail_bytes: 0,
                        clamped_commit: f.clamped_commit,
                        segments: log.segments.len() as u32,
                    },
                ),
            )
            &&& f.entries == log.held()->Ok_0.entries
            &&& f.snapshot == log.held()->Ok_0.snapshot
            &&& log.in_step() ==> (result->Ok_0).0.in_step()
        }),
{
    lemma_segments_are_found(log, files);
    lemma_reopened(log, files);
}

/// The bytes of the segments of a log, oldest first.
pub open spec fn segment_images(disk: Disk, segments: Seq<SegmentView>) -> Seq<FileView> {
    Seq::new(
        segments.len(),
        |i: int| FileView { name: segments[i].name, bytes: disk[segments[i].name] },
    )
}

/// Segments that can be read in order are folded as their stream.
proof fn lemma_reread_folds_the_stream(log: LogView, f: FoldView, segments: Seq<SegmentView>)
    requires
        readable(log.disk, segments, log.opts.max_record_bytes),
    ensures
        log.reread(f, segment_images(log.disk, segments)) == folded(
            f,
            stream(log.disk, segments, log.opts.max_record_bytes),
        ),
        forall|i: int|
            0 <= i < segments.len() ==> header_fits(
                #[trigger] segment_images(log.disk, segments)[i],
                log.opts.max_record_bytes,
            ),
    decreases segments.len(),
{
    let max = log.opts.max_record_bytes;
    let images = segment_images(log.disk, segments);
    assert forall|i: int| 0 <= i < segments.len() implies header_fits(#[trigger] images[i], max) by {
        assert(images[i].bytes == log.disk[segments[i].name]);
        lemma_header_bounds(images[i].bytes, max);
        assert(images[i].bytes.skip(0) =~= images[i].bytes);
    }
    if segments.len() > 0 {
        let others = segments.skip(1);
        let bytes = log.disk[segments[0].name];
        let (_, start) = header_of(bytes, max)->Some_0;
        assert(images[0].bytes == bytes);
        assert(bytes.skip(0) =~= bytes);
        lemma_header_bounds(bytes, max);
        lemma_replay_folds_what_a_scan_finds(f, bytes, start, max);
        lemma_stream_front(log.disk, segments, max);
        lemma_folded_concat(
            f,
            segment_records(bytes, max),
            stream(log.disk, others, max),
        );
        assert(images.skip(1) =~= segment_images(log.disk, others));
        lemma_readable_rest(log.disk, segments, max);
        match folded(f, segment_records(bytes, max)) {
            Ok(g) => lemma_reread_folds_the_stream(log, g, others),
            Err(_) => {},
        }
    }
}

/// Reading a log again from the bytes of its segments gives exactly what it holds,
/// also where its oldest segments were dropped.
pub proof fn law_reading_back_gives_what_is_held(log: LogView)
    requires
        log.sound(),
    ensures
        log.read_back(segment_images(log.disk, log.segments)) == log.held(),
        forall|i: int|
            0 <= i < log.segments.len() ==> header_fits(
                #[trigger] segment_images(log.disk, log.segments)[i],
                log.opts.max_record_bytes,
            ),
{
    lemma_intact_is_readable(log.disk, log.segments, log.opts.max_record_bytes);
    lemma_reread_folds_the_stream(log, FoldView::starting_at(log.origin()), log.segments);
}

// ------------------------------------------------------- what operations do

/// Whether entries follow each other without a gap, from the index after `base`.
pub open spec fn gapless(entries: Seq<EntryView>, base: Index) -> bool {
    forall|i: int| 0 <= i < entries.len() ==> (#[trigger] entries[i]).index == base + 1 + i
}

/// Whether entries are numbered one after the other.
pub open spec fn consecutive(entries: Seq<EntryView>) -> bool {
    forall|i: int|
        0 <= i < entries.len() ==> (#[trigger] entries[i]).index == entries[0].index + i
}

/// Whether a record is one that a log writes where it stands: entries one after
/// the other, a truncation above its snapshot, and a snapshot of its own history,
/// of one above all of it, or the one that it has once more. One that is behind
/// where the record stream starts says nothing of it.
pub open spec fn orderly(f: FoldView, record: RecordView) -> bool {
    match record {
        RecordView::Truncate { from } => 0 < from && (f.snapshot is Some ==> from > f.base()),
        RecordView::Snapshot(meta) => if f.is_behind(meta) {
            f.snapshot is Some ==> f.snapshot == Some(meta)
        } else {
            !f.conflicts_with(meta) || f.last_index() <= meta.index
        },
        RecordView::Entries(entries) => entries.len() > 0 && consecutive(entries),
        _ => true,
    }
}

/// Whether every record of a stream is orderly where it stands.
pub open spec fn all_orderly(f: FoldView, records: Seq<RecordView>) -> bool
    decreases records.len(),
{
    records.len() == 0 || {
        let before = folded(f, records.drop_last());
        &&& all_orderly(f, records.drop_last())
        &&& before is Ok
        &&& orderly(before->Ok_0, records.last())
        &&& before->Ok_0.applied(records.last()) is Ok
    }
}

/// Whether a segment starts where the log stood when it was begun.
#[verifier::opaque]
pub open spec fn starts_in_place(disk: Disk, segments: Seq<SegmentView>, k: int, max: u32) -> bool {
    let start = FoldView::starting_at(predecessor(segments[0].base_index));
    let before = folded(start, stream(disk, segments.take(k), max));
    before is Ok && segments[k].base_index == before->Ok_0.last_index() + 1
}

/// Whether every segment but the oldest starts where the log stood when it was
/// begun.
pub open spec fn starts_follow(disk: Disk, segments: Seq<SegmentView>, max: u32) -> bool {
    forall|k: int| 0 < k < segments.len() ==> #[trigger] starts_in_place(disk, segments, k, max)
}

impl LogView {
    /// The fold of nothing, from where the log's records start.
    pub open spec fn start(self) -> FoldView {
        FoldView::starting_at(predecessor(self.segments[0].base_index))
    }

    /// Whether the records on a log's disk are ones that a log writes, each where
    /// it stands, and its segments start where the log then stood.
    pub open spec fn orderly(self) -> bool {
        &&& all_orderly(self.start(), self.records())
        &&& starts_follow(self.disk, self.segments, self.opts.max_record_bytes)
    }

    /// Whether what a log says of itself is what its disk holds, without a gap,
    /// and its disk holds it as a log writes it.
    pub open spec fn in_step(self) -> bool {
        &&& self.orderly()
        &&& match self.held() {
            Ok(f) => {
                &&& f.last_index() == self.last_index
                &&& f.snapshot == self.snapshot
                &&& gapless(f.entries, f.base())
            },
            Err(_) => false,
        }
    }
}

/// The entries of a log without a gap that are below an index are its first
/// ones.
proof fn lemma_entries_below(entries: Seq<EntryView>, base: Index, from: Index)
    requires
        gapless(entries, base),
        from > base,
    ensures
        entries_below(entries, from) == (if entries.len() <= from - base - 1 {
            entries
        } else {
            entries.take(from - base - 1)
        }),
    decreases entries.len(),
{
    reveal(Seq::filter);
    if entries.len() > 0 {
        let head = entries.drop_last();
        assert(forall|i: int| 0 <= i < head.len() ==> #[trigger] head[i] == entries[i]);
        lemma_entries_below(head, base, from);
        let n = entries.len() - 1;
        assert(entries[n].index == base + 1 + n);
        if entries.len() <= from - base - 1 {
            assert(head.push(entries.last()) =~= entries);
        } else if head.len() <= from - base - 1 {
            assert(entries.take(from - base - 1) =~= head);
        } else {
            assert(entries.take(from - base - 1) =~= head.take(from - base - 1));
        }
    }
}

/// The entries of a log without a gap that are above an index are its last ones.
proof fn lemma_entries_above(entries: Seq<EntryView>, base: Index, through: Index)
    requires
        gapless(entries, base),
        through >= base,
    ensures
        entries_above(entries, through) == (if entries.len() <= through - base {
            Seq::empty()
        } else {
            entries.skip(through - base)
        }),
    decreases entries.len(),
{
    reveal(Seq::filter);
    if entries.len() > 0 {
        let head = entries.drop_last();
        assert(forall|i: int| 0 <= i < head.len() ==> #[trigger] head[i] == entries[i]);
        lemma_entries_above(head, base, through);
        let n = entries.len() - 1;
        assert(entries[n].index == base + 1 + n);
        if entries.len() > through - base {
            if head.len() <= through - base {
                assert(entries.skip(through - base) =~= seq![entries.last()]);
                assert(Seq::<EntryView>::empty().push(entries.last()) =~= seq![entries.last()]);
            } else {
                assert(entries.skip(through - base) =~= head.skip(through - base).push(
                    entries.last(),
                ));
            }
        }
    } else {
        assert(entries_above(entries, through) =~= Seq::empty());
    }
}

/// The fold of a log after one more record was staged.
proof fn lemma_held_after(log: LogView, record: RecordView)
    requires
        log.sound(),
        takes_headers(log.opts.max_record_bytes),
        record.fits(),
        log.staged(record) is Ok,
        log.held() is Ok,
    ensures
        log.staged(record)->Ok_0.sound(),
        log.staged(record)->Ok_0.opts == log.opts,
        log.staged(record)->Ok_0.held() == log.held()->Ok_0.applied(record),
{
    law_a_staged_record_is_on_disk(log, record);
    lemma_folded_snoc(
        FoldView::starting_at(predecessor(log.segments[0].base_index)),
        log.records(),
        record,
    );
}

/// Staging a record leaves every segment but the newest as it was, and begins a
/// new one where the log stands.
proof fn lemma_stage_leaves_older(log: LogView, record: RecordView)
    requires
        log.sound(),
        log.staged(record) is Ok,
    ensures
        ({
            let next = log.staged(record)->Ok_0;
            &&& log.segments.len() <= next.segments.len() <= log.segments.len() + 1
            &&& next.segments.len() > log.segments.len() ==> next.segments.last().base_index
                == successor(log.last_index)
            &&& forall|i: int|
                0 <= i < log.segments.len() ==> #[trigger] next.segments[i] == log.segments[i]
            &&& forall|i: int|
                0 <= i < next.segments.len() - 1 ==> next.disk[(#[trigger] next.segments[i]).name]
                    == log.disk[log.segments[i].name]
        }),
{
    let next = log.staged(record)->Ok_0;
    let n = log.segments.len() - 1;
    assert(log.segments[n] == log.current());
    if log.has_room(record) {
        let write = EffectView::Write {
            name: log.current().name,
            offset: log.cursor,
            bytes: record.frame(),
        };
        lemma_performed_one(log.disk, write);
        assert forall|i: int| 0 <= i < next.segments.len() - 1 implies next.disk[(
        #[trigger] next.segments[i]).name] == log.disk[log.segments[i].name] by {
            lemma_names_differ(log.segments, i, n);
        }
    } else {
        let rolled = log.rolled()->Ok_0;
        let seq = (log.current().seq + 1) as u64;
        let base_index = successor(log.last_index);
        let sync = EffectView::Sync { name: log.current().name };
        lemma_performed_one(log.disk, sync);
        assert(all_performed(log.disk, seq![sync]) == log.disk);
        let name = segment_file(seq);
        law_a_segment_is_found_by_its_name(seq);
        assert forall|i: int| 0 <= i <= n implies (#[trigger] log.segments[i]).name != name by {
            if i < n {
                assert(log.segments[i].seq < log.segments[n].seq);
            }
        }
        assert(!log.disk.contains_key(name)) by {
            if log.disk.contains_key(name) {
                let i = choose|i: int|
                    0 <= i < log.segments.len() && (#[trigger] log.segments[i]).name == name;
                assert(log.segments[i].name != name);
            }
        }
        lemma_create_performed(log.disk, log.opts, seq, base_index);
        let write = EffectView::Write { name, offset: rolled.cursor, bytes: record.frame() };
        lemma_performed_one(rolled.disk, write);
        assert(rolled.current().name == name);
        assert forall|i: int| 0 <= i < next.segments.len() - 1 implies next.disk[(
        #[trigger] next.segments[i]).name] == log.disk[log.segments[i].name] by {
            assert(log.segments[i].name != name);
        }
    }
}

/// The stream of the oldest segments of two directories that agree on them.
proof fn lemma_same_older_stream(
    a: Disk,
    b: Disk,
    x: Seq<SegmentView>,
    y: Seq<SegmentView>,
    k: int,
    max: u32,
)
    requires
        0 <= k <= x.len(),
        k <= y.len(),
        forall|i: int|
            0 <= i < k ==> #[trigger] x[i] == y[i] && a[x[i].name] == b[y[i].name],
    ensures
        x.take(k) == y.take(k),
        stream(a, x.take(k), max) == stream(b, y.take(k), max),
{
    let (p, q) = (x.take(k), y.take(k));
    assert forall|i: int| 0 <= i < k implies #[trigger] p[i] == q[i] by {
        assert(p[i] == x[i] && q[i] == y[i]);
    }
    assert(p =~= q);
    assert forall|i: int| 0 <= i < p.len() implies a[(#[trigger] p[i]).name] == b[p[i].name] by {
        assert(p[i] == x[i]);
    }
    lemma_stream_agrees(a, b, p, max);
}

/// Segments of which all but the newest are as they were, and one more perhaps,
/// still start where the log stood.
proof fn lemma_starts_follow_on(
    disk: Disk,
    segments: Seq<SegmentView>,
    after: Disk,
    more: Seq<SegmentView>,
    max: u32,
)
    requires
        0 < segments.len() <= more.len() <= segments.len() + 1,
        forall|i: int| 0 <= i < segments.len() ==> #[trigger] more[i] == segments[i],
        forall|i: int|
            0 <= i < more.len() - 1 ==> after[(#[trigger] more[i]).name] == disk[segments[i].name],
        starts_follow(disk, segments, max),
        more.len() > segments.len() ==> {
            let held = folded(
                FoldView::starting_at(predecessor(segments[0].base_index)),
                stream(disk, segments, max),
            );
            held is Ok && more.last().base_index == held->Ok_0.last_index() + 1
        },
    ensures
        starts_follow(after, more, max),
{
    let n = segments.len();
    assert(more[0] == segments[0]);
    assert forall|k: int| 0 < k < more.len() implies #[trigger] starts_in_place(
        after,
        more,
        k,
        max,
    ) by {
        assert forall|i: int| 0 <= i < k implies #[trigger] more[i] == segments[i]
            && after[more[i].name] == disk[segments[i].name] by {}
        lemma_same_older_stream(after, disk, more, segments, k, max);
        reveal(starts_in_place);
        if k < n {
            assert(starts_in_place(disk, segments, k, max));
            assert(more[k] == segments[k]);
        } else {
            assert(segments.take(k) =~= segments);
            assert(more[k] == more.last());
        }
    }
}

/// A log in step that stages an orderly record stays orderly.
proof fn lemma_orderly_after(log: LogView, record: RecordView)
    requires
        log.sound(),
        takes_headers(log.opts.max_record_bytes),
        log.in_step(),
        log.last_index < u64::MAX,
        record.fits(),
        log.staged(record) is Ok,
        orderly(log.held()->Ok_0, record),
        log.held()->Ok_0.applied(record) is Ok,
    ensures
        log.staged(record)->Ok_0.orderly(),
{
    let max = log.opts.max_record_bytes;
    let next = log.staged(record)->Ok_0;
    law_a_staged_record_is_on_disk(log, record);
    lemma_stage_leaves_older(log, record);
    lemma_starts_follow_on(log.disk, log.segments, next.disk, next.segments, max);
    let all = next.records();
    assert(all.drop_last() =~= log.records());
    assert(all.last() == record);
    assert(all_orderly(log.start(), all));
}

/// A hard state that was set is the one that is held, and nothing else changes.
pub proof fn law_a_hard_state_is_held(log: LogView, hs: crate::raft::HardState)
    requires
        log.sound(),
        takes_headers(log.opts.max_record_bytes),
        log.in_step(),
        log.last_index < u64::MAX,
        log.with_hard_state(hs) is Ok,
    ensures
        ({
            let next = log.with_hard_state(hs)->Ok_0;
            &&& next.sound()
            &&& next.in_step()
            &&& next.held() == Ok::<FoldView, ErrorView>(
                FoldView { hard_state: hs, ..log.held()->Ok_0 },
            )
        }),
{
    lemma_held_after(log, RecordView::HardState(hs));
    lemma_stage_keeps_fields(log, RecordView::HardState(hs));
    lemma_orderly_after(log, RecordView::HardState(hs));
}

/// Staging a record leaves what a log says of itself as it was.
proof fn lemma_stage_keeps_fields(log: LogView, record: RecordView)
    requires
        log.staged(record) is Ok,
    ensures
        ({
            let next = log.staged(record)->Ok_0;
            &&& next.last_index == log.last_index
            &&& next.snapshot == log.snapshot
            &&& next.hard_state == log.hard_state
            &&& next.opts == log.opts
            &&& next.dir == log.dir
        }),
{
}

/// A truncation above the floor leaves exactly the entries below it.
pub proof fn law_a_truncation_drops_a_suffix(log: LogView, from: Index)
    requires
        log.sound(),
        takes_headers(log.opts.max_record_bytes),
        log.in_step(),
        log.last_index < u64::MAX,
        from > log.held()->Ok_0.base(),
        log.with_truncation(from) is Ok,
    ensures
        ({
            let next = log.with_truncation(from)->Ok_0;
            let f = log.held()->Ok_0;
            &&& next.sound()
            &&& next.in_step()
            &&& next.held() == Ok::<FoldView, ErrorView>(
                FoldView { entries: entries_below(f.entries, from), ..f },
            )
            &&& entries_below(f.entries, from) == (if from > log.last_index {
                f.entries
            } else {
                f.entries.take(from - f.base() - 1)
            })
        }),
{
    let record = RecordView::Truncate { from };
    lemma_held_after(log, record);
    lemma_stage_keeps_fields(log, record);
    lemma_orderly_after(log, record);
    let f = log.held()->Ok_0;
    lemma_entries_below(f.entries, f.base(), from);
    let n = f.entries.len() - 1;
    if f.entries.len() > 0 {
        assert(f.entries[n].index == f.base() + 1 + n);
        if from <= log.last_index && from - f.base() - 1 > 0 {
            let kept = f.entries.take(from - f.base() - 1);
            assert(kept.last() == f.entries[from - f.base() - 2]);
        }
    }
}

/// A snapshot of the log's own history, or of one above all of it, moves the
/// floor, and the entries above it stay.
pub proof fn law_a_snapshot_moves_the_floor(log: LogView, meta: SnapshotMetaView)
    requires
        log.sound(),
        takes_headers(log.opts.max_record_bytes),
        log.in_step(),
        log.last_index < u64::MAX,
        !log.is_stale(meta),
        RecordView::Snapshot(meta).fits(),
        meta.index >= log.held()->Ok_0.base(),
        !log.held()->Ok_0.conflicts_with(meta) || log.last_index <= meta.index,
        log.with_snapshot(meta) is Ok,
    ensures
        ({
            let next = log.with_snapshot(meta)->Ok_0;
            let f = log.held()->Ok_0;
            &&& next.sound()
            &&& next.in_step()
            &&& next.held() == Ok::<FoldView, ErrorView>(
                FoldView {
                    entries: entries_above(f.entries, meta.index),
                    snapshot: Some(meta),
                    ..f
                },
            )
        }),
{
    let record = RecordView::Snapshot(meta);
    lemma_held_after(log, record);
    lemma_stage_keeps_fields(log, record);
    lemma_orderly_after(log, record);
    let f = log.held()->Ok_0;
    lemma_entries_above(f.entries, f.base(), meta.index);
    let n = f.entries.len() - 1;
    if f.entries.len() > 0 {
        assert(f.entries[n].index == f.base() + 1 + n);
    }
    let kept = entries_above(f.entries, meta.index);
    if kept.len() > 0 {
        let k = meta.index - f.base();
        assert(kept == f.entries.skip(k));
        assert forall|i: int| 0 <= i < kept.len() implies (#[trigger] kept[i]).index == meta.index
            + 1 + i by {
            assert(kept[i] == f.entries[k + i]);
        }
        assert(kept.last() == f.entries[n]);
    }
}

/// Making a log durable changes nothing that it holds.
pub proof fn law_a_sync_keeps_what_is_held(log: LogView)
    requires
        log.sound(),
    ensures
        log.synced().sound(),
        log.synced().held() == log.held(),
        log.in_step() ==> log.synced().in_step(),
        log.synced().durable >= log.next_token,
{
    lemma_performed_one(log.disk, EffectView::Sync { name: log.current().name });
}

// ----------------------------------------------------------------- appending

/// Batches one after the other.
pub open spec fn flat(batches: Seq<Seq<EntryView>>) -> Seq<EntryView>
    decreases batches.len(),
{
    if batches.len() == 0 {
        Seq::empty()
    } else {
        flat(batches.drop_last()) + batches.last()
    }
}

proof fn lemma_flat_push(batches: Seq<Seq<EntryView>>, batch: Seq<EntryView>)
    ensures
        flat(batches.push(batch)) == flat(batches) + batch,
{
    assert(batches.push(batch).drop_last() =~= batches);
}

proof fn lemma_flat_front(batches: Seq<Seq<EntryView>>)
    requires
        batches.len() > 0,
    ensures
        flat(batches) == batches[0] + flat(batches.skip(1)),
    decreases batches.len(),
{
    let others = batches.skip(1);
    if others.len() == 0 {
        assert(batches.drop_last() =~= others);
        assert(flat(batches) =~= batches[0] + flat(others));
    } else {
        lemma_flat_front(batches.drop_last());
        assert(batches.drop_last().skip(1) =~= others.drop_last());
        assert(flat(batches) =~= batches[0] + flat(others));
    }
}

/// Splitting entries into records loses none, adds none, reorders none, and
/// makes no empty record.
proof fn lemma_batched(
    done: Seq<Seq<EntryView>>,
    batch: Seq<EntryView>,
    rest: Seq<EntryView>,
    max: u32,
)
    requires
        batched(done, batch, rest, max) is Ok,
        forall|i: int| 0 <= i < done.len() ==> (#[trigger] done[i]).len() > 0,
    ensures
        flat(batched(done, batch, rest, max)->Ok_0) == flat(done) + batch + rest,
        forall|i: int|
            0 <= i < batched(done, batch, rest, max)->Ok_0.len() ==> (#[trigger] batched(
                done,
                batch,
                rest,
                max,
            )->Ok_0[i]).len() > 0,
    decreases rest.len(),
{
    if rest.len() == 0 {
        lemma_flat_push(done, batch);
        assert(flat(done) + batch + rest =~= flat(done) + batch);
        if batch.len() == 0 {
            assert(flat(done) + batch =~= flat(done));
        }
    } else {
        let longer = batch.push(rest[0]);
        let len = RecordView::Entries(longer).frame().len();
        if len <= max {
            lemma_batched(done, longer, rest.skip(1), max);
            assert(flat(done) + longer + rest.skip(1) =~= flat(done) + batch + rest);
        } else if batch.len() > 0 {
            lemma_flat_push(done, batch);
            lemma_batched(done.push(batch), seq![rest[0]], rest.skip(1), max);
            assert(flat(done) + batch + seq![rest[0]] + rest.skip(1) =~= flat(done) + batch + rest);
        }
    }
}

/// The records that entries are split into hold exactly those entries, in order,
/// and none of them is empty.
pub proof fn law_batches_hold_the_entries(entries: Seq<EntryView>, max: u32)
    requires
        batches(entries, max) is Ok,
    ensures
        flat(batches(entries, max)->Ok_0) == entries,
        forall|i: int|
            0 <= i < batches(entries, max)->Ok_0.len() ==> (#[trigger] batches(
                entries,
                max,
            )->Ok_0[i]).len() > 0,
{
    let none = Seq::<Seq<EntryView>>::empty();
    lemma_batched(none, Seq::empty(), entries, max);
    assert(flat(none) + Seq::<EntryView>::empty() + entries =~= entries);
}

/// Batches of entries that continue a log, staged one after the other.
proof fn lemma_staged_batches(log: LogView, records: Seq<Seq<EntryView>>)
    requires
        log.sound(),
        takes_headers(log.opts.max_record_bytes),
        log.in_step(),
        gapless(flat(records), log.last_index),
        forall|i: int| 0 <= i < records.len() ==> (#[trigger] records[i]).len() > 0,
        forall|i: int|
            0 <= i < records.len() ==> RecordView::Entries(#[trigger] records[i]).fits(),
        log.staged_batches(records).1 is None,
    ensures
        ({
            let next = log.staged_batches(records).0;
            let f = log.held()->Ok_0;
            &&& next.sound()
            &&& next.in_step()
            &&& next.opts == log.opts
            &&& next.held() == Ok::<FoldView, ErrorView>(
                FoldView { entries: f.entries + flat(records), ..f },
            )
        }),
    decreases records.len(),
{
    let f = log.held()->Ok_0;
    if records.len() == 0 {
        assert(f.entries + flat(records) =~= f.entries);
    } else {
        let first = records[0];
        let others = records.skip(1);
        let record = RecordView::Entries(first);
        lemma_flat_front(records);
        assert(record.fits());
        assert(flat(records)[0] == first[0]);
        assert(first[0].index == f.last_index() + 1);
        lemma_held_after(log, record);
        lemma_stage_keeps_fields(log, record);
        let next = log.staged(record)->Ok_0;
        let g = FoldView { entries: f.entries + first, ..f };
        assert(next.held() == Ok::<FoldView, ErrorView>(g));
        let n = f.entries.len() as int;
        if n > 0 {
            assert(f.entries[n - 1].index == f.base() + n);
        }
        assert(f.last_index() == f.base() + n);
        assert forall|i: int| 0 <= i < first.len() implies (#[trigger] first[i]).index
            == f.last_index() + 1 + i by {
            assert(flat(records)[i] == first[i]);
        }
        assert(gapless(g.entries, g.base())) by {
            assert forall|i: int| 0 <= i < g.entries.len() implies (#[trigger] g.entries[i]).index
                == g.base() + 1 + i by {
                if i >= n {
                    assert(g.entries[i] == first[i - n]);
                }
            }
        }
        assert(g.entries.last() == first.last());
        assert(g.last_index() == f.last_index() + first.len());
        assert(gapless(flat(others), g.last_index())) by {
            assert forall|i: int| 0 <= i < flat(others).len() implies (
            #[trigger] flat(others)[i]).index == g.last_index() + 1 + i by {
                assert(flat(records)[first.len() + i] == flat(others)[i]);
            }
        }
        assert forall|i: int| 0 <= i < others.len() implies (#[trigger] others[i]).len() > 0
            && RecordView::Entries(others[i]).fits() by {
            assert(others[i] == records[i + 1]);
        }
        assert(consecutive(first));
        lemma_orderly_after(log, record);
        let moved = LogView { last_index: first.last().index, ..next };
        assert(moved.records() == next.records());
        assert(moved.held() == next.held());
        lemma_staged_batches(moved, others);
        assert(f.entries + first + flat(others) =~= f.entries + flat(records));
    }
}

/// Entries that continue a log exactly, once appended, are what the log holds
/// after those it held before; nothing else changes.
pub proof fn law_appended_entries_are_held(log: LogView, entries: Seq<EntryView>)
    requires
        log.sound(),
        takes_headers(log.opts.max_record_bytes),
        log.in_step(),
        gapless(entries, log.last_index),
        forall|i: int|
            0 <= i < batches(entries, log.opts.max_record_bytes)->Ok_0.len()
                ==> RecordView::Entries(
                #[trigger] batches(entries, log.opts.max_record_bytes)->Ok_0[i],
            ).fits(),
        log.appended(entries).1 is None,
    ensures
        ({
            let next = log.appended(entries).0;
            let f = log.held()->Ok_0;
            &&& next.sound()
            &&& next.in_step()
            &&& next.held() == Ok::<FoldView, ErrorView>(
                FoldView { entries: f.entries + entries, ..f },
            )
        }),
{
    let f = log.held()->Ok_0;
    if entries.len() == 0 {
        assert(f.entries + entries =~= f.entries);
    } else {
        let max = log.opts.max_record_bytes;
        let records = batches(entries, max)->Ok_0;
        law_batches_hold_the_entries(entries, max);
        lemma_staged_batches(log, records);
        let all = f.entries + entries;
        let n = f.entries.len() as int;
        if n > 0 {
            assert(f.entries[n - 1].index == f.base() + n);
        }
        assert(all.last() == entries.last());
        assert forall|i: int| 0 <= i < all.len() implies (#[trigger] all[i]).index == f.base() + 1
            + i by {
            if i >= n {
                assert(all[i] == entries[i - n]);
            }
        }
    }
}

// ----------------------------------------------------------------- opening

/// What the segments among numbered files are.
proof fn lemma_headed_files(dir: Seq<char>, files: Seq<(u64, FileView)>, max: u32)
    requires
        headed(dir, files, max) is Ok,
    ensures
        ({
            let (found, dropped) = headed(dir, files, max)->Ok_0;
            &&& dropped is None ==> found.len() == files.len()
            &&& dropped is Some ==> found.len() == files.len() - 1 && dropped
                == Some(files.last().1.name) && header_of(files.last().1.bytes, max) is None
            &&& forall|i: int|
                0 <= i < found.len() ==> {
                    &&& (#[trigger] found[i]).seq == files[i].0
                    &&& found[i].name == files[i].1.name
                    &&& found[i].bytes == files[i].1.bytes
                    &&& header_of(found[i].bytes, max) is Some
                    &&& (header_of(found[i].bytes, max)->Some_0).0.base_index
                        == found[i].base_index
                    &&& (header_of(found[i].bytes, max)->Some_0).1 == found[i].start
                }
        }),
    decreases files.len(),
{
    if files.len() > 0 && header_of(files[0].1.bytes, max) is Some {
        lemma_headed_files(dir, files.skip(1), max);
        let (found, dropped) = headed(dir, files, max)->Ok_0;
        let (others, _) = headed(dir, files.skip(1), max)->Ok_0;
        assert forall|i: int| 0 <= i < found.len() implies {
            &&& (#[trigger] found[i]).seq == files[i].0
            &&& found[i].name == files[i].1.name
            &&& found[i].bytes == files[i].1.bytes
            &&& header_of(found[i].bytes, max) is Some
            &&& (header_of(found[i].bytes, max)->Some_0).0.base_index == found[i].base_index
            &&& (header_of(found[i].bytes, max)->Some_0).1 == found[i].start
        } by {
            if i > 0 {
                assert(found[i] == others[i - 1]);
                assert(files.skip(1)[i - 1] == files[i]);
            }
        }
    }
}

/// A segment that replays is one whose scan stopped.
proof fn lemma_replay_needs_a_stop(f: FoldView, bytes: Seq<u8>, pos: int, max: u32)
    requires
        replayed(f, bytes, pos, max) is Ok,
    ensures
        scanned(bytes, pos, max).2 is Stopped,
    decreases bytes.len() - pos,
{
    match step(bytes, pos, max) {
        Step::Record(record, end) => {
            if pos < end <= bytes.len() {
                lemma_replay_needs_a_stop(f.applied(record)->Ok_0, bytes, end, max);
            }
        },
        _ => {},
    }
}

/// The records of segments as recovery finds them.
pub open spec fn found_stream(found: Seq<FoundView>, max: u32) -> Seq<RecordView>
    decreases found.len(),
{
    if found.len() == 0 {
        Seq::empty()
    } else {
        scanned(found[0].bytes, found[0].start, max).0 + found_stream(found.skip(1), max)
    }
}

/// Segments that replay fold the records they hold, and only the newest of them
/// may end in a tear.
proof fn lemma_all_replayed(dir: Seq<char>, f: FoldView, found: Seq<FoundView>, max: u32)
    requires
        found.len() > 0,
        all_replayed(dir, f, found, max) is Ok,
    ensures
        ({
            let (g, end) = all_replayed(dir, f, found, max)->Ok_0;
            &&& folded(f, found_stream(found, max)) == Ok::<FoldView, ErrorView>(g)
            &&& end == scanned(found.last().bytes, found.last().start, max).1
            &&& scanned(found.last().bytes, found.last().start, max).2 is Stopped
            &&& forall|i: int|
                0 <= i < found.len() - 1 ==> scanned(
                    (#[trigger] found[i]).bytes,
                    found[i].start,
                    max,
                ).2 == Outcome::Stopped(Stop::EndOfWrittenRegion)
        }),
    decreases found.len(),
{
    let first = found[0];
    lemma_replay_needs_a_stop(f, first.bytes, first.start, max);
    lemma_replay_folds_what_a_scan_finds(f, first.bytes, first.start, max);
    let records = scanned(first.bytes, first.start, max).0;
    let others = found.skip(1);
    lemma_folded_concat(f, records, found_stream(others, max));
    if found.len() == 1 {
        assert(found_stream(others, max) =~= Seq::empty());
    } else {
        let g = folded(f, records)->Ok_0;
        lemma_all_replayed(dir, g, others, max);
        assert(others.last() == found.last());
        assert forall|i: int| 0 <= i < found.len() - 1 implies scanned(
            (#[trigger] found[i]).bytes,
            found[i].start,
            max,
        ).2 == Outcome::Stopped(Stop::EndOfWrittenRegion) by {
            if i > 0 {
                assert(others[i - 1] == found[i]);
            }
        }
    }
}

/// The stream of a directory whose segments hold the records that were found.
proof fn lemma_found_stream(disk: Disk, found: Seq<FoundView>, max: u32)
    requires
        forall|i: int|
            0 <= i < found.len() ==> segment_records(disk[(#[trigger] found[i]).name], max)
                == scanned(found[i].bytes, found[i].start, max).0,
    ensures
        stream(disk, live(found), max) == found_stream(found, max),
    decreases found.len(),
{
    let segments = live(found);
    if found.len() > 0 {
        let others = found.skip(1);
        assert forall|i: int| 0 <= i < others.len() implies segment_records(
            disk[(#[trigger] others[i]).name],
            max,
        ) == scanned(others[i].bytes, others[i].start, max).0 by {
            assert(others[i] == found[i + 1]);
        }
        lemma_found_stream(disk, others, max);
        lemma_stream_front(disk, segments, max);
        assert(segments.skip(1) =~= live(others));
        assert(segments[0].name == found[0].name);
    }
}

/// A directory cleared of a segment whose header never landed.
proof fn lemma_cleaned(disk: Disk, dropped: Option<Seq<char>>)
    ensures
        all_performed(disk, cleanup_effects(dropped)) == (match dropped {
            Some(name) => disk.remove(name),
            None => disk,
        }),
{
    match dropped {
        Some(name) => {
            let none = Seq::<EffectView>::empty();
            let remove = EffectView::Remove { name };
            lemma_performed_snoc(disk, none, remove);
            lemma_performed_snoc(disk, none.push(remove), EffectView::SyncDir);
            assert(none.push(remove).push(EffectView::SyncDir) =~= cleanup_effects(dropped));
            assert(all_performed(disk, none) == disk);
        },
        None => {},
    }
}

/// Two runs of effects, one after the other.
pub proof fn lemma_performed_in_turn(disk: Disk, a: Seq<EffectView>, b: Seq<EffectView>)
    ensures
        all_performed(disk, a + b) == all_performed(all_performed(disk, a), b),
    decreases b.len(),
{
    if b.len() == 0 {
        assert(a + b =~= a);
    } else {
        assert((a + b).drop_last() =~= a + b.drop_last());
        lemma_performed_in_turn(disk, a, b.drop_last());
    }
}

/// The segments that were found, in a directory cleared of the rest.
proof fn lemma_found_segments(dir: Seq<char>, files: Seq<FileView>, max: u32)
    requires
        distinct_names(files),
        headed(dir, numbered(files), max) is Ok,
    ensures
        ({
            let (found, dropped) = headed(dir, numbered(files), max)->Ok_0;
            let disk = all_performed(disk_of(files), cleanup_effects(dropped));
            let segments = live(found);
            &&& distinct_numbers(files) ==> ordered(segments)
            &&& no_other(disk, segments)
            &&& forall|i: int, j: int|
                0 <= i < j < found.len() ==> (#[trigger] found[i]).name != (
                #[trigger] found[j]).name
            &&& forall|i: int|
                0 <= i < found.len() ==> {
                    &&& disk.contains_key((#[trigger] found[i]).name)
                    &&& disk[found[i].name] == found[i].bytes
                    &&& header_of(found[i].bytes, max) is Some
                    &&& (header_of(found[i].bytes, max)->Some_0).0.base_index
                        == found[i].base_index
                    &&& (header_of(found[i].bytes, max)->Some_0).1 == found[i].start
                }
        }),
{
    let (found, dropped) = headed(dir, numbered(files), max)->Ok_0;
    let all = numbered(files);
    let segments = live(found);
    lemma_headed_files(dir, all, max);
    lemma_numbered_holds(files);
    lemma_disk_of(files);
    lemma_cleaned(disk_of(files), dropped);
    let whole = disk_of(files);
    let disk = all_performed(whole, cleanup_effects(dropped));
    assert forall|i: int| 0 <= i < all.len() implies {
        &&& segment_seq((#[trigger] all[i]).1.name) == Some(all[i].0)
        &&& whole.contains_key(all[i].1.name)
        &&& whole[all[i].1.name] == all[i].1.bytes
    } by {
        assert(all.contains(all[i]));
        let k = choose|k: int|
            0 <= k < files.len() && #[trigger] files[k] == all[i].1 && segment_seq(files[k].name)
                == Some(all[i].0);
        assert(whole.contains_key(files[k].name));
    }
    assert forall|i: int, j: int| 0 <= i < j < found.len() implies (#[trigger] found[i]).name != (
    #[trigger] found[j]).name by {
        assert(found[i].name == all[i].1.name && found[j].name == all[j].1.name);
    }
    assert forall|i: int| 0 <= i < segments.len() implies segment_seq(
        (#[trigger] segments[i]).name,
    ) == Some(segments[i].seq) by {
        assert(found[i].name == all[i].1.name);
    }
    if distinct_numbers(files) {
        lemma_numbered(files);
        assert forall|i: int, j: int| 0 <= i < j < segments.len() implies (
        #[trigger] segments[i]).seq < (#[trigger] segments[j]).seq by {
            assert(found[i].seq == all[i].0);
            assert(found[j].seq == all[j].0);
        }
    }
    assert forall|i: int| 0 <= i < found.len() implies {
        &&& disk.contains_key((#[trigger] found[i]).name)
        &&& disk[found[i].name] == found[i].bytes
    } by {
        assert(found[i].name == all[i].1.name);
        if dropped is Some {
            assert(all[all.len() - 1].1.name != all[i].1.name);
        }
    }
    assert forall|name: Seq<char>| #[trigger]
        disk.contains_key(name) && segment_seq(name) is Some implies exists|i: int|
        0 <= i < segments.len() && (#[trigger] segments[i]).name == name by {
        assert(whole.contains_key(name));
        let k = choose|k: int| 0 <= k < files.len() && (#[trigger] files[k]).name == name;
        let x = (segment_seq(name)->Some_0, files[k]);
        assert(is_numbered(files, x));
        assert(all.contains(x));
        let i = choose|i: int| 0 <= i < all.len() && all[i] == x;
        assert(i < found.len());
        assert(found[i].name == name);
        assert(segments[i].name == name);
    }
}

/// A log that was opened is sound, whatever its directory held: what a crash
/// left is cleared away. What it recovered is what its disk then holds, and where
/// that is as a log writes it the log goes on from there, as it does in a directory
/// that was empty.
pub proof fn law_an_opened_log_is_sound(dir: Seq<char>, files: Seq<FileView>, opts: LogOptions)
    requires
        distinct_names(files),
        distinct_numbers(files),
        forall|i: int| 0 <= i < files.len() ==> (#[trigger] files[i]).bytes.len() <= u64::MAX,
        opened(dir, files, opts).1 is Ok,
    ensures
        ({
            let (effects, result) = opened(dir, files, opts);
            let (log, recovered) = result->Ok_0;
            &&& log.sound()
            &&& log.disk == all_performed(disk_of(files), effects)
            &&& log.held() is Ok
            &&& log.held()->Ok_0.finished() is Ok
            &&& ({
                let f = log.held()->Ok_0.finished()->Ok_0;
                &&& recovered.entries == f.entries
                &&& recovered.snapshot == f.snapshot
                &&& recovered.hard_state == f.hard_state
                &&& log.last_index == f.last_index()
                &&& log.snapshot == f.snapshot
                &&& log.hard_state == f.hard_state
                &&& log.orderly() ==> log.in_step()
                &&& files.len() == 0 ==> log.in_step()
            })
        }),
{
    lemma_opened(dir, files, opts);
    let log = (opened(dir, files, opts).1->Ok_0).0;
    if files.len() == 0 {
        lemma_numbered(files);
        assert(numbered(files).len() == 0) by {
            if numbered(files).len() > 0 {
                let x = numbered(files)[0];
                assert(numbered(files).contains(x));
                assert(is_numbered(files, x));
            }
        }
        lemma_headed_files(dir, numbered(files), opts.max_record_bytes);
        assert(log.records() =~= Seq::empty());
    }
    if log.orderly() {
        lemma_orderly_is_gapless(predecessor(log.segments[0].base_index), log.records());
    }
}

/// The files of a directory that are still there, in the order in which they were
/// listed, as they are now.
pub open spec fn relisted(files: Seq<FileView>, disk: Disk) -> Seq<FileView>
    decreases files.len(),
{
    if files.len() == 0 {
        Seq::empty()
    } else {
        let before = relisted(files.drop_last(), disk);
        let name = files.last().name;
        if disk.contains_key(name) {
            before.push(FileView { name, bytes: disk[name] })
        } else {
            before
        }
    }
}

/// Numbered files that are still there, as they are now.
spec fn kept(all: Seq<(u64, FileView)>, disk: Disk) -> Seq<(u64, FileView)>
    decreases all.len(),
{
    if all.len() == 0 {
        Seq::empty()
    } else {
        let before = kept(all.drop_last(), disk);
        let (seq, file) = all.last();
        if disk.contains_key(file.name) {
            before.push((seq, FileView { name: file.name, bytes: disk[file.name] }))
        } else {
            before
        }
    }
}

/// What is kept of numbered files is below what all of them are below.
proof fn lemma_kept_below(all: Seq<(u64, FileView)>, disk: Disk, top: u64)
    requires
        forall|i: int| 0 <= i < all.len() ==> (#[trigger] all[i]).0 <= top,
    ensures
        kept(all, disk).len() > 0 ==> kept(all, disk).last().0 <= top,
    decreases all.len(),
{
    if all.len() > 0 {
        let head = all.drop_last();
        assert(all[all.len() - 1] == all.last());
        assert forall|i: int| 0 <= i < head.len() implies (#[trigger] head[i]).0 <= top by {
            assert(head[i] == all[i]);
        }
        lemma_kept_below(head, disk, top);
    }
}

/// A file is put in its place among those that are kept as among all.
proof fn lemma_placed_kept(found: Seq<(u64, FileView)>, one: (u64, FileView), disk: Disk)
    requires
        rising(found),
    ensures
        kept(placed(found, one), disk) == (if disk.contains_key(one.1.name) {
            placed(
                kept(found, disk),
                (one.0, FileView { name: one.1.name, bytes: disk[one.1.name] }),
            )
        } else {
            kept(found, disk)
        }),
    decreases found.len(),
{
    if found.len() == 0 || found.last().0 <= one.0 {
        assert(found.push(one).drop_last() =~= found);
        assert forall|i: int| 0 <= i < found.len() implies (#[trigger] found[i]).0 <= one.0 by {
            if i < found.len() - 1 {
                assert(found[i].0 <= found[found.len() - 1].0);
            }
        }
        lemma_kept_below(found, disk, one.0);
    } else {
        let head = found.drop_last();
        let last = found.last();
        assert forall|i: int, j: int| 0 <= i < j < head.len() implies (#[trigger] head[i]).0 <= (
        #[trigger] head[j]).0 by {
            assert(found[i].0 <= found[j].0);
        }
        lemma_placed_kept(head, one, disk);
        let body = placed(head, one);
        assert(body.push(last).drop_last() =~= body);
        if disk.contains_key(last.1.name) {
            let still = (last.0, FileView { name: last.1.name, bytes: disk[last.1.name] });
            assert(kept(found, disk) == kept(head, disk).push(still));
            assert(kept(head, disk).push(still).drop_last() =~= kept(head, disk));
        }
    }
}

/// Files that are listed as before are numbered as before.
proof fn lemma_numbered_relisted(files: Seq<FileView>, disk: Disk)
    requires
        distinct_names(files),
    ensures
        numbered(relisted(files, disk)) == kept(numbered(files), disk),
    decreases files.len(),
{
    if files.len() > 0 {
        let head = files.drop_last();
        let last = files.last();
        assert(forall|i: int| 0 <= i < head.len() ==> #[trigger] head[i] == files[i]);
        lemma_numbered_relisted(head, disk);
        lemma_numbered_holds(head);
        let before = relisted(head, disk);
        let now = FileView { name: last.name, bytes: disk[last.name] };
        assert(before.push(now).drop_last() =~= before);
        match segment_seq(last.name) {
            Some(seq) => lemma_placed_kept(numbered(head), (seq, last), disk),
            None => {},
        }
    }
}

/// Where the first files are still there and no others, those are kept.
proof fn lemma_kept_prefix(all: Seq<(u64, FileView)>, segments: Seq<SegmentView>, disk: Disk)
    requires
        segments.len() <= all.len(),
        forall|i: int|
            0 <= i < segments.len() ==> {
                &&& (#[trigger] segments[i]).seq == all[i].0
                &&& segments[i].name == all[i].1.name
                &&& disk.contains_key(segments[i].name)
            },
        forall|i: int|
            segments.len() <= i < all.len() ==> !disk.contains_key((#[trigger] all[i]).1.name),
    ensures
        kept(all, disk) == wanted_files(disk, segments),
    decreases all.len(),
{
    let wanted = wanted_files(disk, segments);
    if all.len() == 0 {
        assert(wanted =~= Seq::empty());
    } else {
        let head = all.drop_last();
        let n = all.len() - 1;
        assert(all[n] == all.last());
        assert(forall|i: int| 0 <= i < n ==> #[trigger] head[i] == all[i]);
        if segments.len() < all.len() {
            lemma_kept_prefix(head, segments, disk);
        } else {
            let fewer = segments.drop_last();
            assert(forall|i: int| 0 <= i < n ==> #[trigger] fewer[i] == segments[i]);
            assert(disk.contains_key(segments[n].name));
            lemma_kept_prefix(head, fewer, disk);
            assert(wanted_files(disk, fewer).push(wanted[n]) =~= wanted);
        }
    }
}

/// Opening a log a second time, whatever order its directory then lists the files
/// in, gives the same log and recovers the same from it. Nothing is discarded any
/// more, and nothing is asked of the directory. Where two files have names of one
/// number, as no log gives them, the directory lists its files as it did before: of
/// such files the order is all that says which comes first.
pub proof fn law_opening_again_recovers_the_same(
    dir: Seq<char>,
    files: Seq<FileView>,
    again: Seq<FileView>,
    opts: LogOptions,
)
    requires
        distinct_names(files),
        forall|i: int| 0 <= i < files.len() ==> (#[trigger] files[i]).bytes.len() <= u64::MAX,
        opened(dir, files, opts).1 is Ok,
        distinct_names(again),
        disk_of(again) == all_performed(disk_of(files), opened(dir, files, opts).0),
        distinct_numbers(files) || again == relisted(files, disk_of(again)),
    ensures
        ({
            let (log, recovered) = opened(dir, files, opts).1->Ok_0;
            &&& opened(dir, again, opts).0 == Seq::<EffectView>::empty()
            &&& opened(dir, again, opts).1 == Ok::<(LogView, RecoveredView), ErrorView>(
                (log, RecoveredView { discarded_tail_bytes: 0, ..recovered }),
            )
        }),
{
    lemma_opened(dir, files, opts);
    let max = opts.max_record_bytes;
    let (log, recovered) = opened(dir, files, opts).1->Ok_0;
    let all = numbered(files);
    let (found, dropped) = headed(dir, all, max)->Ok_0;
    if distinct_numbers(files) || found.len() == 0 {
        law_reopening_recovers_what_is_held(log, again);
    } else {
        lemma_headed_files(dir, all, max);
        lemma_numbered_holds(files);
        lemma_numbered_relisted(files, log.disk);
        assert forall|i: int| 0 <= i < log.segments.len() implies {
            &&& (#[trigger] log.segments[i]).seq == all[i].0
            &&& log.segments[i].name == all[i].1.name
            &&& log.disk.contains_key(log.segments[i].name)
        } by {
            assert(log.segments[i].name == found[i].name);
        }
        assert forall|i: int| log.segments.len() <= i < all.len() implies !log.disk.contains_key(
            (#[trigger] all[i]).1.name,
        ) by {
            let name = all[i].1.name;
            assert(all.contains(all[i]));
            assert(segment_seq(name) is Some);
            if log.disk.contains_key(name) {
                let k = choose|k: int|
                    0 <= k < log.segments.len() && (#[trigger] log.segments[k]).name == name;
                assert(all[k].1.name != all[i].1.name);
            }
        }
        lemma_kept_prefix(all, log.segments, log.disk);
        lemma_reopened(log, again);
    }
}

/// What a directory that opens comes to.
#[verifier::spinoff_prover]
#[verifier::rlimit(40)]
proof fn lemma_opened(dir: Seq<char>, files: Seq<FileView>, opts: LogOptions)
    requires
        distinct_names(files),
        forall|i: int| 0 <= i < files.len() ==> (#[trigger] files[i]).bytes.len() <= u64::MAX,
        opened(dir, files, opts).1 is Ok,
    ensures
        ({
            let (effects, result) = opened(dir, files, opts);
            let (log, recovered) = result->Ok_0;
            let found = (headed(dir, numbered(files), opts.max_record_bytes)->Ok_0).0;
            &&& distinct_numbers(files) || found.len() == 0 ==> log.sound()
            &&& log.complete()
            &&& log.dir == dir
            &&& log.opts == opts
            &&& found.len() == 0 ==> log.segments.len() == 1 && log.records().len() == 0
            &&& log == LogView::blank(dir, opts, log.disk).holding(
                log.segments,
                log.cursor,
                log.held()->Ok_0.finished()->Ok_0,
            )
            &&& recovered.segments == log.segments.len() as u32
            &&& recovered.clamped_commit == log.held()->Ok_0.finished()->Ok_0.clamped_commit
            &&& log.disk == all_performed(disk_of(files), effects)
            &&& log.held() is Ok
            &&& log.held()->Ok_0.finished() is Ok
            &&& found.len() > 0 ==> {
                &&& log.segments == live(found)
                &&& log.records() == found_stream(found, opts.max_record_bytes)
            }
            &&& ({
                let f = log.held()->Ok_0.finished()->Ok_0;
                &&& recovered.entries == f.entries
                &&& recovered.snapshot == f.snapshot
                &&& recovered.hard_state == f.hard_state
                &&& log.last_index == f.last_index()
                &&& log.snapshot == f.snapshot
                &&& log.hard_state == f.hard_state
            })
        }),
{
    let max = opts.max_record_bytes;
    let (found, dropped) = headed(dir, numbered(files), max)->Ok_0;
    let (effects, result) = opened(dir, files, opts);
    let (log, recovered) = result->Ok_0;
    let cleaned = all_performed(disk_of(files), cleanup_effects(dropped));
    lemma_found_segments(dir, files, max);
    if found.len() == 0 {
        let create = create_effects(opts, 0, 1);
        lemma_performed_in_turn(disk_of(files), cleanup_effects(dropped), create);
        law_a_segment_is_found_by_its_name(0);
        assert(!cleaned.contains_key(segment_file(0)));
        lemma_create_performed(cleaned, opts, 0, 1);
        let empty = LogView::blank(dir, opts, cleaned);
        assert(live(found) =~= Seq::empty());
        assert(empty.segments.push(log.segments[0]) =~= log.segments);
        lemma_header_is_short(0, 1);
        lemma_segment_added(empty, log, 0, 1);
        assert(empty.records() =~= Seq::empty());
        assert(log.held() == Ok::<FoldView, ErrorView>(FoldView::starting_at(0)));
    } else {
        let n = found.len() - 1;
        let start = FoldView::starting_at(predecessor(found[0].base_index));
        let (f, end) = all_replayed(dir, start, found, max)->Ok_0;
        lemma_all_replayed(dir, start, found, max);
        let last = found.last();
        let bytes = last.bytes;
        assert(found[n] == last);
        lemma_header_bounds(bytes, max);
        lemma_scan_bounds(bytes, last.start, max);
        lemma_written_len(bytes);
        lemma_erased_tail_is_not_scanned(bytes, last.start, max);
        let count = written_above(bytes, end);
        let after = overwritten(bytes, end as nat, zeros(count));
        lemma_header_is_local(bytes, after, end, max);
        assert(bytes.len() <= u64::MAX) by {
            lemma_disk_of(files);
            lemma_cleaned(disk_of(files), dropped);
            assert(disk_of(files).contains_key(last.name));
            let k = choose|k: int| 0 <= k < files.len() && (#[trigger] files[k]).name == last.name;
            assert(files[k].bytes == bytes);
        }
        let erase = erase_effects(last.name, end as u64, count as u64);
        lemma_performed_in_turn(disk_of(files), cleanup_effects(dropped), erase);
        assert(log.disk == cleaned.insert(last.name, after)) by {
            if count > 0 {
                let none = Seq::<EffectView>::empty();
                lemma_performed_snoc(cleaned, none, erase[0]);
                lemma_performed_snoc(cleaned, none.push(erase[0]), erase[1]);
                assert(none.push(erase[0]).push(erase[1]) =~= erase);
                assert(all_performed(cleaned, none) == cleaned);
                assert(Seq::new(count, |i: int| 0u8) =~= zeros(count));
            } else {
                assert(after =~= bytes);
                assert(cleaned.insert(last.name, after) =~= cleaned);
            }
        }
        let segments = live(found);
        assert(segments[n].name == last.name);
        assert forall|i: int| 0 <= i < n implies (#[trigger] found[i]).name != last.name by {
            assert(found[i].name != found[n].name);
        }
        assert forall|i: int| 0 <= i < found.len() implies {
            &&& segment_records(log.disk[(#[trigger] found[i]).name], max) == scanned(
                found[i].bytes,
                found[i].start,
                max,
            ).0
            &&& log.disk.contains_key(found[i].name)
            &&& intact(log.disk[found[i].name], found[i].base_index, max)
        } by {
            if i < n {
                assert(log.disk[found[i].name] == found[i].bytes);
            }
        }
        lemma_found_stream(log.disk, found, max);
        assert(all_intact(log.disk, segments, max)) by {
            assert forall|i: int| 0 <= i < segments.len() implies {
                &&& log.disk.contains_key((#[trigger] segments[i]).name)
                &&& intact(log.disk[segments[i].name], segments[i].base_index, max)
            } by {
                assert(segments[i].name == found[i].name);
            }
        }
        assert(no_other(log.disk, segments)) by {
            assert forall|name: Seq<char>| #[trigger]
                log.disk.contains_key(name) && segment_seq(name) is Some implies exists|i: int|
                0 <= i < segments.len() && (#[trigger] segments[i]).name == name by {
                if name == last.name {
                    assert(segments[n].name == name);
                } else {
                    assert(cleaned.contains_key(name));
                }
            }
        }
        assert(segments[0].base_index == found[0].base_index);
        assert(log.held() == Ok::<FoldView, ErrorView>(f));
    }
}

/// Damage is never guessed past: where a directory opens, every segment but the
/// newest has its header and ends cleanly, whatever the newest one looks like.
pub proof fn law_only_the_newest_segment_may_be_torn(
    dir: Seq<char>,
    files: Seq<FileView>,
    opts: LogOptions,
    i: int,
)
    requires
        opened(dir, files, opts).1 is Ok,
        0 <= i < numbered(files).len() - 1,
    ensures
        ({
            let bytes = numbered(files)[i].1.bytes;
            let max = opts.max_record_bytes;
            &&& step(bytes, 0, max) is Record
            &&& header_of(bytes, max) is Some
            &&& i < numbered(files).len() - 2 ==> {
                let start = (header_of(bytes, max)->Some_0).1;
                scanned(bytes, start, max).2 == Outcome::Stopped(Stop::EndOfWrittenRegion)
            }
        }),
{
    let max = opts.max_record_bytes;
    let all = numbered(files);
    lemma_headed_files(dir, all, max);
    let (found, dropped) = headed(dir, all, max)->Ok_0;
    assert(found[i].bytes == all[i].1.bytes);
    let start = FoldView::starting_at(predecessor(found[0].base_index));
    lemma_all_replayed(dir, start, found, max);
}

// ----------------------------------------------------------------- crashes

/// Whatever a crash leaves above the records of a segment, a scan of the segment
/// finds those records first, all of them, in order.
pub proof fn law_records_survive_what_a_crash_leaves_above_them(
    before: Seq<u8>,
    after: Seq<u8>,
    pos: int,
    max: u32,
)
    requires
        0 <= pos <= before.len(),
        before.len() <= after.len(),
        scanned(before, pos, max).2 is Stopped,
        forall|i: int| 0 <= i < scanned(before, pos, max).1 ==> before[i] == after[i],
    ensures
        ({
            let records = scanned(before, pos, max).0;
            &&& scanned(after, pos, max).0.len() >= records.len()
            &&& scanned(after, pos, max).0.take(records.len() as int) == records
        }),
{
    lemma_scan_is_local(before, after, pos, max);
    let (records, end, _) = scanned(before, pos, max);
    let more = scanned(after, end, max).0;
    assert((records + more).take(records.len() as int) =~= records);
}

impl LogView {
    /// Whether a directory is one that a crash may leave of a log that was made
    /// durable: every segment below the newest as it was, the newest as it was up
    /// to the cursor and with anything above it, and no segment that the log does
    /// not have but those with later numbers.
    pub open spec fn may_leave(self, disk: Disk) -> bool {
        let newest = self.current();
        &&& forall|i: int|
            0 <= i < self.segments.len() - 1 ==> disk.contains_key(
                (#[trigger] self.segments[i]).name,
            ) && disk[self.segments[i].name] == self.disk[self.segments[i].name]
        &&& disk.contains_key(newest.name)
        &&& disk[newest.name].len() >= self.disk[newest.name].len()
        &&& disk[newest.name].take(self.cursor as int) == self.disk[newest.name].take(
            self.cursor as int,
        )
        &&& forall|name: Seq<char>| #[trigger]
            disk.contains_key(name) && segment_seq(name) is Some ==> segment_seq(name)->Some_0
                > newest.seq || exists|i: int|
                0 <= i < self.segments.len() && (#[trigger] self.segments[i]).name == name
    }
}

/// The first of some files in ascending order are the ones wanted, where every
/// other one comes later.
proof fn lemma_ascending_prefix(all: Seq<(u64, FileView)>, wanted: Seq<(u64, FileView)>)
    requires
        ascending(all),
        ascending(wanted),
        wanted.len() > 0,
        forall|i: int| 0 <= i < wanted.len() ==> all.contains(#[trigger] wanted[i]),
        forall|i: int|
            0 <= i < all.len() ==> wanted.contains(#[trigger] all[i]) || all[i].0 > wanted.last().0,
    ensures
        all.len() >= wanted.len(),
        all.take(wanted.len() as int) == wanted,
{
    let last = wanted.last();
    assert(wanted[wanted.len() - 1] == last);
    let j = choose|j: int| 0 <= j < all.len() && all[j] == last;
    let head = all.take(j + 1);
    assert forall|a: int, b: int| 0 <= a < b < head.len() implies (#[trigger] head[a]).0 < (
    #[trigger] head[b]).0 by {
        assert(all[a].0 < all[b].0);
    }
    assert forall|x: (u64, FileView)| #[trigger] head.contains(x) <==> wanted.contains(x) by {
        if head.contains(x) {
            let k = choose|k: int| 0 <= k < head.len() && head[k] == x;
            assert(all[k] == x);
            if k < j {
                assert(all[k].0 < all[j].0);
            }
        }
        if wanted.contains(x) {
            let k = choose|k: int| 0 <= k < wanted.len() && wanted[k] == x;
            assert(all.contains(wanted[k]));
            let m = choose|m: int| 0 <= m < all.len() && all[m] == x;
            if k < wanted.len() - 1 {
                assert(wanted[k].0 < wanted[wanted.len() - 1].0);
            }
            if m > j {
                assert(all[j].0 < all[m].0);
            }
            assert(head[m] == x);
        }
    }
    lemma_ascending_is_unique(head, wanted);
}

/// The files that a crash leaves begin with those of the log.
proof fn lemma_files_after_a_crash(log: LogView, files: Seq<FileView>)
    requires
        log.sound(),
        distinct_names(files),
        distinct_numbers(files),
        log.may_leave(disk_of(files)),
    ensures
        numbered(files).len() >= log.segments.len(),
        numbered(files).take(log.segments.len() as int) == wanted_files(
            disk_of(files),
            log.segments,
        ),
        no_other(disk_of(files), log.segments) ==> numbered(files) == wanted_files(
            disk_of(files),
            log.segments,
        ),
{
    let disk = disk_of(files);
    let all = numbered(files);
    let wanted = wanted_files(disk, log.segments);
    lemma_disk_of(files);
    lemma_numbered(files);
    assert forall|i: int, j: int| 0 <= i < j < wanted.len() implies (#[trigger] wanted[i]).0 < (
    #[trigger] wanted[j]).0 by {
        assert(log.segments[i].seq < log.segments[j].seq);
    }
    assert forall|i: int| 0 <= i < wanted.len() implies all.contains(#[trigger] wanted[i]) by {
        let name = log.segments[i].name;
        assert(disk.contains_key(name));
        let k = choose|k: int| 0 <= k < files.len() && (#[trigger] files[k]).name == name;
        assert(files[k] == wanted[i].1);
        assert(is_numbered(files, wanted[i]));
    }
    assert(wanted.last().0 == log.current().seq);
    assert forall|i: int| 0 <= i < all.len() implies wanted.contains(#[trigger] all[i]) || (
    all[i].0 > wanted.last().0 && !no_other(disk, log.segments)) by {
        assert(all.contains(all[i]));
        let k = choose|k: int|
            0 <= k < files.len() && #[trigger] files[k] == all[i].1 && segment_seq(files[k].name)
                == Some(all[i].0);
        let name = files[k].name;
        assert(disk.contains_key(name));
        if exists|a: int| 0 <= a < log.segments.len() && (#[trigger] log.segments[a]).name == name {
            let a = choose|a: int|
                0 <= a < log.segments.len() && (#[trigger] log.segments[a]).name == name;
            assert(wanted[a] == all[i]);
        }
    }
    lemma_ascending_prefix(all, wanted);
    if no_other(disk, log.segments) && all.len() > wanted.len() {
        let m = wanted.len() as int;
        assert(wanted.contains(all[m]));
        let k = choose|k: int| 0 <= k < wanted.len() && wanted[k] == all[m];
        assert(all.take(m)[k] == all[k]);
        assert(all[k].0 < all[m].0);
    }
    assert(all.len() == wanted.len() ==> all.take(wanted.len() as int) =~= all);
}

/// What a crash leaves of the newest segment still has its header, and a scan of
/// it goes on from where the log's records end.
proof fn lemma_newest_after_a_crash(log: LogView, disk: Disk)
    requires
        log.sound(),
        log.may_leave(disk),
    ensures
        ({
            let max = log.opts.max_record_bytes;
            let before = log.disk[log.current().name];
            let after = disk[log.current().name];
            let (_, start) = header_of(before, max)->Some_0;
            let (more, last, outcome) = scanned(after, log.cursor as int, max);
            &&& header_of(before, max) is Some
            &&& header_of(after, max) == header_of(before, max)
            &&& scanned(after, start, max) == (segment_records(before, max) + more, last, outcome)
        }),
{
    let max = log.opts.max_record_bytes;
    let n = log.segments.len() - 1;
    assert(log.segments[n] == log.current());
    assert(intact(log.disk[log.segments[n].name], log.segments[n].base_index, max));
    let before = log.disk[log.current().name];
    let after = disk[log.current().name];
    let (_, start) = header_of(before, max)->Some_0;
    let end = log.cursor as int;
    lemma_header_bounds(before, max);
    lemma_scan_bounds(before, start, max);
    lemma_header_is_local(before, after, end, max);
    assert forall|i: int| 0 <= i < end implies before[i] == after[i] by {
        assert(before.take(end)[i] == after.take(end)[i]);
    }
    lemma_scan_is_local(before, after, start, max);
}

/// The records of segments that were found begin with the stream of a log, where
/// each of the log's segments is found with the records it had, and the newest
/// with those and perhaps more.
proof fn lemma_found_stream_extends(
    disk: Disk,
    segments: Seq<SegmentView>,
    found: Seq<FoundView>,
    max: u32,
)
    requires
        0 < segments.len() <= found.len(),
        forall|i: int|
            0 <= i < segments.len() - 1 ==> scanned(
                (#[trigger] found[i]).bytes,
                found[i].start,
                max,
            ).0 == segment_records(disk[segments[i].name], max),
        segment_records(disk[segments.last().name], max).is_prefix_of(
            scanned(found[segments.len() - 1].bytes, found[segments.len() - 1].start, max).0,
        ),
    ensures
        stream(disk, segments, max).is_prefix_of(found_stream(found, max)),
    decreases segments.len(),
{
    lemma_stream_front(disk, segments, max);
    let others = segments.skip(1);
    let rest = found.skip(1);
    let head = scanned(found[0].bytes, found[0].start, max).0;
    if segments.len() == 1 {
        assert(stream(disk, others, max) =~= Seq::empty());
        assert(segments.last() == segments[0]);
        let records = segment_records(disk[segments[0].name], max);
        assert(stream(disk, segments, max) =~= records);
        assert(records =~= found_stream(found, max).subrange(0, records.len() as int)) by {
            assert(records =~= head.subrange(0, records.len() as int));
        }
    } else {
        assert forall|i: int| 0 <= i < others.len() - 1 implies scanned(
            (#[trigger] rest[i]).bytes,
            rest[i].start,
            max,
        ).0 == segment_records(disk[others[i].name], max) by {
            assert(rest[i] == found[i + 1]);
            assert(others[i] == segments[i + 1]);
        }
        assert(rest[others.len() - 1] == found[segments.len() - 1]);
        assert(others.last() == segments.last());
        lemma_found_stream_extends(disk, others, rest, max);
        let (short, long) = (stream(disk, others, max), found_stream(rest, max));
        assert(head == segment_records(disk[segments[0].name], max));
        assert(head + short =~= (head + long).subrange(0, (head + short).len() as int)) by {
            assert(short =~= long.subrange(0, short.len() as int));
        }
    }
}

/// A log that was made durable survives a crash: where what the crash left can be
/// opened, the records of the log that is opened begin with all of its records,
/// and what it holds is what the log held with the rest taken into account.
pub proof fn law_what_was_durable_survives_a_crash(log: LogView, files: Seq<FileView>)
    requires
        log.sound(),
        distinct_names(files),
        distinct_numbers(files),
        forall|i: int| 0 <= i < files.len() ==> (#[trigger] files[i]).bytes.len() <= u64::MAX,
        log.may_leave(disk_of(files)),
        opened(log.dir, files, log.opts).1 is Ok,
    ensures
        ({
            let next = (opened(log.dir, files, log.opts).1->Ok_0).0;
            let more = next.records().skip(log.records().len() as int);
            &&& next.sound()
            &&& log.records().is_prefix_of(next.records())
            &&& log.held() is Ok
            &&& next.held() == folded(log.held()->Ok_0, more)
        }),
{
    let max = log.opts.max_record_bytes;
    let disk = disk_of(files);
    let all = numbered(files);
    let m = log.segments.len();
    let (found, dropped) = headed(log.dir, all, max)->Ok_0;
    let wanted = wanted_files(disk, log.segments);
    lemma_files_after_a_crash(log, files);
    lemma_newest_after_a_crash(log, disk);
    lemma_headed_files(log.dir, all, max);
    assert forall|i: int| 0 <= i < m implies #[trigger] all[i] == wanted[i] by {
        assert(all.take(m as int)[i] == all[i]);
    }
    assert(log.segments[m - 1] == log.current());
    if dropped is Some && all.len() == m {
        assert(all.last() == wanted[m - 1]);
        assert(false);
    }
    lemma_opened(log.dir, files, log.opts);
    assert forall|i: int| 0 <= i < m - 1 implies scanned(
        (#[trigger] found[i]).bytes,
        found[i].start,
        max,
    ).0 == segment_records(log.disk[log.segments[i].name], max) by {
        assert(all[i] == wanted[i]);
    }
    assert(all[m - 1] == wanted[m - 1]);
    let records = segment_records(log.disk[log.current().name], max);
    let longer = scanned(found[m - 1].bytes, found[m - 1].start, max).0;
    assert(records =~= longer.subrange(0, records.len() as int));
    lemma_found_stream_extends(log.disk, log.segments, found, max);
    let next = (opened(log.dir, files, log.opts).1->Ok_0).0;
    let more = next.records().skip(log.records().len() as int);
    assert(next.records() =~= log.records() + more) by {
        assert(log.records() =~= next.records().subrange(0, log.records().len() as int));
    }
    assert(all[0] == wanted[0]);
    assert(next.segments[0].base_index == found[0].base_index);
    assert(log.segments[0].base_index == found[0].base_index) by {
        assert(intact(log.disk[log.segments[0].name], log.segments[0].base_index, max));
    }
    let start = FoldView::starting_at(predecessor(log.segments[0].base_index));
    lemma_folded_concat(start, log.records(), more);
}

/// A torn tail is discarded, and nothing else is: where all that a crash left of
/// the next record does not read as one, the log opens with exactly what it held,
/// and erases what was written above its cursor.
pub proof fn law_a_torn_tail_is_discarded(log: LogView, files: Seq<FileView>)
    requires
        log.sound(),
        log.held() is Ok,
        log.held()->Ok_0.finished() is Ok,
        distinct_names(files),
        log.may_leave(disk_of(files)),
        no_other(disk_of(files), log.segments),
        step(
            disk_of(files)[log.current().name],
            log.cursor as int,
            log.opts.max_record_bytes,
        ) is Stop,
    ensures
        ({
            let disk = disk_of(files);
            let f = log.held()->Ok_0.finished()->Ok_0;
            let newest = log.current().name;
            let torn = written_above(disk[newest], log.cursor as int) as u64;
            let effects = erase_effects(newest, log.cursor, torn);
            opened(log.dir, files, log.opts) == (
                effects,
                Ok::<(LogView, RecoveredView), ErrorView>(
                    (
                        LogView::blank(log.dir, log.opts, all_performed(disk, effects)).holding(
                            log.segments,
                            log.cursor,
                            f,
                        ),
                        RecoveredView {
                            hard_state: f.hard_state,
                            snapshot: f.snapshot,
                            entries: f.entries,
                            discarded_tail_bytes: torn,
                            clamped_commit: f.clamped_commit,
                            segments: log.segments.len() as u32,
                        },
                    ),
                ),
            )
        }),
{
    let max = log.opts.max_record_bytes;
    let disk = disk_of(files);
    let segments = log.segments;
    let n = segments.len() - 1;
    lemma_numbers_differ(segments, files);
    lemma_files_after_a_crash(log, files);
    lemma_newest_after_a_crash(log, disk);
    assert(segments[n] == log.current());
    let after = disk[log.current().name];
    let records = segment_records(log.disk[log.current().name], max);
    assert(records + Seq::<RecordView>::empty() =~= records);
    assert(segment_records(after, max) == records);
    assert forall|i: int| 0 <= i < segments.len() implies intact(
        log.disk[(#[trigger] segments[i]).name],
        segments[i].base_index,
        max,
    ) by {}
    assert(readable(disk, segments, max));
    lemma_headed(log.dir, disk, segments, numbered(files), max);
    let found = all_found(disk, segments, max);
    assert(found[0] == found_of(disk, segments[0], max));
    assert(found.last() == found_of(disk, segments[n], max));
    let start = FoldView::starting_at(predecessor(segments[0].base_index));
    lemma_replay_folds_the_stream(log.dir, start, disk, segments, max);
    assert(stream(disk, segments, max) == log.records()) by {
        let older = segments.drop_last();
        assert forall|i: int| 0 <= i < older.len() implies disk[(#[trigger] older[i]).name]
            == log.disk[older[i].name] by {
            assert(older[i] == segments[i]);
        }
        lemma_stream_agrees(disk, log.disk, older, max);
    }
    assert(live(found) =~= segments);
    let torn = written_above(after, log.cursor as int) as u64;
    let effects = erase_effects(log.current().name, log.cursor, torn);
    assert(cleanup_effects(None) + effects =~= effects);
}

// -------------------------------------------------------------- compaction

/// The oldest segment unlinked from a sound log that has others.
proof fn lemma_dropping_one(log: LogView)
    requires
        log.sound(),
        log.segments.len() > 1,
    ensures
        ({
            let next = LogView { segments: log.segments.skip(1), ..log }.emitting(
                seq![EffectView::Remove { name: log.segments[0].name }],
            );
            &&& next.sound()
            &&& next.records() == stream(
                log.disk,
                log.segments.skip(1),
                log.opts.max_record_bytes,
            )
            &&& next.disk == log.disk.remove(log.segments[0].name)
        }),
{
    let max = log.opts.max_record_bytes;
    let others = log.segments.skip(1);
    let name = log.segments[0].name;
    let next = LogView { segments: others, ..log }.emitting(seq![EffectView::Remove { name }]);
    lemma_performed_one(log.disk, EffectView::Remove { name });
    assert forall|i: int| 0 <= i < others.len() implies {
        &&& #[trigger] others[i] == log.segments[i + 1]
        &&& others[i].name != name
    } by {
        lemma_names_differ(log.segments, 0, i + 1);
    }
    assert forall|i: int| 0 <= i < others.len() implies next.disk[(#[trigger] others[i]).name]
        == log.disk[others[i].name] by {}
    lemma_stream_agrees(next.disk, log.disk, others, max);
    assert(ordered(others)) by {
        assert forall|i: int, j: int| 0 <= i < j < others.len() implies (#[trigger] others[i]).seq
            < (#[trigger] others[j]).seq by {
            assert(log.segments[i + 1].seq < log.segments[j + 1].seq);
        }
    }
    assert(no_other(next.disk, others)) by {
        assert forall|other: Seq<char>| #[trigger]
            next.disk.contains_key(other) && segment_seq(other) is Some implies exists|i: int|
            0 <= i < others.len() && (#[trigger] others[i]).name == other by {
            assert(log.disk.contains_key(other));
            let i = choose|i: int|
                0 <= i < log.segments.len() && (#[trigger] log.segments[i]).name == other;
            assert(others[i - 1].name == other);
        }
    }
    assert(others.last() == log.segments.last());
    assert(others[others.len() - 1].name != name);
}

/// The oldest segments unlinked from a sound log, not all of them.
proof fn lemma_dropping(log: LogView, count: nat)
    requires
        log.sound(),
        count < log.segments.len(),
    ensures
        log.dropping(count).sound(),
        log.dropping(count).segments == log.segments.skip(count as int),
        log.dropping(count).records() == stream(
            log.disk,
            log.segments.skip(count as int),
            log.opts.max_record_bytes,
        ),
        forall|i: int|
            count <= i < log.segments.len() ==> log.dropping(count).disk[(
            #[trigger] log.segments[i]).name] == log.disk[log.segments[i].name],
        log.dropping(count).opts == log.opts,
        log.dropping(count).last_index == log.last_index,
        log.dropping(count).snapshot == log.snapshot,
        log.dropping(count).hard_state == log.hard_state,
    decreases count,
{
    if count == 0 {
        assert(log.segments.skip(0) =~= log.segments);
    } else {
        let max = log.opts.max_record_bytes;
        let name = log.segments[0].name;
        let next = LogView { segments: log.segments.skip(1), ..log }.emitting(
            seq![EffectView::Remove { name }],
        );
        lemma_dropping_one(log);
        lemma_dropping(next, (count - 1) as nat);
        let rest = log.segments.skip(count as int);
        assert(next.segments.skip(count - 1) =~= rest);
        assert forall|i: int| 0 <= i < rest.len() implies next.disk[(#[trigger] rest[i]).name]
            == log.disk[rest[i].name] by {
            assert(rest[i] == log.segments[count + i]);
            lemma_names_differ(log.segments, 0, count + i);
        }
        lemma_stream_agrees(next.disk, log.disk, rest, max);
    }
}

/// A snapshot never makes the newest segment redundant.
proof fn lemma_newest_is_never_covered(segments: Seq<SegmentView>, covers: Index)
    requires
        segments.len() > 0,
    ensures
        LogView::covered_segments(segments, covers) < segments.len(),
        LogView::covered_segments(segments, covers) > 0 ==> segments[LogView::covered_segments(
            segments,
            covers,
        ) as int].base_index <= covers + 1,
    decreases segments.len(),
{
    if segments.len() > 1 && segments[1].base_index <= covers + 1 {
        lemma_newest_is_never_covered(segments.skip(1), covers);
    }
}

/// Whether a fold of the later part of a record stream, from a floor, agrees with
/// the fold of all of it: it holds what the other does above the floor, or all of
/// it once it has met the snapshot.
spec fn agree(full: FoldView, short: FoldView) -> bool {
    &&& gapless(full.entries, full.base())
    &&& short.last_index() == full.last_index()
    &&& match short.snapshot {
        Some(_) => short.snapshot == full.snapshot && short.entries == full.entries,
        None => {
            &&& full.base() <= short.floor <= full.last_index()
            &&& short.entries == full.entries.skip(short.floor - full.base())
        },
    }
}

/// The term of an entry of a log without a gap.
proof fn lemma_entry_term(entries: Seq<EntryView>, base: Index, index: Index)
    requires
        gapless(entries, base),
    ensures
        entry_term(entries, index) == (if base < index && index - base <= entries.len() {
            Some(entries[index - base - 1].term)
        } else {
            None
        }),
    decreases entries.len(),
{
    if entries.len() > 0 {
        assert(entries[0].index == base + 1);
        if entries[0].index != index && base < u64::MAX {
            let others = entries.skip(1);
            assert forall|i: int| 0 <= i < others.len() implies (#[trigger] others[i]).index
                == base + 1 + 1 + i by {
                assert(others[i] == entries[i + 1]);
            }
            lemma_entry_term(others, (base + 1) as u64, index);
        }
    }
}

/// No entry of a log is below its first.
proof fn lemma_none_below(entries: Seq<EntryView>, base: Index, from: Index)
    requires
        gapless(entries, base),
        from <= base,
    ensures
        entries_below(entries, from) == Seq::<EntryView>::empty(),
    decreases entries.len(),
{
    reveal(Seq::filter);
    if entries.len() > 0 {
        let head = entries.drop_last();
        assert(forall|i: int| 0 <= i < head.len() ==> #[trigger] head[i] == entries[i]);
        lemma_none_below(head, base, from);
        assert(entries.last() == entries[entries.len() - 1]);
    }
    assert(entries_below(entries, from) =~= Seq::<EntryView>::empty());
}

/// A log without a gap ends so many entries above its base.
proof fn lemma_last_of(f: FoldView)
    requires
        gapless(f.entries, f.base()),
    ensures
        f.last_index() == f.base() + f.entries.len(),
{
    let n = f.entries.len() - 1;
    if n >= 0 {
        assert(f.entries[n].index == f.base() + 1 + n);
    }
}

/// What is left of a log without a gap from a place on.
proof fn lemma_gapless_skip(entries: Seq<EntryView>, base: Index, k: int)
    requires
        gapless(entries, base),
        0 <= k <= entries.len(),
        base + k <= u64::MAX,
    ensures
        gapless(entries.skip(k), (base + k) as u64),
{
    let rest = entries.skip(k);
    assert forall|i: int| 0 <= i < rest.len() implies (#[trigger] rest[i]).index == base + k + 1
        + i by {
        assert(rest[i] == entries[k + i]);
    }
}

/// Both folds take a truncation the same way.
proof fn lemma_agree_truncate(full: FoldView, short: FoldView, from: Index)
    requires
        agree(full, short),
        orderly(full, RecordView::Truncate { from }),
    ensures
        agree(
            full.applied(RecordView::Truncate { from })->Ok_0,
            short.applied(RecordView::Truncate { from })->Ok_0,
        ),
        orderly(short, RecordView::Truncate { from }),
        short.applied(RecordView::Truncate { from })->Ok_0.floor <= short.floor,
{
    lemma_last_of(full);
    let record = RecordView::Truncate { from };
    let (a, b) = (full.applied(record)->Ok_0, short.applied(record)->Ok_0);
    if from <= full.base() {
        lemma_none_below(full.entries, full.base(), from);
    } else {
        lemma_entries_below(full.entries, full.base(), from);
    }
    assert(gapless(a.entries, a.base()));
    lemma_last_of(a);
    if short.snapshot is None {
        let k = short.floor - full.base();
        lemma_gapless_skip(full.entries, full.base(), k);
        if from <= short.floor {
            lemma_none_below(short.entries, short.floor, from);
            assert(b.entries =~= a.entries.skip(b.floor - a.base()));
        } else {
            lemma_entries_below(short.entries, short.floor, from);
            assert(b.entries =~= a.entries.skip(k));
            assert(gapless(b.entries, b.base())) by {
                lemma_gapless_skip(a.entries, a.base(), k);
            }
            lemma_last_of(b);
        }
    }
}

/// Both folds take a snapshot the same way.
#[verifier::spinoff_prover]
#[verifier::rlimit(40)]
proof fn lemma_agree_snapshot(full: FoldView, short: FoldView, meta: SnapshotMetaView)
    requires
        agree(full, short),
        orderly(full, RecordView::Snapshot(meta)),
    ensures
        agree(
            full.applied(RecordView::Snapshot(meta))->Ok_0,
            short.applied(RecordView::Snapshot(meta))->Ok_0,
        ),
        orderly(short, RecordView::Snapshot(meta)),
        short.applied(RecordView::Snapshot(meta))->Ok_0.floor <= short.floor,
        meta.index >= short.floor ==> short.applied(
            RecordView::Snapshot(meta),
        )->Ok_0.snapshot is Some,
{
    lemma_last_of(full);
    let record = RecordView::Snapshot(meta);
    let (a, b) = (full.applied(record)->Ok_0, short.applied(record)->Ok_0);
    let base = full.base();
    if !full.is_behind(meta) {
        lemma_entries_above(full.entries, base, meta.index);
        lemma_entry_term(full.entries, base, meta.index);
        assert(a.entries =~= entries_above(full.entries, meta.index));
        if meta.index < full.last_index() {
            lemma_gapless_skip(full.entries, base, meta.index - base);
        }
        assert(gapless(a.entries, a.base()));
        lemma_last_of(a);
        if short.snapshot is None {
            let k = short.floor - base;
            lemma_gapless_skip(full.entries, base, k);
            if meta.index >= short.floor {
                lemma_entries_above(short.entries, short.floor, meta.index);
                lemma_entry_term(short.entries, short.floor, meta.index);
                if meta.index < full.last_index() {
                    assert(full.entries.skip(k).skip(meta.index - short.floor)
                        =~= full.entries.skip(meta.index - base));
                }
                assert(b.entries =~= a.entries);
            } else {
                assert(b == short);
                assert(full.entries.skip(meta.index - base).skip(short.floor - meta.index)
                    =~= full.entries.skip(k));
            }
        }
    } else if short.snapshot is None && full.snapshot is Some && meta.index >= short.floor {
        let k = short.floor - base;
        assert(k == 0);
        lemma_entries_above(short.entries, short.floor, meta.index);
        lemma_entry_term(short.entries, short.floor, meta.index);
        assert(full.entries.skip(0) =~= full.entries);
        assert(full.entries.skip(meta.index - short.floor) =~= full.entries);
        assert(b.entries =~= full.entries);
    }
}

/// Both folds take the same record the same way.
proof fn lemma_agree_step(full: FoldView, short: FoldView, record: RecordView)
    requires
        agree(full, short),
        orderly(full, record),
        full.applied(record) is Ok,
    ensures
        short.applied(record) is Ok,
        agree(full.applied(record)->Ok_0, short.applied(record)->Ok_0),
        orderly(short, record),
        short.applied(record)->Ok_0.floor <= short.floor,
{
    match record {
        RecordView::Truncate { from } => lemma_agree_truncate(full, short, from),
        RecordView::Snapshot(meta) => lemma_agree_snapshot(full, short, meta),
        RecordView::Entries(entries) => {
            lemma_last_of(full);
            let (a, b) = (full.applied(record)->Ok_0, short.applied(record)->Ok_0);
            let n = full.entries.len() as int;
            assert forall|i: int| 0 <= i < a.entries.len() implies (#[trigger] a.entries[i]).index
                == a.base() + 1 + i by {
                if i >= n {
                    assert(a.entries[i] == entries[i - n]);
                }
            }
            assert(a.entries.last() == entries.last());
            assert(b.entries.last() == entries.last());
            if short.snapshot is None {
                assert(b.entries =~= a.entries.skip(short.floor - full.base()));
            }
        },
        _ => {},
    }
}

/// The first records of an orderly stream are orderly.
proof fn lemma_orderly_prefix(f: FoldView, a: Seq<RecordView>, b: Seq<RecordView>)
    requires
        all_orderly(f, a + b),
    ensures
        all_orderly(f, a),
    decreases b.len(),
{
    if b.len() == 0 {
        assert(a + b =~= a);
    } else {
        assert((a + b).drop_last() =~= a + b.drop_last());
        lemma_orderly_prefix(f, a, b.drop_last());
    }
}

/// An orderly stream folds.
proof fn lemma_orderly_folds(f: FoldView, records: Seq<RecordView>)
    requires
        all_orderly(f, records),
    ensures
        folded(f, records) is Ok,
{
    if records.len() > 0 {
        let head = records.drop_last();
        lemma_folded_snoc(f, head, records.last());
        assert(head.push(records.last()) =~= records);
    }
}

/// An orderly stream from nothing holds entries without a gap.
proof fn lemma_orderly_is_gapless(floor: Index, records: Seq<RecordView>)
    requires
        all_orderly(FoldView::starting_at(floor), records),
    ensures
        folded(FoldView::starting_at(floor), records) is Ok,
        gapless(
            folded(FoldView::starting_at(floor), records)->Ok_0.entries,
            folded(FoldView::starting_at(floor), records)->Ok_0.base(),
        ),
    decreases records.len(),
{
    let start = FoldView::starting_at(floor);
    lemma_orderly_folds(start, records);
    if records.len() > 0 {
        let head = records.drop_last();
        lemma_orderly_is_gapless(floor, head);
        lemma_folded_snoc(start, head, records.last());
        assert(head.push(records.last()) =~= records);
        let f = folded(start, head)->Ok_0;
        lemma_last_of(f);
        if f.snapshot is None {
            assert(f.entries.skip(0) =~= f.entries);
            if f.floor <= f.last_index() {
                assert(agree(f, f));
            }
        }
        assert(agree(f, f));
        lemma_agree_step(f, f, records.last());
    }
}

/// The fold of the later part of an orderly stream, from where the earlier part
/// ended, agrees with the fold of all of it, and is orderly itself.
proof fn lemma_agree_all(
    start: FoldView,
    gone: Seq<RecordView>,
    left: Seq<RecordView>,
    floor: Index,
)
    requires
        all_orderly(start, gone + left),
        folded(start, gone) is Ok,
        gapless(folded(start, gone)->Ok_0.entries, folded(start, gone)->Ok_0.base()),
        folded(start, gone)->Ok_0.last_index() == floor,
    ensures
        folded(start, gone + left) is Ok,
        folded(FoldView::starting_at(floor), left) is Ok,
        all_orderly(FoldView::starting_at(floor), left),
        agree(
            folded(start, gone + left)->Ok_0,
            folded(FoldView::starting_at(floor), left)->Ok_0,
        ),
        folded(FoldView::starting_at(floor), left)->Ok_0.floor <= floor,
    decreases left.len(),
{
    let short = FoldView::starting_at(floor);
    if left.len() == 0 {
        assert(gone + left =~= gone);
        let f = folded(start, gone)->Ok_0;
        lemma_last_of(f);
        assert(short.entries =~= f.entries.skip(floor - f.base()));
    } else {
        let head = left.drop_last();
        let all = gone + left;
        assert(all.drop_last() =~= gone + head);
        assert(all.last() == left.last());
        lemma_agree_all(start, gone, head, floor);
        lemma_folded_snoc(start, gone + head, left.last());
        lemma_folded_snoc(short, head, left.last());
        assert((gone + head).push(left.last()) =~= all);
        assert(head.push(left.last()) =~= left);
        lemma_agree_step(
            folded(start, gone + head)->Ok_0,
            folded(short, head)->Ok_0,
            left.last(),
        );
    }
}

/// The stream of a log in two parts.
proof fn lemma_stream_split(disk: Disk, segments: Seq<SegmentView>, at: int, max: u32)
    requires
        0 <= at <= segments.len(),
    ensures
        stream(disk, segments, max) == stream(disk, segments.take(at), max) + stream(
            disk,
            segments.skip(at),
            max,
        ),
    decreases segments.len(),
{
    if at == segments.len() {
        assert(segments.take(at) =~= segments);
        assert(segments.skip(at) =~= Seq::empty());
        assert(stream(disk, segments, max) =~= stream(disk, segments.take(at), max) + stream(
            disk,
            segments.skip(at),
            max,
        ));
    } else {
        let head = segments.drop_last();
        lemma_stream_split(disk, head, at, max);
        assert(head.take(at) =~= segments.take(at));
        assert(head.skip(at) =~= segments.skip(at).drop_last());
        assert(segments.skip(at).last() == segments.last());
        assert(stream(disk, segments, max) =~= stream(disk, segments.take(at), max) + stream(
            disk,
            segments.skip(at),
            max,
        ));
    }
}

impl LogView {
    /// The log with its snapshot and its hard state written once more, and
    /// durable: what it looks like just before a compaction unlinks anything.
    pub open spec fn restated(self) -> LogView {
        self.staged(RecordView::Snapshot(self.snapshot->0))->Ok_0.staged(
            RecordView::HardState(self.hard_state),
        )->Ok_0.synced()
    }

    /// How many segments a compaction drops: none from the one on that the
    /// snapshot was written to once more.
    pub open spec fn redundant(self) -> nat {
        LogView::covered_segments(
            self.staged(RecordView::Snapshot(self.snapshot->0))->Ok_0.segments,
            self.snapshot->0.index,
        )
    }
}

/// A log whose snapshot and hard state were written once more.
#[verifier::spinoff_prover]
#[verifier::rlimit(40)]
proof fn lemma_restated(log: LogView)
    requires
        log.sound(),
        takes_headers(log.opts.max_record_bytes),
        log.in_step(),
        log.last_index < u64::MAX,
        log.snapshot is Some,
        RecordView::Snapshot(log.snapshot->0).fits(),
        log.staged(RecordView::Snapshot(log.snapshot->0)) is Ok,
        log.staged(RecordView::Snapshot(log.snapshot->0))->Ok_0.staged(
            RecordView::HardState(log.hard_state),
        ) is Ok,
    ensures
        ({
            let next = log.restated();
            &&& next.sound()
            &&& next.in_step()
            &&& next.opts == log.opts
            &&& next.last_index == log.last_index
            &&& next.snapshot == log.snapshot
            &&& next.hard_state == log.hard_state
            &&& next.segments[0] == log.segments[0]
            &&& next.records() == log.records().push(RecordView::Snapshot(log.snapshot->0)).push(
                RecordView::HardState(log.hard_state),
            )
            &&& next.held() == Ok::<FoldView, ErrorView>(
                FoldView { hard_state: log.hard_state, ..log.held()->Ok_0 },
            )
        }),
{
    let f = log.held()->Ok_0;
    let snap = RecordView::Snapshot(log.snapshot->0);
    let hs = RecordView::HardState(log.hard_state);
    let first = log.staged(snap)->Ok_0;
    let second = first.staged(hs)->Ok_0;
    lemma_held_after(log, snap);
    lemma_stage_keeps_fields(log, snap);
    law_a_staged_record_is_on_disk(log, snap);
    lemma_orderly_after(log, snap);
    assert(first.held() == Ok::<FoldView, ErrorView>(f));
    assert(first.in_step());
    lemma_held_after(first, hs);
    lemma_stage_keeps_fields(first, hs);
    law_a_staged_record_is_on_disk(first, hs);
    lemma_orderly_after(first, hs);
    assert(second.in_step());
    lemma_performed_one(second.disk, EffectView::Sync { name: second.current().name });
    law_a_sync_keeps_what_is_held(second);
}

/// What a compaction drops is the oldest records of the log as it was: the
/// snapshot and the hard state that were written once more are not among them.
#[verifier::spinoff_prover]
#[verifier::rlimit(60)]
proof fn lemma_what_goes(log: LogView)
    requires
        log.sound(),
        takes_headers(log.opts.max_record_bytes),
        log.snapshot is Some,
        RecordView::Snapshot(log.snapshot->0).fits(),
        log.staged(RecordView::Snapshot(log.snapshot->0)) is Ok,
        log.staged(RecordView::Snapshot(log.snapshot->0))->Ok_0.staged(
            RecordView::HardState(log.hard_state),
        ) is Ok,
    ensures
        ({
            let max = log.opts.max_record_bytes;
            let next = log.restated();
            let count = log.redundant() as int;
            &&& count < next.segments.len()
            &&& count <= log.segments.len()
            &&& stream(next.disk, next.segments.take(count), max) == stream(
                log.disk,
                log.segments.take(count),
                max,
            )
            &&& stream(log.disk, log.segments.take(count), max).len() <= log.records().len()
            &&& count > 0 ==> next.segments[count].base_index <= log.snapshot->0.index + 1
        }),
{
    let max = log.opts.max_record_bytes;
    let snap = RecordView::Snapshot(log.snapshot->0);
    let hs = RecordView::HardState(log.hard_state);
    let first = log.staged(snap)->Ok_0;
    let second = first.staged(hs)->Ok_0;
    let next = log.restated();
    let count = log.redundant() as int;
    law_a_staged_record_is_on_disk(log, snap);
    lemma_stage_leaves_older(log, snap);
    lemma_stage_leaves_older(first, hs);
    lemma_newest_is_never_covered(first.segments, log.snapshot->0.index);
    lemma_performed_one(second.disk, EffectView::Sync { name: second.current().name });
    assert(next.disk == second.disk && next.segments == second.segments);
    assert forall|i: int| 0 <= i < count implies #[trigger] next.segments[i] == log.segments[i]
        && next.disk[next.segments[i].name] == log.disk[log.segments[i].name] by {
        assert(second.segments[i] == first.segments[i]);
        assert(first.segments[i] == log.segments[i]);
    }
    lemma_same_older_stream(next.disk, log.disk, next.segments, log.segments, count, max);
    lemma_stream_split(log.disk, log.segments, count, max);
    if count > 0 {
        assert(second.segments[count] == first.segments[count]);
    }
}

/// A segment that is left starts where the log stood, as the later part of its
/// records has it.
proof fn lemma_start_left(log: LogView, count: int, k: int)
    requires
        log.orderly(),
        0 < count,
        0 < k < log.segments.len() - count,
    ensures
        starts_in_place(
            log.disk,
            log.segments.skip(count),
            k,
            log.opts.max_record_bytes,
        ),
{
    let max = log.opts.max_record_bytes;
    let rest = log.segments.skip(count);
    let start = log.start();
    let gone = stream(log.disk, log.segments.take(count), max);
    let upto = log.segments.take(count + k);
    let left = stream(log.disk, rest.take(k), max);
    assert(rest[0] == log.segments[count]);
    assert(rest[k] == log.segments[count + k]);
    let floor = predecessor(rest[0].base_index);
    assert(upto.take(count) =~= log.segments.take(count));
    assert(upto.skip(count) =~= rest.take(k));
    lemma_stream_split(log.disk, upto, count, max);
    lemma_stream_split(log.disk, log.segments, count + k, max);
    assert(starts_in_place(log.disk, log.segments, count, max));
    assert(starts_in_place(log.disk, log.segments, count + k, max));
    reveal(starts_in_place);
    lemma_orderly_prefix(
        start,
        gone + left,
        stream(log.disk, log.segments.skip(count + k), max),
    );
    lemma_orderly_prefix(start, gone, left);
    lemma_orderly_is_gapless(predecessor(log.segments[0].base_index), gone);
    lemma_agree_all(start, gone, left, floor);
}

/// Segments that are left start where the log stood, as the later part of its
/// records has it.
proof fn lemma_starts_follow_left(log: LogView, count: int)
    requires
        log.sound(),
        log.orderly(),
        0 < count < log.segments.len(),
    ensures
        starts_follow(
            log.disk,
            log.segments.skip(count),
            log.opts.max_record_bytes,
        ),
{
    let max = log.opts.max_record_bytes;
    let rest = log.segments.skip(count);
    assert forall|k: int| 0 < k < rest.len() implies #[trigger] starts_in_place(
        log.disk,
        rest,
        k,
        max,
    ) by {
        lemma_start_left(log, count, k);
    }
}

/// Compaction unlinks only segments that the snapshot covers, and loses nothing:
/// what the log holds afterwards is the same entries and the same snapshot, with
/// the hard state the log was last given, and the log stays in step.
#[verifier::spinoff_prover]
#[verifier::rlimit(40)]
pub proof fn law_compaction_loses_nothing(log: LogView, index: Index)
    requires
        log.sound(),
        takes_headers(log.opts.max_record_bytes),
        log.in_step(),
        log.last_index < u64::MAX,
        log.snapshot is Some,
        index <= log.snapshot->0.index,
        RecordView::Snapshot(log.snapshot->0).fits(),
        log.compacted(index).1 is Ok,
    ensures
        ({
            let next = log.compacted(index).0;
            let f = log.held()->Ok_0;
            &&& next.sound()
            &&& next.in_step()
            &&& next.held()->Ok_0.entries == f.entries
            &&& next.held()->Ok_0.snapshot == f.snapshot
            &&& next.held()->Ok_0.hard_state == log.hard_state
            &&& log.compacted(index).1 == Ok::<nat, ErrorView>(log.redundant())
            &&& next.segments == log.restated().segments.skip(log.redundant() as int)
        }),
{
    let meta = log.snapshot->0;
    let max = log.opts.max_record_bytes;
    let synced = log.restated();
    lemma_restated(log);
    lemma_what_goes(log);
    let count = log.redundant();
    lemma_dropping(synced, count);
    let dropped = synced.dropping(count);
    let next = log.compacted(index).0;
    lemma_performed_one(dropped.disk, EffectView::SyncDir);
    let rest = synced.segments.skip(count as int);
    assert(next.segments == rest);
    assert(next.disk == dropped.disk);
    if count == 0 {
        assert(rest =~= synced.segments);
    } else {
        lemma_left_after_compaction(log);
        assert(rest[0] == synced.segments[count as int]);
        let left = stream(synced.disk, rest, max);
        assert(next.records() == left);
        assert(next.start() == FoldView::starting_at(predecessor(rest[0].base_index)));
        lemma_starts_follow_left(synced, count as int);
        assert(starts_follow(next.disk, next.segments, max)) by {
            assert forall|i: int| 0 <= i < rest.len() - 1 implies next.disk[(
            #[trigger] rest[i]).name] == synced.disk[rest[i].name] by {}
            lemma_starts_follow_on(synced.disk, rest, next.disk, rest, max);
        }
    }
}

/// What the records that a compaction leaves amount to.
proof fn lemma_left_after_compaction(log: LogView)
    requires
        log.sound(),
        takes_headers(log.opts.max_record_bytes),
        log.in_step(),
        log.last_index < u64::MAX,
        log.snapshot is Some,
        RecordView::Snapshot(log.snapshot->0).fits(),
        log.staged(RecordView::Snapshot(log.snapshot->0)) is Ok,
        log.staged(RecordView::Snapshot(log.snapshot->0))->Ok_0.staged(
            RecordView::HardState(log.hard_state),
        ) is Ok,
        log.redundant() > 0,
    ensures
        ({
            let synced = log.restated();
            let count = log.redundant() as int;
            let max = log.opts.max_record_bytes;
            let short = FoldView::starting_at(predecessor(synced.segments[count].base_index));
            let left = stream(synced.disk, synced.segments.skip(count), max);
            let g = folded(short, left);
            let f = log.held()->Ok_0;
            &&& all_orderly(short, left)
            &&& g is Ok
            &&& g->Ok_0.entries == f.entries
            &&& g->Ok_0.snapshot == f.snapshot
            &&& g->Ok_0.hard_state == log.hard_state
            &&& g->Ok_0.last_index() == f.last_index()
            &&& gapless(g->Ok_0.entries, g->Ok_0.base())
        }),
{
    let meta = log.snapshot->0;
    let max = log.opts.max_record_bytes;
    let synced = log.restated();
    lemma_restated(log);
    lemma_what_goes(log);
    let count = log.redundant() as int;
    let snap = RecordView::Snapshot(meta);
    let hs = RecordView::HardState(log.hard_state);
    let start = log.start();
    let gone = stream(synced.disk, synced.segments.take(count), max);
    let left = stream(synced.disk, synced.segments.skip(count), max);
    lemma_stream_split(synced.disk, synced.segments, count, max);
    assert(gone.len() <= log.records().len());
    assert(left.len() >= 2);
    lemma_two_more(gone, left, log.records(), snap, hs);
    let body = left.take(left.len() - 2);
    let floor = predecessor(synced.segments[count].base_index);
    let short = FoldView::starting_at(floor);
    assert(synced.start() == start);
    assert(folded(start, gone) is Ok && synced.segments[count].base_index == folded(
        start,
        gone,
    )->Ok_0.last_index() + 1) by {
        assert(starts_in_place(synced.disk, synced.segments, count, max));
        reveal(starts_in_place);
    }
    lemma_orderly_prefix(start, gone, left);
    lemma_orderly_is_gapless(predecessor(log.segments[0].base_index), gone);
    assert(gone + body.push(snap) =~= log.records().push(snap));
    assert((gone + body.push(snap)) + seq![hs] =~= gone + left);
    lemma_orderly_prefix(start, gone + body.push(snap), seq![hs]);
    assert((gone + body) + seq![snap] =~= gone + body.push(snap));
    lemma_orderly_prefix(start, gone + body, seq![snap]);
    lemma_agree_all(start, gone, body, floor);
    lemma_agree_all(start, gone, body.push(snap), floor);
    lemma_agree_all(start, gone, left, floor);
    // Once it has met the snapshot, the later part holds all that the log does.
    let f = log.held()->Ok_0;
    assert(folded(start, gone + body)->Ok_0 == f);
    let s = folded(short, body)->Ok_0;
    lemma_folded_snoc(short, body, snap);
    lemma_folded_snoc(start, gone + body, snap);
    assert((gone + body).push(snap) =~= gone + body.push(snap));
    assert(orderly(f, snap));
    lemma_agree_snapshot(f, s, meta);
    let t = folded(short, body.push(snap))->Ok_0;
    assert(t.snapshot is Some);
    lemma_folded_snoc(short, body.push(snap), hs);
    assert(body.push(snap).push(hs) =~= left);
}

/// Two sequences that end in the same two records agree before them.
proof fn lemma_two_more(
    gone: Seq<RecordView>,
    left: Seq<RecordView>,
    all: Seq<RecordView>,
    a: RecordView,
    b: RecordView,
)
    requires
        left.len() >= 2,
        gone + left == all.push(a).push(b),
    ensures
        gone + left.take(left.len() - 2) == all,
        left == left.take(left.len() - 2).push(a).push(b),
{
    let whole = gone + left;
    let body = left.take(left.len() - 2);
    let n = whole.len();
    assert(whole[n - 1] == b && whole[n - 2] == a);
    assert(left[left.len() - 1] == b && left[left.len() - 2] == a);
    assert(left =~= body.push(a).push(b));
    assert(whole.take(n - 2) =~= gone + body);
    assert(all.push(a).push(b).take(n - 2) =~= all);
}

// ------------------------------------------- what is asked of the directory

impl LogView {
    /// Whether a log came from another by asking for more, all of which can be
    /// done: each effect finds what it changes, and the directory is what they
    /// make of it.
    pub open spec fn follows(self, before: LogView) -> bool {
        let asked = self.effects.skip(before.effects.len() as int);
        &&& before.effects.is_prefix_of(self.effects)
        &&& self.disk == all_performed(before.disk, asked)
        &&& all_grounded(before.disk, asked)
    }

    /// Whether the segment that is written to is in the directory.
    spec fn stands(self) -> bool {
        self.segments.len() > 0 && self.disk.contains_key(self.current().name)
    }
}

proof fn lemma_grounded_in_turn(disk: Disk, a: Seq<EffectView>, b: Seq<EffectView>)
    requires
        all_grounded(disk, a),
        all_grounded(all_performed(disk, a), b),
    ensures
        all_grounded(disk, a + b),
    decreases b.len(),
{
    if b.len() == 0 {
        assert(a + b =~= a);
    } else {
        assert((a + b).drop_last() =~= a + b.drop_last());
        lemma_grounded_in_turn(disk, a, b.drop_last());
        lemma_performed_in_turn(disk, a, b.drop_last());
    }
}

proof fn lemma_grounded_one(disk: Disk, e: EffectView)
    requires
        grounded(disk, e),
    ensures
        all_grounded(disk, seq![e]),
{
    assert(seq![e].drop_last() =~= Seq::empty());
    assert(all_performed(disk, Seq::empty()) == disk);
    assert(all_grounded(disk, Seq::empty()));
}

proof fn lemma_follows_itself(log: LogView)
    ensures
        log.follows(log),
{
    assert(log.effects.skip(log.effects.len() as int) =~= Seq::empty());
}

/// A log that asks for more follows itself.
proof fn lemma_follows_by(before: LogView, after: LogView, effects: Seq<EffectView>)
    requires
        after.effects == before.effects + effects,
        after.disk == all_performed(before.disk, effects),
        all_grounded(before.disk, effects),
    ensures
        after.follows(before),
{
    assert(after.effects.skip(before.effects.len() as int) =~= effects);
}

proof fn lemma_follows_in_turn(a: LogView, b: LogView, c: LogView)
    requires
        b.follows(a),
        c.follows(b),
    ensures
        c.follows(a),
{
    let first = b.effects.skip(a.effects.len() as int);
    let second = c.effects.skip(b.effects.len() as int);
    lemma_grounded_in_turn(a.disk, first, second);
    lemma_performed_in_turn(a.disk, first, second);
    assert(a.effects =~= b.effects.take(a.effects.len() as int));
    assert(b.effects =~= c.effects.take(b.effects.len() as int));
    assert(c.effects =~= a.effects + (first + second));
    lemma_follows_by(a, c, first + second);
}

/// What it takes to bring a segment into being can be done anywhere.
proof fn lemma_create_is_grounded(disk: Disk, opts: LogOptions, seq: u64, base_index: Index)
    ensures
        all_grounded(disk, create_effects(opts, seq, base_index)),
        all_performed(disk, create_effects(opts, seq, base_index)).contains_key(segment_file(seq)),
{
    let all = create_effects(opts, seq, base_index);
    let none = Seq::<EffectView>::empty();
    let (one, two) = (none.push(all[0]), none.push(all[0]).push(all[1]));
    let three = two.push(all[2]);
    lemma_performed_snoc(disk, none, all[0]);
    lemma_performed_snoc(disk, one, all[1]);
    lemma_performed_snoc(disk, two, all[2]);
    lemma_performed_snoc(disk, three, all[3]);
    assert(all_grounded(disk, none));
    assert(one.drop_last() =~= none);
    assert(two.drop_last() =~= one);
    assert(three.drop_last() =~= two);
    assert(three.push(all[3]) =~= all);
    assert(all.drop_last() =~= three);
    assert(all_grounded(disk, one));
    assert(all_grounded(disk, two));
    assert(all_grounded(disk, three));
}

proof fn lemma_staged_follows(log: LogView, record: RecordView)
    requires
        log.stands(),
        log.staged(record) is Ok,
    ensures
        log.staged(record)->Ok_0.follows(log),
        log.staged(record)->Ok_0.stands(),
{
    let next = log.staged(record)->Ok_0;
    let from = if log.has_room(record) {
        log
    } else {
        log.rolled()->Ok_0
    };
    if log.has_room(record) {
        lemma_follows_itself(log);
    } else {
        let sync = EffectView::Sync { name: log.current().name };
        let seq = (log.current().seq + 1) as u64;
        let base_index = successor(log.last_index);
        let create = create_effects(log.opts, seq, base_index);
        let covered = if log.dirty {
            seq![sync]
        } else {
            Seq::empty()
        };
        lemma_performed_one(log.disk, sync);
        lemma_grounded_one(log.disk, sync);
        assert(all_performed(log.disk, covered) == log.disk);
        lemma_create_is_grounded(log.disk, log.opts, seq, base_index);
        lemma_grounded_in_turn(log.disk, covered, create);
        lemma_performed_in_turn(log.disk, covered, create);
        assert(from.effects =~= log.effects + (covered + create));
        lemma_follows_by(log, from, covered + create);
        assert(from.segments.last().name == segment_file(seq));
    }
    let write = EffectView::Write {
        name: from.current().name,
        offset: from.cursor,
        bytes: record.frame(),
    };
    lemma_grounded_one(from.disk, write);
    lemma_performed_one(from.disk, write);
    lemma_follows_by(from, next, seq![write]);
    lemma_follows_in_turn(log, from, next);
}

/// Whatever a sound log asks for when a record is staged can be done: a log never
/// writes to, syncs or removes a file that is not there.
pub proof fn law_what_staging_asks_for_can_be_done(log: LogView, record: RecordView)
    requires
        log.sound(),
        log.staged(record) is Ok,
    ensures
        log.staged(record)->Ok_0.follows(log),
{
    assert(log.segments[log.segments.len() - 1] == log.current());
    lemma_staged_follows(log, record);
}

proof fn lemma_staged_batches_follow(log: LogView, records: Seq<Seq<EntryView>>)
    requires
        log.stands(),
    ensures
        log.staged_batches(records).0.follows(log),
    decreases records.len(),
{
    if records.len() == 0 {
        lemma_follows_itself(log);
    } else {
        let record = RecordView::Entries(records[0]);
        match log.staged(record) {
            Ok(next) => {
                lemma_staged_follows(log, record);
                let moved = LogView { last_index: records[0].last().index, ..next };
                lemma_staged_batches_follow(moved, records.skip(1));
                lemma_follows_in_turn(log, moved, moved.staged_batches(records.skip(1)).0);
            },
            Err(_) => {
                lemma_follows_itself(log);
            },
        }
    }
}

/// Whatever a sound log asks for when entries are appended can be done, also where
/// the append is refused half way.
pub proof fn law_what_appending_asks_for_can_be_done(log: LogView, entries: Seq<EntryView>)
    requires
        log.sound(),
    ensures
        log.appended(entries).0.follows(log),
{
    assert(log.segments[log.segments.len() - 1] == log.current());
    lemma_follows_itself(log);
    match batches(entries, log.opts.max_record_bytes) {
        Ok(records) => {
            lemma_staged_batches_follow(log, records);
        },
        Err(_) => {},
    }
}

/// What a sound log asks for when it is made durable can be done.
pub proof fn law_what_syncing_asks_for_can_be_done(log: LogView)
    requires
        log.sound(),
    ensures
        log.synced().follows(log),
{
    assert(log.segments[log.segments.len() - 1] == log.current());
    if log.dirty {
        let sync = EffectView::Sync { name: log.current().name };
        lemma_grounded_one(log.disk, sync);
        lemma_follows_by(log, log.synced(), seq![sync]);
    } else {
        lemma_follows_itself(log);
    }
}

proof fn lemma_dropping_follows(log: LogView, count: nat)
    requires
        log.sound(),
        count < log.segments.len(),
    ensures
        log.dropping(count).follows(log),
    decreases count,
{
    if count == 0 {
        lemma_follows_itself(log);
    } else {
        let remove = EffectView::Remove { name: log.segments[0].name };
        let next = LogView { segments: log.segments.skip(1), ..log }.emitting(seq![remove]);
        assert(log.disk.contains_key(log.segments[0].name));
        lemma_grounded_one(log.disk, remove);
        lemma_follows_by(log, next, seq![remove]);
        lemma_dropping_one(log);
        lemma_dropping_follows(next, (count - 1) as nat);
        lemma_follows_in_turn(log, next, log.dropping(count));
    }
}

/// A log whose snapshot and hard state are written once more, and made durable.
proof fn lemma_restated_follows(log: LogView)
    requires
        log.sound(),
        takes_headers(log.opts.max_record_bytes),
        log.snapshot is Some,
        RecordView::Snapshot(log.snapshot->0).fits(),
        log.staged(RecordView::Snapshot(log.snapshot->0)) is Ok,
        log.staged(RecordView::Snapshot(log.snapshot->0))->Ok_0.staged(
            RecordView::HardState(log.hard_state),
        ) is Ok,
    ensures
        log.restated().sound(),
        log.restated().follows(log),
{
    let snap = RecordView::Snapshot(log.snapshot->0);
    let hs = RecordView::HardState(log.hard_state);
    let first = log.staged(snap)->Ok_0;
    let second = first.staged(hs)->Ok_0;
    law_a_staged_record_is_on_disk(log, snap);
    law_what_staging_asks_for_can_be_done(log, snap);
    law_a_staged_record_is_on_disk(first, hs);
    law_what_staging_asks_for_can_be_done(first, hs);
    law_a_sync_keeps_what_is_held(second);
    law_what_syncing_asks_for_can_be_done(second);
    lemma_follows_in_turn(log, first, second);
    lemma_follows_in_turn(log, second, second.synced());
}

/// Whatever a sound log asks for when it is compacted can be done: it removes only
/// files that are there.
pub proof fn law_what_compacting_asks_for_can_be_done(log: LogView, index: Index)
    requires
        log.sound(),
        takes_headers(log.opts.max_record_bytes),
        log.snapshot is Some ==> RecordView::Snapshot(log.snapshot->0).fits(),
        log.compacted(index).1 is Ok,
    ensures
        log.compacted(index).0.follows(log),
{
    lemma_follows_itself(log);
    if log.snapshot is Some && log.snapshot->0.index >= index {
        lemma_restated_follows(log);
        let synced = log.restated();
        let count = log.redundant();
        lemma_what_goes(log);
        lemma_dropping_follows(synced, count);
        let dropped = synced.dropping(count);
        lemma_follows_in_turn(log, synced, dropped);
        if count > 0 {
            let next = log.compacted(index).0;
            lemma_grounded_one(dropped.disk, EffectView::SyncDir);
            lemma_follows_by(dropped, next, seq![EffectView::SyncDir]);
            lemma_follows_in_turn(log, dropped, next);
        }
    }
}

/// Whatever is asked of a directory that is opened can be done, also where the log
/// in it cannot be read.
#[verifier::spinoff_prover]
#[verifier::rlimit(40)]
pub proof fn law_what_opening_asks_for_can_be_done(
    dir: Seq<char>,
    files: Seq<FileView>,
    opts: LogOptions,
)
    requires
        distinct_names(files),
        forall|i: int| 0 <= i < files.len() ==> (#[trigger] files[i]).bytes.len() <= u64::MAX,
    ensures
        all_grounded(disk_of(files), opened(dir, files, opts).0),
{
    let max = opts.max_record_bytes;
    let disk = disk_of(files);
    match headed(dir, numbered(files), max) {
        Ok((found, dropped)) => {
            let cleanup = cleanup_effects(dropped);
            let cleaned = all_performed(disk, cleanup);
            lemma_found_segments(dir, files, max);
            lemma_headed_files(dir, numbered(files), max);
            lemma_cleaned(disk, dropped);
            assert(all_grounded(disk, cleanup)) by {
                if dropped is Some {
                    let all = numbered(files);
                    lemma_numbered_holds(files);
                    lemma_disk_of(files);
                    assert(all[all.len() - 1] == all.last());
                    assert(all.contains(all.last()));
                    let k = choose|k: int|
                        0 <= k < files.len() && #[trigger] files[k] == all.last().1
                            && segment_seq(files[k].name) == Some(all.last().0);
                    assert(disk.contains_key(files[k].name));
                    let remove = EffectView::Remove { name: dropped->0 };
                    lemma_grounded_one(disk, remove);
                    lemma_grounded_one(disk.remove(dropped->0), EffectView::SyncDir);
                    lemma_performed_one(disk, remove);
                    lemma_grounded_in_turn(disk, seq![remove], seq![EffectView::SyncDir]);
                    assert(seq![remove] + seq![EffectView::SyncDir] =~= cleanup);
                }
            }
            if found.len() == 0 {
                lemma_create_is_grounded(cleaned, opts, 0, 1);
                lemma_grounded_in_turn(disk, cleanup, create_effects(opts, 0, 1));
            } else {
                let start = FoldView::starting_at(predecessor(found[0].base_index));
                if all_replayed(dir, start, found, max) is Ok {
                    lemma_all_replayed(dir, start, found, max);
                    let (_, end) = all_replayed(dir, start, found, max)->Ok_0;
                    let last = found.last();
                    assert(found[found.len() - 1] == last);
                    lemma_header_bounds(last.bytes, max);
                    lemma_scan_bounds(last.bytes, last.start, max);
                    lemma_written_len(last.bytes);
                    assert(last.bytes.len() <= u64::MAX) by {
                        lemma_disk_of(files);
                        assert(disk.contains_key(last.name));
                        let k = choose|k: int|
                            0 <= k < files.len() && (#[trigger] files[k]).name == last.name;
                        assert(files[k].bytes == last.bytes);
                    }
                    let count = written_above(last.bytes, end);
                    let erase = erase_effects(last.name, end as u64, count as u64);
                    assert(all_grounded(cleaned, erase)) by {
                        if count > 0 {
                            let after = performed(cleaned, erase[0]);
                            lemma_grounded_one(cleaned, erase[0]);
                            lemma_performed_one(cleaned, erase[0]);
                            lemma_grounded_one(after, erase[1]);
                            lemma_grounded_in_turn(cleaned, seq![erase[0]], seq![erase[1]]);
                            assert(seq![erase[0]] + seq![erase[1]] =~= erase);
                        }
                    }
                    lemma_grounded_in_turn(disk, cleanup, erase);
                }
            }
        },
        Err(_) => {},
    }
}

} // verus!
