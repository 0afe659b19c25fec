//! The durable Raft log: segments of records, and what a crash leaves of them.
//!
//! The log reads no file and writes none. Opening one takes the bytes that its
//! directory holds; every operation hands out the [`Effect`]s that bring the
//! directory up to date, for a host to perform in order. A call's token is good
//! once the effects handed out with it have been performed.
//!
//! It owns no thread and reads no clock. Batching across concurrent proposals
//! belongs to the writer that drives it.

use vstd::prelude::*;
use vstd::string::*;

use crate::log::error::{Error, ErrorView};
use crate::log::fold::{replayed, successor, Fold, FoldView};
use crate::log::fs::{all_performed, effect_views, performed, Disk, Effect, EffectView, SyncMode};
use crate::log::record::{written_end, written_len, Record, RecordView, SegHeader, MAGIC, VERSION};
use crate::log::recovery::{
    all_replayed, discover, disk_of, file_views, found_views, headed, header_end, header_end_of,
    numbered, replay_all, FileView, FoundView, Segment, SegmentFile,
};
use crate::log::segment::{path_in, path_of, segment_file, segment_name};
use crate::raft::{Entry, EntryView, HardState, Index, SnapshotMeta, SnapshotMetaView};
use crate::wire::{lemma_varint_len, lemma_varint_widths, models, Wire};

verus! {

/// Where a staged write sits in the durability order.
///
/// Every staging call returns one; [`Log::sync`] returns the highest that is
/// then durable. A token is a promise about a moment, not about a file: the sync
/// that follows makes durable exactly what had been written by then and nothing
/// later.
#[derive(Debug, Clone, Copy, PartialEq, Eq, PartialOrd, Ord, Structural)]
pub struct SyncToken(u64);

impl View for SyncToken {
    type V = u64;

    closed spec fn view(&self) -> u64 {
        self.0
    }
}

#[derive(Debug, Clone, Copy, PartialEq, Eq, Structural)]
pub struct LogOptions {
    /// Size each segment is preallocated to. Appends then never change the file
    /// size, so no directory sync is ever on the append path.
    pub segment_bytes: u64,
    pub max_record_bytes: u32,
    pub sync_mode: SyncMode,
    pub preallocate: bool,
}

impl Default for LogOptions {
    fn default() -> (r: Self)
        ensures
            r == (LogOptions {
                segment_bytes: 67_108_864,
                max_record_bytes: 8_388_608,
                sync_mode: SyncMode::Durable,
                preallocate: true,
            }),
    {
        LogOptions {
            segment_bytes: 67_108_864,
            max_record_bytes: 8_388_608,
            sync_mode: SyncMode::Durable,
            preallocate: true,
        }
    }
}

#[derive(Debug, Clone, Copy, PartialEq, Eq, Structural)]
pub struct LogStats {
    pub segments: u32,
    pub last_index: Index,
    pub sync_mode: SyncMode,
    pub appends: u64,
    pub syncs: u64,
    pub bytes_written: u64,
}

/// A live segment.
#[derive(Debug)]
pub struct SegmentRef {
    pub seq: u64,
    pub name: String,
    /// The log's `last_index + 1` when the segment was created.
    pub base_index: Index,
}

/// What a [`SegmentRef`] stands for.
pub struct SegmentView {
    pub seq: u64,
    pub name: Seq<char>,
    pub base_index: Index,
}

impl View for SegmentRef {
    type V = SegmentView;

    open spec fn view(&self) -> SegmentView {
        SegmentView { seq: self.seq, name: self.name@, base_index: self.base_index }
    }
}

/// What the views of some segments are.
pub open spec fn segment_views(segments: Seq<SegmentRef>) -> Seq<SegmentView> {
    segments.map_values(|s: SegmentRef| s@)
}

/// The durable Raft log.
pub struct Log {
    dir: String,
    opts: LogOptions,
    segments: Vec<SegmentRef>,
    cursor: u64,
    dirty: bool,
    next_token: u64,
    durable: u64,
    last_index: Index,
    hard_state: HardState,
    snapshot: Option<SnapshotMeta>,
    appends: u64,
    syncs: u64,
    bytes_written: u64,
    effects: Vec<Effect>,
    disk: Ghost<Disk>,
}

/// What a [`Log`] stands for.
pub struct LogView {
    pub dir: Seq<char>,
    pub opts: LogOptions,
    /// The live segments, oldest first. The last one is written to.
    pub segments: Seq<SegmentView>,
    /// Where the next record goes.
    pub cursor: u64,
    /// Whether something was written that no sync covers.
    pub dirty: bool,
    pub next_token: u64,
    pub durable: u64,
    pub last_index: Index,
    pub hard_state: HardState,
    pub snapshot: Option<SnapshotMetaView>,
    pub appends: u64,
    pub syncs: u64,
    pub bytes_written: u64,
    /// What was handed out and not yet taken by the host.
    pub effects: Seq<EffectView>,
    /// What the directory holds once everything handed out so far is performed.
    pub disk: Disk,
}

impl View for Log {
    type V = LogView;

    closed spec fn view(&self) -> LogView {
        LogView {
            dir: self.dir@,
            opts: self.opts,
            segments: segment_views(self.segments@),
            cursor: self.cursor,
            dirty: self.dirty,
            next_token: self.next_token,
            durable: self.durable,
            last_index: self.last_index,
            hard_state: self.hard_state,
            snapshot: self.snapshot.model(),
            appends: self.appends,
            syncs: self.syncs,
            bytes_written: self.bytes_written,
            effects: effect_views(self.effects@),
            disk: self.disk@,
        }
    }
}

/// One more, up to the largest number there is.
pub open spec fn counted(n: u64, by: nat) -> u64 {
    if n + by > u64::MAX {
        u64::MAX
    } else {
        (n + by) as u64
    }
}

/// The first record of a segment.
pub open spec fn header_record(seq: u64, base_index: Index) -> RecordView {
    RecordView::SegHeader(SegHeader { magic: MAGIC, version: VERSION, seq, base_index })
}

/// What it takes to bring a segment into being: its file, its header, and then
/// the durability of both, contents before name.
pub open spec fn create_effects(opts: LogOptions, seq: u64, base_index: Index) -> Seq<EffectView> {
    let name = segment_file(seq);
    seq![
        EffectView::Create {
            name,
            allocate: if opts.preallocate {
                opts.segment_bytes
            } else {
                0
            },
        },
        EffectView::Write { name, offset: 0, bytes: header_record(seq, base_index).frame() },
        EffectView::Sync { name },
        EffectView::SyncDir,
    ]
}

/// What a log without a segment number left says.
pub open spec fn out_of_segments(dir: Seq<char>) -> ErrorView {
    ErrorView::Damaged { path: dir, reason: "no segment number is left"@ }
}

impl LogView {
    /// The segment that is written to.
    pub open spec fn current(self) -> SegmentView {
        self.segments.last()
    }

    /// Something handed out to the host.
    pub open spec fn emitting(self, effects: Seq<EffectView>) -> LogView {
        LogView {
            effects: self.effects + effects,
            disk: all_performed(self.disk, effects),
            ..self
        }
    }

    /// Everything staged so far made durable.
    pub open spec fn synced(self) -> LogView {
        let covered = if self.dirty {
            LogView { dirty: false, syncs: counted(self.syncs, 1), ..self }.emitting(
                seq![EffectView::Sync { name: self.current().name }],
            )
        } else {
            self
        };
        LogView {
            durable: if self.durable > self.next_token {
                self.durable
            } else {
                self.next_token
            },
            ..covered
        }
    }

    /// The log continued in a new segment. What is in the outgoing one is made
    /// durable first, or a crash could leave a hole rather than a torn tail.
    pub open spec fn rolled(self) -> Result<LogView, ErrorView> {
        let covered = if self.dirty {
            LogView {
                dirty: false,
                durable: self.next_token,
                syncs: counted(self.syncs, 1),
                ..self
            }.emitting(seq![EffectView::Sync { name: self.current().name }])
        } else {
            self
        };
        if self.current().seq == u64::MAX {
            Err(out_of_segments(self.dir))
        } else {
            let seq = (self.current().seq + 1) as u64;
            let base_index = successor(self.last_index);
            Ok(
                LogView {
                    cursor: header_record(seq, base_index).frame().len() as u64,
                    segments: self.segments.push(
                        SegmentView { seq, name: segment_file(seq), base_index },
                    ),
                    ..covered
                }.emitting(create_effects(self.opts, seq, base_index)),
            )
        }
    }

    /// Whether a record still fits in the current segment.
    pub open spec fn has_room(self, record: RecordView) -> bool {
        self.cursor + record.frame().len() <= self.opts.segment_bytes
    }

    /// A record written at the cursor.
    pub open spec fn put(self, record: RecordView) -> LogView {
        LogView {
            cursor: (self.cursor + record.frame().len()) as u64,
            bytes_written: counted(self.bytes_written, record.frame().len()),
            dirty: true,
            next_token: counted(self.next_token, 1),
            ..self
        }.emitting(
            seq![
                EffectView::Write {
                    name: self.current().name,
                    offset: self.cursor,
                    bytes: record.frame(),
                },
            ],
        )
    }

    /// A record staged: in the current segment where it fits, in a new one where
    /// it does not, and nowhere where it is longer than the limit.
    pub open spec fn staged(self, record: RecordView) -> Result<LogView, ErrorView> {
        if record.frame().len() > self.opts.max_record_bytes {
            Err(
                ErrorView::RecordTooLarge {
                    len: record.frame().len() as usize,
                    max: self.opts.max_record_bytes,
                },
            )
        } else if self.has_room(record) {
            Ok(self.put(record))
        } else {
            match self.rolled() {
                Ok(rolled) => Ok(rolled.put(record)),
                Err(e) => Err(e),
            }
        }
    }
}

/// A segment's header is short.
proof fn lemma_header_len(seq: u64, base_index: Index)
    ensures
        header_record(seq, base_index).frame().len() <= 64,
{
    let h = SegHeader { magic: MAGIC, version: VERSION, seq, base_index };
    lemma_varint_widths();
    lemma_varint_len(MAGIC as nat, 5, 15);
    lemma_varint_len(VERSION as nat, 3, 3);
    lemma_varint_len(seq as nat, 10, 1);
    lemma_varint_len(base_index as nat, 10, 1);
    assert(header_record(seq, base_index).payload() == SegHeader::encoding(h));
}

proof fn lemma_performed_concat(disk: Disk, a: Seq<EffectView>, b: Seq<EffectView>)
    ensures
        all_performed(disk, a + b) == all_performed(all_performed(disk, a), b),
    decreases b.len(),
{
    if b.len() == 0 {
        assert(a + b =~= a);
    } else {
        assert((a + b).drop_last() =~= a + b.drop_last());
        assert((a + b).last() == b.last());
        lemma_performed_concat(disk, a, b.drop_last());
    }
}

proof fn lemma_performed_one(disk: Disk, e: EffectView)
    ensures
        all_performed(disk, seq![e]) == performed(disk, e),
{
    assert(seq![e].drop_last() =~= Seq::empty());
    assert(all_performed(disk, seq![e].drop_last()) == disk);
    assert(seq![e].last() == e);
}

impl Log {
    /// Hand something out to the host.
    fn emit(&mut self, effect: Effect)
        ensures
            final(self)@ == old(self)@.emitting(seq![effect@]),
    {
        let ghost e = effect@;
        let ghost before = self.effects@;
        self.effects.push(effect);
        self.disk = Ghost(performed(self.disk@, e));
        proof {
            lemma_performed_one(old(self).disk@, e);
            assert(effect_views(self.effects@) =~= effect_views(before) + seq![e]);
        }
    }

    /// What there is for the host to do, oldest first.
    pub fn take_effects(&mut self) -> (r: Vec<Effect>)
        ensures
            effect_views(r@) == old(self)@.effects,
            final(self)@ == (LogView { effects: Seq::empty(), ..old(self)@ }),
    {
        let mut r: Vec<Effect> = Vec::new();
        core::mem::swap(&mut r, &mut self.effects);
        proof {
            assert(effect_views(self.effects@) =~= Seq::empty());
        }
        r
    }

    /// Bring a segment into being, and write to it from here on.
    fn create_segment(&mut self, seq: u64, base_index: Index)
        ensures
            final(self)@ == (LogView {
                cursor: header_record(seq, base_index).frame().len() as u64,
                segments: old(self)@.segments.push(
                    SegmentView { seq, name: segment_file(seq), base_index },
                ),
                ..old(self)@
            }).emitting(create_effects(old(self)@.opts, seq, base_index)),
    {
        let header = Record::SegHeader(SegHeader { magic: MAGIC, version: VERSION, seq, base_index });
        let bytes = header.encode();
        let len: u64 = bytes.len() as u64;
        let allocate: u64 = if self.opts.preallocate {
            self.opts.segment_bytes
        } else {
            0
        };
        self.emit(Effect::Create { name: segment_name(seq), allocate });
        self.emit(Effect::Write { name: segment_name(seq), offset: 0, bytes });
        // Only after this may a caller-visible record land in it: the file's
        // name has to be durable before anything depends on its contents. This
        // is the only directory sync anywhere near a write, and it is per
        // segment, not per append.
        self.emit(Effect::Sync { name: segment_name(seq) });
        self.emit(Effect::SyncDir);
        let ghost before = self.segments@;
        self.segments.push(SegmentRef { seq, name: segment_name(seq), base_index });
        self.cursor = len;
        proof {
            let all = create_effects(old(self)@.opts, seq, base_index);
            let disk = old(self).disk@;
            let one = seq![all[0]];
            let two = seq![all[1]];
            let three = seq![all[2]];
            let four = seq![all[3]];
            lemma_performed_concat(disk, one, two);
            lemma_performed_concat(disk, one + two, three);
            lemma_performed_concat(disk, one + two + three, four);
            assert(one + two + three + four =~= all);
            assert(old(self)@.effects + one + two + three + four =~= old(self)@.effects + all);
            assert(segment_views(self.segments@) =~= segment_views(before).push(
                SegmentView { seq, name: segment_file(seq), base_index },
            ));
        }
    }

    /// The name of the segment that is written to.
    fn current_name(&self) -> (r: String)
        requires
            self@.segments.len() > 0,
        ensures
            r@ == self@.current().name,
    {
        self.segments[self.segments.len() - 1].name.clone()
    }

    fn roll(&mut self) -> (r: Result<(), Error>)
        requires
            old(self)@.segments.len() > 0,
        ensures
            match r {
                Ok(()) => old(self)@.rolled() == Ok::<LogView, ErrorView>(final(self)@),
                Err(e) => {
                    &&& old(self)@.rolled() == Err::<LogView, ErrorView>(e@)
                    &&& final(self)@ == old(self)@
                },
            },
    {
        let last: u64 = self.segments[self.segments.len() - 1].seq;
        if last == u64::MAX {
            return Err(
                Error::Damaged {
                    path: self.dir.clone(),
                    reason: "no segment number is left".to_owned(),
                },
            );
        }
        if self.dirty {
            let name = self.current_name();
            self.emit(Effect::Sync { name });
            self.durable = self.next_token;
            self.dirty = false;
            self.syncs = self.syncs.saturating_add(1);
        }
        let base_index: Index = if self.last_index == u64::MAX {
            self.last_index
        } else {
            self.last_index + 1
        };
        self.create_segment(last + 1, base_index);
        Ok(())
    }

    fn write(&mut self, record: &Record) -> (r: Result<SyncToken, Error>)
        requires
            old(self)@.segments.len() > 0,
        ensures
            final(self)@.segments.len() > 0,
            match r {
                Ok(token) => {
                    &&& old(self)@.staged(record@) == Ok::<LogView, ErrorView>(final(self)@)
                    &&& token@ == final(self)@.next_token
                    &&& record@.fits()
                },
                Err(e) => {
                    &&& old(self)@.staged(record@) == Err::<LogView, ErrorView>(e@)
                    &&& final(self)@ == old(self)@
                },
            },
    {
        let bytes = record.encode();
        let len: u64 = bytes.len() as u64;
        if len > self.opts.max_record_bytes as u64 {
            return Err(
                Error::RecordTooLarge { len: bytes.len(), max: self.opts.max_record_bytes },
            );
        }
        if self.cursor > self.opts.segment_bytes || len > self.opts.segment_bytes - self.cursor {
            match self.roll() {
                Ok(()) => {
                    proof {
                        lemma_header_len(
                            (old(self)@.current().seq + 1) as u64,
                            successor(old(self)@.last_index),
                        );
                    }
                },
                Err(e) => {
                    return Err(e);
                },
            }
        }
        let ghost before = self@;
        let name = self.current_name();
        let offset: u64 = self.cursor;
        self.emit(Effect::Write { name, offset, bytes });
        self.cursor = self.cursor + len;
        self.bytes_written = self.bytes_written.saturating_add(len);
        self.dirty = true;
        self.next_token = self.next_token.saturating_add(1);
        proof {
            assert(self@ == before.put(record@));
        }
        Ok(SyncToken(self.next_token))
    }
}

// ------------------------------------------------------------------ staging

/// Entries split into records: each takes as many as fit under the limit, and
/// an entry that does not fit with the ones before it starts the next. An entry
/// at the very front that does not fit alone fits nowhere, and is given with the
/// length it would have.
pub open spec fn batched(
    done: Seq<Seq<EntryView>>,
    batch: Seq<EntryView>,
    rest: Seq<EntryView>,
    max: u32,
) -> Result<Seq<Seq<EntryView>>, nat>
    decreases rest.len(),
{
    if rest.len() == 0 {
        Ok(
            if batch.len() > 0 {
                done.push(batch)
            } else {
                done
            },
        )
    } else {
        let longer = batch.push(rest[0]);
        let len = RecordView::Entries(longer).frame().len();
        if len <= max {
            batched(done, longer, rest.skip(1), max)
        } else if batch.len() == 0 {
            Err(len)
        } else {
            batched(done.push(batch), seq![rest[0]], rest.skip(1), max)
        }
    }
}

/// The records that some entries are written as.
pub open spec fn batches(entries: Seq<EntryView>, max: u32) -> Result<Seq<Seq<EntryView>>, nat> {
    batched(Seq::empty(), Seq::empty(), entries, max)
}

/// What the entries of some batches are.
pub open spec fn batch_views(batches: Seq<Vec<Entry>>) -> Seq<Seq<EntryView>> {
    batches.map_values(|b: Vec<Entry>| models(b@))
}

/// Split entries into records.
fn split_batches(entries: &[Entry], max: u32) -> (r: Result<Vec<Vec<Entry>>, usize>)
    ensures
        match r {
            Ok(records) => {
                &&& batches(models(entries@), max) == Ok::<Seq<Seq<EntryView>>, nat>(
                    batch_views(records@),
                )
                &&& forall|i: int| 0 <= i < records@.len() ==> (#[trigger] records@[i])@.len() > 0
            },
            Err(len) => batches(models(entries@), max) == Err::<Seq<Seq<EntryView>>, nat>(
                len as nat,
            ),
        },
{
    let ghost all = models(entries@);
    let mut done: Vec<Vec<Entry>> = Vec::new();
    let mut batch: Vec<Entry> = Vec::new();
    let mut i: usize = 0;
    proof {
        assert(batch_views(done@) =~= Seq::empty());
        assert(models(batch@) =~= Seq::empty());
        assert(all.skip(0) =~= all);
    }
    while i < entries.len()
        invariant
            i <= entries@.len(),
            all == models(entries@),
            forall|k: int| 0 <= k < done@.len() ==> (#[trigger] done@[k])@.len() > 0,
            batches(all, max) == batched(
                batch_views(done@),
                models(batch@),
                all.skip(i as int),
                max,
            ),
        decreases entries@.len() - i,
    {
        let ghost held = batch@;
        let ghost rest = all.skip(i as int);
        let mut longer = batch;
        longer.push(entries[i].duplicate());
        proof {
            assert(models(longer@) =~= models(held).push(rest[0]));
            assert(rest.skip(1) =~= all.skip(i + 1));
        }
        let record = Record::Entries(longer);
        let len: usize = record.encode().len();
        if let Record::Entries(returned) = record {
            longer = returned;
        } else {
            longer = Vec::new();
        }
        if len as u64 <= max as u64 {
            batch = longer;
        } else if longer.len() == 1 {
            proof {
                assert(models(held).len() == 0);
            }
            return Err(len);
        } else {
            let ghost before = done@;
            match longer.pop() {
                Some(first) => {
                    proof {
                        assert(models(longer@) =~= models(held));
                    }
                    done.push(longer);
                    batch = Vec::new();
                    batch.push(first);
                    proof {
                        assert(batch_views(done@) =~= batch_views(before).push(models(held)));
                        assert(models(batch@) =~= seq![rest[0]]);
                    }
                },
                None => {
                    batch = longer;
                },
            }
        }
        i += 1;
    }
    if batch.len() > 0 {
        let ghost before = done@;
        let ghost held = models(batch@);
        done.push(batch);
        proof {
            assert(batch_views(done@) =~= batch_views(before).push(held));
        }
    }
    Ok(done)
}

impl LogView {
    /// Batches of entries staged one after the other, up to the first that
    /// cannot be. The log's last index moves with each, so that a segment that is
    /// begun between two of them says where it starts.
    pub open spec fn staged_batches(self, batches: Seq<Seq<EntryView>>) -> (
        LogView,
        Option<ErrorView>,
    )
        decreases batches.len(),
    {
        if batches.len() == 0 {
            (self, None)
        } else {
            match self.staged(RecordView::Entries(batches[0])) {
                Ok(next) => LogView {
                    last_index: batches[0].last().index,
                    ..next
                }.staged_batches(batches.skip(1)),
                Err(e) => (self, Some(e)),
            }
        }
    }

    /// Entries appended.
    pub open spec fn appended(self, entries: Seq<EntryView>) -> (LogView, Option<ErrorView>) {
        if entries.len() == 0 {
            (self, None)
        } else if self.last_index == u64::MAX || entries[0].index != self.last_index + 1 {
            (
                self,
                Some(
                    ErrorView::Discontiguous {
                        expected: successor(self.last_index),
                        found: entries[0].index,
                    },
                ),
            )
        } else {
            match batches(entries, self.opts.max_record_bytes) {
                Ok(records) => {
                    let (staged, refused) = self.staged_batches(records);
                    if refused is Some {
                        (staged, refused)
                    } else {
                        (LogView { appends: counted(self.appends, 1), ..staged }, None)
                    }
                },
                Err(len) => (
                    self,
                    Some(
                        ErrorView::RecordTooLarge {
                            len: len as usize,
                            max: self.opts.max_record_bytes,
                        },
                    ),
                ),
            }
        }
    }

    /// How many of the oldest segments a snapshot through `covers` makes
    /// redundant: those after which the next one starts at or below the index
    /// that follows it.
    pub open spec fn covered_segments(segments: Seq<SegmentView>, covers: Index) -> nat
        decreases segments.len(),
    {
        if segments.len() <= 1 || segments[1].base_index > covers + 1 {
            0
        } else {
            1 + LogView::covered_segments(segments.skip(1), covers)
        }
    }

    /// The oldest segments unlinked, and then the directory synced.
    pub open spec fn dropping(self, count: nat) -> LogView
        decreases count,
    {
        if count == 0 {
            self
        } else {
            let (first, others) = (self.segments[0], self.segments.skip(1));
            LogView { segments: others, ..self }.emitting(
                seq![EffectView::Remove { name: first.name }],
            ).dropping((count - 1) as nat)
        }
    }
}

impl Log {
    /// Append entries. They must continue the log exactly; call
    /// [`Log::truncate`] first to overwrite history.
    ///
    /// A batch that does not fit in one record is split at entry boundaries. One
    /// later sync still covers every piece, while recovery sees the same limit
    /// the writer enforced.
    pub fn append(&mut self, entries: &[Entry]) -> (r: Result<SyncToken, Error>)
        requires
            old(self)@.segments.len() > 0,
        ensures
            final(self)@ == old(self)@.appended(models(entries@)).0,
            final(self)@.segments.len() > 0,
            match r {
                Ok(token) => {
                    &&& old(self)@.appended(models(entries@)).1 is None
                    &&& token@ == final(self)@.next_token
                },
                Err(e) => old(self)@.appended(models(entries@)).1 == Some(e@),
            },
    {
        let ghost views = models(entries@);
        if entries.len() == 0 {
            return Ok(SyncToken(self.next_token));
        }
        let found: Index = entries[0].index;
        if self.last_index == u64::MAX || found != self.last_index + 1 {
            let expected: Index = if self.last_index == u64::MAX {
                self.last_index
            } else {
                self.last_index + 1
            };
            return Err(Error::Discontiguous { expected, found });
        }
        let records = match split_batches(entries, self.opts.max_record_bytes) {
            Ok(records) => records,
            Err(len) => {
                return Err(Error::RecordTooLarge { len, max: self.opts.max_record_bytes });
            },
        };
        let ghost all = batch_views(records@);
        proof {
            assert(all.skip(0) =~= all);
        }
        for batch in it: records
            invariant
                all == batch_views(it.seq()),
                forall|k: int| 0 <= k < it.seq().len() ==> (#[trigger] it.seq()[k])@.len() > 0,
                self@.segments.len() > 0,
                old(self)@.staged_batches(all) == self@.staged_batches(
                    all.skip(it.index() as int),
                ),
                self@.opts == old(self)@.opts,
                self@.appends == old(self)@.appends,
                views == models(entries@),
                old(self)@.appended(views).0 == (
                if old(self)@.staged_batches(all).1 is Some {
                    old(self)@.staged_batches(all).0
                } else {
                    LogView {
                        appends: counted(old(self)@.appends, 1),
                        ..old(self)@.staged_batches(all).0
                    }
                }),
                old(self)@.appended(views).1 == old(self)@.staged_batches(all).1,
        {
            let ghost rest = all.skip(it.index() as int);
            proof {
                assert(rest[0] == models(batch@));
                assert(rest.skip(1) =~= all.skip(it.index() + 1));
                assert(rest[0].last() == batch@.last()@);
            }
            let last: Index = batch[batch.len() - 1].index;
            let record = Record::Entries(batch);
            match self.write(&record) {
                Ok(_) => {
                    self.last_index = last;
                },
                Err(e) => {
                    return Err(e);
                },
            }
        }
        proof {
            assert(all.skip(all.len() as int) =~= Seq::empty());
        }
        self.appends = self.appends.saturating_add(1);
        Ok(SyncToken(self.next_token))
    }

    /// Persist term, vote, and commit index. Shares the segment stream and
    /// therefore the same sync as the entries alongside it.
    pub fn set_hard_state(&mut self, hs: HardState) -> (r: Result<SyncToken, Error>)
        requires
            old(self)@.segments.len() > 0,
        ensures
            final(self)@.segments.len() > 0,
            match r {
                Ok(token) => {
                    &&& old(self)@.with_hard_state(hs) == Ok::<LogView, ErrorView>(final(self)@)
                    &&& token@ == final(self)@.next_token
                },
                Err(e) => {
                    &&& old(self)@.with_hard_state(hs) == Err::<LogView, ErrorView>(e@)
                    &&& final(self)@ == old(self)@
                },
            },
    {
        match self.write(&Record::HardState(hs)) {
            Ok(token) => {
                self.hard_state = hs;
                Ok(token)
            },
            Err(e) => Err(e),
        }
    }

    /// Drop every entry at or above `from`.
    pub fn truncate(&mut self, from: Index) -> (r: Result<SyncToken, Error>)
        requires
            old(self)@.segments.len() > 0,
        ensures
            final(self)@.segments.len() > 0,
            match r {
                Ok(token) => {
                    &&& old(self)@.with_truncation(from) == Ok::<LogView, ErrorView>(final(self)@)
                    &&& token@ == final(self)@.next_token
                },
                Err(e) => {
                    &&& old(self)@.with_truncation(from) == Err::<LogView, ErrorView>(e@)
                    &&& final(self)@ == old(self)@
                },
            },
    {
        match self.write(&Record::Truncate { from }) {
            Ok(token) => {
                if from > 0 && from <= self.last_index {
                    self.last_index = from - 1;
                }
                Ok(token)
            },
            Err(e) => Err(e),
        }
    }

    /// Record that a snapshot covers everything through `meta.index`.
    ///
    /// A snapshot at or below the floor already recorded is stale and is
    /// ignored: adopting it would move the durable floor backwards, and the node
    /// would come up with a log that starts before its own state machine does.
    pub fn install_snapshot(&mut self, meta: &SnapshotMeta) -> (r: Result<SyncToken, Error>)
        requires
            old(self)@.segments.len() > 0,
        ensures
            final(self)@.segments.len() > 0,
            match r {
                Ok(token) => {
                    &&& old(self)@.with_snapshot(meta@) == Ok::<LogView, ErrorView>(final(self)@)
                    &&& token@ == final(self)@.next_token
                },
                Err(e) => {
                    &&& old(self)@.with_snapshot(meta@) == Err::<LogView, ErrorView>(e@)
                    &&& final(self)@ == old(self)@
                },
            },
    {
        if let Some(held) = &self.snapshot {
            if meta.index <= held.index {
                // Nothing staged, so nothing for a sync to cover.
                return Ok(SyncToken(self.next_token));
            }
        }
        match self.write(&Record::Snapshot(meta.clone())) {
            Ok(token) => {
                if self.last_index < meta.index {
                    self.last_index = meta.index;
                }
                self.snapshot = Some(meta.clone());
                Ok(token)
            },
            Err(e) => Err(e),
        }
    }

    // ------------------------------------------------------------ durability

    /// Make everything staged so far durable. Returns the highest token that is on
    /// disk once what the log asked for has been done to its directory; a log whose
    /// directory refused something is not used any more.
    pub fn sync(&mut self) -> (r: SyncToken)
        requires
            old(self)@.segments.len() > 0,
        ensures
            final(self)@ == old(self)@.synced(),
            r@ == final(self)@.durable,
            r@ >= old(self)@.next_token,
    {
        let cut: u64 = self.next_token;
        if self.dirty {
            let name = self.current_name();
            self.emit(Effect::Sync { name });
            self.dirty = false;
            self.syncs = self.syncs.saturating_add(1);
        }
        if self.durable < cut {
            self.durable = cut;
        }
        SyncToken(self.durable)
    }

    /// What is durable once everything that the log asked for has been done.
    pub fn durable(&self) -> (r: SyncToken)
        ensures
            r@ == self@.durable,
    {
        SyncToken(self.durable)
    }

    // ----------------------------------------------------------------- state

    pub fn last_index(&self) -> (r: Index)
        ensures
            r == self@.last_index,
    {
        self.last_index
    }

    pub fn hard_state(&self) -> (r: HardState)
        ensures
            r == self@.hard_state,
    {
        self.hard_state
    }

    pub fn snapshot(&self) -> (r: Option<&SnapshotMeta>)
        ensures
            match r {
                Some(meta) => self@.snapshot == Some(meta@),
                None => self@.snapshot is None,
            },
    {
        match &self.snapshot {
            Some(meta) => Some(meta),
            None => None,
        }
    }

    pub fn stats(&self) -> (r: LogStats)
        ensures
            r == (LogStats {
                segments: self@.segments.len() as u32,
                last_index: self@.last_index,
                sync_mode: self@.opts.sync_mode,
                appends: self@.appends,
                syncs: self@.syncs,
                bytes_written: self@.bytes_written,
            }),
    {
        LogStats {
            segments: self.segments.len() as u32,
            last_index: self.last_index,
            sync_mode: self.opts.sync_mode,
            appends: self.appends,
            syncs: self.syncs,
            bytes_written: self.bytes_written,
        }
    }

    /// Unlink the segments that a snapshot through `covers` makes redundant among
    /// the oldest so many.
    fn drop_covered(&mut self, covers: Index, among: usize) -> (removed: u64)
        requires
            0 < among <= old(self)@.segments.len(),
        ensures
            removed == LogView::covered_segments(
                old(self)@.segments.take(among as int),
                covers,
            ),
            final(self)@ == old(self)@.dropping(removed as nat),
            final(self)@.segments.len() > 0,
    {
        let ghost count = LogView::covered_segments(self@.segments.take(among as int), covers);
        let mut removed: u64 = 0;
        let held: usize = self.segments.len();
        let mut left: usize = among;
        while left > 1 && !(covers < u64::MAX && self.segments[1].base_index > covers + 1)
            invariant
                0 < left <= self@.segments.len(),
                count == LogView::covered_segments(
                    old(self)@.segments.take(among as int),
                    covers,
                ),
                count == removed + LogView::covered_segments(
                    self@.segments.take(left as int),
                    covers,
                ),
                old(self)@.dropping(count) == self@.dropping(
                    LogView::covered_segments(self@.segments.take(left as int), covers),
                ),
                removed + self@.segments.len() == held,
            decreases left,
        {
            let ghost segments = self@.segments;
            proof {
                assert(segments[1] == self.segments@[1]@);
                assert(segments.take(left as int).skip(1) =~= segments.skip(1).take(left - 1));
            }
            let first = self.segments.remove(0);
            proof {
                assert(segment_views(self.segments@) =~= segments.skip(1));
            }
            self.emit(Effect::Remove { name: first.name });
            removed += 1;
            left -= 1;
        }
        proof {
            assert(left > 1 ==> self@.segments[1] == self.segments@[1]@);
        }
        removed
    }

    /// Drop whole segments that a snapshot has covered. Returns how many went.
    ///
    /// Only whole segments, and only ones the snapshot covers completely. The
    /// current hard state and the snapshot record are re-emitted into the live
    /// segment first, because both live in the record stream and dropping the
    /// segments that carried them would lose them.
    pub fn compact_to(&mut self, index: Index) -> (r: Result<u32, Error>)
        requires
            old(self)@.segments.len() > 0,
        ensures
            final(self)@ == old(self)@.compacted(index).0,
            final(self)@.segments.len() > 0,
            match r {
                Ok(removed) => {
                    &&& old(self)@.compacted(index).1 is Ok
                    &&& removed == old(self)@.compacted(index).1->Ok_0 as u32
                },
                Err(e) => old(self)@.compacted(index).1 == Err::<nat, ErrorView>(e@),
            },
    {
        let meta = match &self.snapshot {
            Some(meta) => meta.clone(),
            None => {
                return Ok(0);
            },
        };
        if meta.index < index {
            return Ok(0);
        }
        let covers: Index = meta.index;
        match self.write(&Record::Snapshot(meta)) {
            Ok(_) => {},
            Err(e) => {
                return Err(e);
            },
        }
        // The segment that the snapshot was just written to is never dropped, even
        // where the hard state had to go into another one.
        let among: usize = self.segments.len();
        let ghost first = self@.segments;
        match self.write(&Record::HardState(self.hard_state)) {
            Ok(_) => {},
            Err(e) => {
                return Err(e);
            },
        }
        proof {
            assert(self@.segments.take(among as int) =~= first);
        }
        self.sync();
        let removed: u64 = self.drop_covered(covers, among);
        if removed > 0 {
            // One sync for the batch. A lost unlink is a space leak the next
            // open reclaims, not a correctness problem.
            self.emit(Effect::SyncDir);
        }
        Ok(removed as u32)
    }
}

impl LogView {
    /// Whether a snapshot is at or below the floor already recorded.
    pub open spec fn is_stale(self, meta: SnapshotMetaView) -> bool {
        self.snapshot is Some && meta.index <= self.snapshot->0.index
    }

    /// A hard state set.
    pub open spec fn with_hard_state(self, hs: HardState) -> Result<LogView, ErrorView> {
        match self.staged(RecordView::HardState(hs)) {
            Ok(next) => Ok(LogView { hard_state: hs, ..next }),
            Err(e) => Err(e),
        }
    }

    /// Every entry at or above `from` dropped.
    pub open spec fn with_truncation(self, from: Index) -> Result<LogView, ErrorView> {
        match self.staged(RecordView::Truncate { from }) {
            Ok(next) => Ok(
                LogView {
                    last_index: if 0 < from <= self.last_index {
                        (from - 1) as u64
                    } else {
                        self.last_index
                    },
                    ..next
                },
            ),
            Err(e) => Err(e),
        }
    }

    /// A snapshot recorded, unless it is stale.
    pub open spec fn with_snapshot(self, meta: SnapshotMetaView) -> Result<LogView, ErrorView> {
        if self.is_stale(meta) {
            Ok(self)
        } else {
            match self.staged(RecordView::Snapshot(meta)) {
                Ok(next) => Ok(
                    LogView {
                        last_index: if self.last_index > meta.index {
                            self.last_index
                        } else {
                            meta.index
                        },
                        snapshot: Some(meta),
                        ..next
                    },
                ),
                Err(e) => Err(e),
            }
        }
    }

    /// The log after dropping what its snapshot covers, and how many segments
    /// went.
    pub open spec fn compacted(self, index: Index) -> (LogView, Result<nat, ErrorView>) {
        match self.snapshot {
            None => (self, Ok(0)),
            Some(meta) => if meta.index < index {
                (self, Ok(0))
            } else {
                match self.staged(RecordView::Snapshot(meta)) {
                    Err(e) => (self, Err(e)),
                    Ok(first) => match first.staged(RecordView::HardState(self.hard_state)) {
                        Err(e) => (first, Err(e)),
                        Ok(second) => {
                            let synced = second.synced();
                            let count = LogView::covered_segments(first.segments, meta.index);
                            let dropped = synced.dropping(count);
                            if count == 0 {
                                (dropped, Ok(count))
                            } else {
                                (dropped.emitting(seq![EffectView::SyncDir]), Ok(count))
                            }
                        },
                    },
                }
            },
        }
    }
}

// ----------------------------------------------------------------- opening

/// What recovery found.
#[derive(Debug)]
pub struct Recovered {
    pub hard_state: HardState,
    pub snapshot: Option<SnapshotMeta>,
    pub entries: Vec<Entry>,
    /// Bytes that were written above the recovery cursor, and are to be erased.
    /// Non-zero means the process died mid-write.
    ///
    /// Deliberately not "bytes discarded from a torn tail": a crash that takes
    /// the tail of one write and leaves a later one produces no torn tail at
    /// all, since the hole reads as a clean end, and the bytes above it still
    /// have to go.
    pub discarded_tail_bytes: u64,
    /// Whether a durable `commit` had to be clamped because the entries it named
    /// were lost with the tail.
    pub clamped_commit: bool,
    pub segments: u32,
}

/// What a [`Recovered`] stands for.
pub struct RecoveredView {
    pub hard_state: HardState,
    pub snapshot: Option<SnapshotMetaView>,
    pub entries: Seq<EntryView>,
    pub discarded_tail_bytes: u64,
    pub clamped_commit: bool,
    pub segments: u32,
}

impl View for Recovered {
    type V = RecoveredView;

    open spec fn view(&self) -> RecoveredView {
        RecoveredView {
            hard_state: self.hard_state,
            snapshot: self.snapshot.model(),
            entries: models(self.entries@),
            discarded_tail_bytes: self.discarded_tail_bytes,
            clamped_commit: self.clamped_commit,
            segments: self.segments,
        }
    }
}

/// What clearing away a segment whose header never landed takes.
pub open spec fn cleanup_effects(dropped: Option<Seq<char>>) -> Seq<EffectView> {
    match dropped {
        Some(name) => seq![EffectView::Remove { name }, EffectView::SyncDir],
        None => Seq::empty(),
    }
}

/// How much was written above a position.
pub open spec fn written_above(bytes: Seq<u8>, end: int) -> nat {
    if written_len(bytes) > end {
        (written_len(bytes) - end) as nat
    } else {
        0
    }
}

/// What erasing the bytes above the recovery cursor takes.
pub open spec fn erase_effects(name: Seq<char>, cursor: u64, discarded: u64) -> Seq<EffectView> {
    if discarded > 0 {
        seq![
            EffectView::Erase { name, from: cursor, to: (cursor + discarded) as u64 },
            EffectView::Sync { name },
        ]
    } else {
        Seq::empty()
    }
}

/// The index below another, where there is one.
pub open spec fn predecessor(index: Index) -> Index {
    if index == 0 {
        0
    } else {
        (index - 1) as u64
    }
}

impl LogView {
    /// The index below the first that the record stream can hold: the one before
    /// the oldest segment starts.
    pub open spec fn origin(self) -> Index {
        if self.segments.len() == 0 {
            0
        } else {
            predecessor(self.segments[0].base_index)
        }
    }
}

/// The live segments among what was found.
pub open spec fn live(found: Seq<FoundView>) -> Seq<SegmentView> {
    found.map_values(
        |f: FoundView| SegmentView { seq: f.seq, name: f.name, base_index: f.base_index },
    )
}

impl LogView {
    /// A log that holds nothing.
    pub open spec fn blank(dir: Seq<char>, opts: LogOptions, disk: Disk) -> LogView {
        LogView {
            dir,
            opts,
            segments: Seq::empty(),
            cursor: 0,
            dirty: false,
            next_token: 0,
            durable: 0,
            last_index: 0,
            hard_state: HardState { term: 0, voted_for: None, commit: 0 },
            snapshot: None,
            appends: 0,
            syncs: 0,
            bytes_written: 0,
            effects: Seq::empty(),
            disk,
        }
    }

    /// A log with what was recovered.
    pub open spec fn holding(
        self,
        segments: Seq<SegmentView>,
        cursor: u64,
        f: FoldView,
    ) -> LogView {
        LogView {
            segments,
            cursor,
            last_index: f.last_index(),
            hard_state: f.hard_state,
            snapshot: f.snapshot,
            ..self
        }
    }
}

/// What opening a directory asks of it, and what comes of it.
pub open spec fn opened(dir: Seq<char>, files: Seq<FileView>, opts: LogOptions) -> (
    Seq<EffectView>,
    Result<(LogView, RecoveredView), ErrorView>,
) {
    let disk = disk_of(files);
    match headed(dir, numbered(files), opts.max_record_bytes) {
        Err(e) => (Seq::empty(), Err(e)),
        Ok((found, dropped)) => if found.len() == 0 {
            opened_empty(dir, disk, dropped, opts)
        } else {
            opened_segments(dir, disk, dropped, found, opts)
        },
    }
}

/// A directory without a segment opened: it gets one.
pub open spec fn opened_empty(
    dir: Seq<char>,
    disk: Disk,
    dropped: Option<Seq<char>>,
    opts: LogOptions,
) -> (Seq<EffectView>, Result<(LogView, RecoveredView), ErrorView>) {
    let effects = cleanup_effects(dropped) + create_effects(opts, 0, 1);
    let header = header_record(0, 1);
    let first = SegmentView { seq: 0, name: segment_file(0), base_index: 1 };
    let f = FoldView::starting_at(0);
    (
        effects,
        if header.body().len() > opts.max_record_bytes {
            Err(
                ErrorView::Damaged {
                    path: path_of(dir, first.name),
                    reason: "segment header has an implausible length"@,
                },
            )
        } else {
            Ok(
                (
                    LogView::blank(dir, opts, all_performed(disk, effects)).holding(
                        seq![first],
                        header.frame().len() as u64,
                        f,
                    ),
                    RecoveredView {
                        hard_state: f.hard_state,
                        snapshot: None,
                        entries: Seq::empty(),
                        discarded_tail_bytes: 0,
                        clamped_commit: false,
                        segments: 1,
                    },
                ),
            )
        },
    )
}

/// A directory with segments opened: their records are folded, from where the
/// oldest one says the record stream starts.
pub open spec fn opened_segments(
    dir: Seq<char>,
    disk: Disk,
    dropped: Option<Seq<char>>,
    found: Seq<FoundView>,
    opts: LogOptions,
) -> (Seq<EffectView>, Result<(LogView, RecoveredView), ErrorView>) {
    let cleanup = cleanup_effects(dropped);
    let start = FoldView::starting_at(predecessor(found[0].base_index));
    match all_replayed(dir, start, found, opts.max_record_bytes) {
        Err(e) => (cleanup, Err(e)),
        Ok((f, end)) => match f.finished() {
            Err(e) => (cleanup, Err(e)),
            Ok(f) => {
                let cursor = end as u64;
                let discarded = written_above(found.last().bytes, end) as u64;
                let effects = cleanup + erase_effects(found.last().name, cursor, discarded);
                (
                    effects,
                    Ok(
                        (
                            LogView::blank(dir, opts, all_performed(disk, effects)).holding(
                                live(found),
                                cursor,
                                f,
                            ),
                            RecoveredView {
                                hard_state: f.hard_state,
                                snapshot: f.snapshot,
                                entries: f.entries,
                                discarded_tail_bytes: discarded,
                                clamped_commit: f.clamped_commit,
                                segments: found.len() as u32,
                            },
                        ),
                    ),
                )
            },
        },
    }
}

/// What the segments of a log are called and hold, without their bytes.
fn live_segments(found: Vec<Segment>) -> (r: Vec<SegmentRef>)
    ensures
        segment_views(r@) == live(found_views(found@)),
{
    let ghost all = found@;
    let mut r: Vec<SegmentRef> = Vec::new();
    for segment in it: found
        invariant
            it.seq() == all,
            r@.len() == it.index(),
            forall|j: int|
                0 <= j < r@.len() ==> (#[trigger] r@[j])@ == live(found_views(all))[j],
    {
        r.push(
            SegmentRef {
                seq: segment.seq,
                name: segment.file.name,
                base_index: segment.base_index,
            },
        );
    }
    proof {
        assert(segment_views(r@) =~= live(found_views(all)));
    }
    r
}

impl Log {
    /// A log that holds nothing, over a directory.
    fn blank(dir: &str, opts: LogOptions, disk: Ghost<Disk>) -> (r: Log)
        ensures
            r@ == LogView::blank(dir@, opts, disk@),
    {
        let r = Log {
            dir: dir.to_owned(),
            opts,
            segments: Vec::new(),
            cursor: 0,
            dirty: false,
            next_token: 0,
            durable: 0,
            last_index: 0,
            hard_state: HardState { term: 0, voted_for: None, commit: 0 },
            snapshot: None,
            appends: 0,
            syncs: 0,
            bytes_written: 0,
            effects: Vec::new(),
            disk,
        };
        proof {
            assert(segment_views(r.segments@) =~= Seq::empty());
            assert(effect_views(r.effects@) =~= Seq::empty());
        }
        r
    }

    /// Open the log of a directory, recovering whatever its files hold. What has
    /// to be done to the directory is added to `effects`, also where the log
    /// cannot be opened.
    pub fn open(
        dir: &str,
        files: Vec<SegmentFile>,
        opts: LogOptions,
        effects: &mut Vec<Effect>,
    ) -> (r: Result<(Log, Recovered), Error>)
        ensures
            effect_views(final(effects)@) == effect_views(old(effects)@) + opened(
                dir@,
                file_views(files@),
                opts,
            ).0,
            match r {
                Ok((log, recovered)) => {
                    &&& opened(dir@, file_views(files@), opts).1 == Ok::<
                        (LogView, RecoveredView),
                        ErrorView,
                    >((log@, recovered@))
                    &&& log@.segments.len() > 0
                },
                Err(e) => opened(dir@, file_views(files@), opts).1 == Err::<
                    (LogView, RecoveredView),
                    ErrorView,
                >(e@),
            },
    {
        let ghost disk = disk_of(file_views(files@));
        let mut log = Log::blank(dir, opts, Ghost(disk));
        let (found, dropped) = match discover(dir, files, opts.max_record_bytes) {
            Ok(found) => found,
            Err(e) => {
                proof {
                    assert(effect_views(effects@) + Seq::empty() =~= effect_views(effects@));
                }
                return Err(e);
            },
        };
        let ghost gone = dropped.model();
        log.clear_away(dropped);
        if found.len() == 0 {
            log.open_empty(Ghost(disk), Ghost(gone), effects)
        } else {
            log.open_segments(found, Ghost(disk), Ghost(gone), effects)
        }
    }

    /// Clear away a segment whose header never landed.
    fn clear_away(&mut self, dropped: Option<String>)
        ensures
            final(self)@ == old(self)@.emitting(cleanup_effects(dropped.model())),
    {
        let ghost before = self@;
        match dropped {
            Some(name) => {
                let ghost one = seq![EffectView::Remove { name: name@ }];
                let ghost two = seq![EffectView::SyncDir];
                let ghost gone = Some(name@);
                self.emit(Effect::Remove { name });
                self.emit(Effect::SyncDir);
                proof {
                    lemma_performed_concat(before.disk, one, two);
                    assert(one + two =~= cleanup_effects(gone));
                    assert(before.effects + one + two =~= before.effects + cleanup_effects(gone));
                }
            },
            None => {
                proof {
                    assert(before.effects + Seq::empty() =~= before.effects);
                }
            },
        }
    }

    fn open_empty(
        self,
        disk: Ghost<Disk>,
        dropped: Ghost<Option<Seq<char>>>,
        effects: &mut Vec<Effect>,
    ) -> (r: Result<(Log, Recovered), Error>)
        requires
            self@ == LogView::blank(self@.dir, self@.opts, disk@).emitting(
                cleanup_effects(dropped@),
            ),
        ensures
            effect_views(final(effects)@) == effect_views(old(effects)@) + opened_empty(
                self@.dir,
                disk@,
                dropped@,
                self@.opts,
            ).0,
            match r {
                Ok((log, recovered)) => {
                    &&& opened_empty(self@.dir, disk@, dropped@, self@.opts).1 == Ok::<
                        (LogView, RecoveredView),
                        ErrorView,
                    >((log@, recovered@))
                    &&& log@.segments.len() > 0
                },
                Err(e) => opened_empty(self@.dir, disk@, dropped@, self@.opts).1 == Err::<
                    (LogView, RecoveredView),
                    ErrorView,
                >(e@),
            },
    {
        let mut log = self;
        let max: u32 = log.opts.max_record_bytes;
        log.create_segment(0, 1);
        proof {
            lemma_performed_concat(
                disk@,
                cleanup_effects(dropped@),
                create_effects(self@.opts, 0, 1),
            );
            assert(Seq::<EffectView>::empty() + cleanup_effects(dropped@) =~= cleanup_effects(
                dropped@,
            ));
            assert(Seq::<SegmentView>::empty().push(
                SegmentView { seq: 0, name: segment_file(0), base_index: 1 },
            ) =~= seq![SegmentView { seq: 0, name: segment_file(0), base_index: 1 }]);
        }
        let mut asked = log.take_effects();
        let ghost before = effects@;
        let ghost more = asked@;
        effects.append(&mut asked);
        proof {
            assert(effect_views(effects@) =~= effect_views(before) + effect_views(more));
        }
        let header = Record::SegHeader(
            SegHeader { magic: MAGIC, version: VERSION, seq: 0, base_index: 1 },
        );
        let len: u64 = header.encode().len() as u64 - 8;
        if len > max as u64 {
            return Err(
                Error::Damaged {
                    path: path_in(log.dir.as_str(), segment_name(0).as_str()),
                    reason: "segment header has an implausible length".to_owned(),
                },
            );
        }
        let recovered = Recovered {
            hard_state: HardState { term: 0, voted_for: None, commit: 0 },
            snapshot: None,
            entries: Vec::new(),
            discarded_tail_bytes: 0,
            clamped_commit: false,
            segments: 1,
        };
        proof {
            assert(models(recovered.entries@) =~= Seq::empty());
        }
        Ok((log, recovered))
    }

    fn open_segments(
        self,
        found: Vec<Segment>,
        disk: Ghost<Disk>,
        dropped: Ghost<Option<Seq<char>>>,
        effects: &mut Vec<Effect>,
    ) -> (r: Result<(Log, Recovered), Error>)
        requires
            self@ == LogView::blank(self@.dir, self@.opts, disk@).emitting(
                cleanup_effects(dropped@),
            ),
            found@.len() > 0,
            forall|i: int|
                0 <= i < found@.len() ==> (#[trigger] found@[i]).start
                    <= found@[i].file.bytes@.len(),
        ensures
            effect_views(final(effects)@) == effect_views(old(effects)@) + opened_segments(
                self@.dir,
                disk@,
                dropped@,
                found_views(found@),
                self@.opts,
            ).0,
            match r {
                Ok((log, recovered)) => {
                    &&& opened_segments(
                        self@.dir,
                        disk@,
                        dropped@,
                        found_views(found@),
                        self@.opts,
                    ).1 == Ok::<(LogView, RecoveredView), ErrorView>((log@, recovered@))
                    &&& log@.segments.len() > 0
                },
                Err(e) => opened_segments(
                    self@.dir,
                    disk@,
                    dropped@,
                    found_views(found@),
                    self@.opts,
                ).1 == Err::<(LogView, RecoveredView), ErrorView>(e@),
            },
    {
        let mut log = self;
        let ghost views = found_views(found@);
        let ghost cleanup = cleanup_effects(dropped@);
        proof {
            assert(views[0] == found@[0]@);
            assert(views.last() == found@.last()@);
            assert(Seq::<EffectView>::empty() + cleanup =~= cleanup);
        }
        // Compaction drops whole segments, so the oldest surviving one says where
        // the record stream now starts. Without it, a compacted log reads as one
        // with a hole at the front.
        let base: Index = found[0].base_index;
        let mut fold = Fold::starting_at(
            if base == 0 {
                0
            } else {
                base - 1
            },
        );
        let replayed = replay_all(
            &mut fold,
            log.dir.as_str(),
            found.as_slice(),
            log.opts.max_record_bytes,
        );
        let end: usize = match replayed {
            Ok(end) => end,
            Err(e) => {
                let mut asked = log.take_effects();
                let ghost before = effects@;
                let ghost more = asked@;
                effects.append(&mut asked);
                proof {
                    assert(effect_views(effects@) =~= effect_views(before) + effect_views(more));
                }
                return Err(e);
            },
        };
        let fold = match fold.finish() {
            Ok(fold) => fold,
            Err(e) => {
                let mut asked = log.take_effects();
                let ghost before = effects@;
                let ghost more = asked@;
                effects.append(&mut asked);
                proof {
                    assert(effect_views(effects@) =~= effect_views(before) + effect_views(more));
                }
                return Err(e);
            },
        };
        // What has to be erased is whatever is written above the cursor, and that
        // does not depend on how the scan stopped. A tear that takes the tail of
        // one write and leaves a later one leaves a hole, which reads as a clean
        // end, and the survivor above it is a plausible frame for whatever the
        // next record leaves the cursor pointing at.
        let n: usize = found.len();
        let written: usize = written_end(found[n - 1].file.bytes.as_slice());
        let cursor: u64 = end as u64;
        let discarded: u64 = if written > end {
            (written - end) as u64
        } else {
            0
        };
        let ghost erase = erase_effects(views.last().name, cursor, discarded);
        let ghost cleaned = log@;
        if discarded > 0 {
            // A shorter record written over a torn one would leave the old one's
            // tail sitting there, decodable as a record on the next recovery, so
            // it is erased now, bounded by what was actually written rather than
            // by the segment size.
            let ghost one = seq![erase[0]];
            let ghost two = seq![erase[1]];
            log.emit(
                Effect::Erase {
                    name: found[n - 1].file.name.clone(),
                    from: cursor,
                    to: cursor + discarded,
                },
            );
            log.emit(Effect::Sync { name: found[n - 1].file.name.clone() });
            proof {
                lemma_performed_concat(cleaned.disk, one, two);
                assert(one + two =~= erase);
                assert(cleaned.effects + one + two =~= cleaned.effects + erase);
            }
        } else {
            proof {
                assert(cleaned.effects + erase =~= cleaned.effects);
            }
        }
        proof {
            lemma_performed_concat(disk@, cleanup, erase);
        }
        let mut asked = log.take_effects();
        let ghost before = effects@;
        let ghost more = asked@;
        effects.append(&mut asked);
        proof {
            assert(effect_views(effects@) =~= effect_views(before) + effect_views(more));
        }
        log.last_index = fold.last_index();
        log.hard_state = fold.hard_state;
        log.snapshot = match &fold.snapshot {
            Some(meta) => Some(meta.clone()),
            None => None,
        };
        log.cursor = cursor;
        log.segments = live_segments(found);
        let recovered = Recovered {
            hard_state: fold.hard_state,
            snapshot: fold.snapshot,
            entries: fold.entries,
            discarded_tail_bytes: discarded,
            clamped_commit: fold.clamped_commit,
            segments: n as u32,
        };
        Ok((log, recovered))
    }

    /// Read the log again, from the bytes of its segments, oldest first: the
    /// entries from `lo` through `hi`. Tooling and tests: a running system keeps
    /// its entries in the core and never reads them back. The record stream starts
    /// where the oldest segment does, as it did when the log was opened: from
    /// anywhere else a compacted log would read as one with a hole at the front.
    pub fn read(&self, images: &[SegmentFile], lo: Index, hi: Index) -> (r: Result<
        Vec<Entry>,
        Error,
    >)
        requires
            forall|i: int|
                0 <= i < images@.len() ==> header_fits(
                    #[trigger] images@[i]@,
                    self@.opts.max_record_bytes,
                ),
        ensures
            match r {
                Ok(entries) => {
                    &&& self@.read_back(file_views(images@)) is Ok
                    &&& models(entries@) == entries_within(
                        self@.read_back(file_views(images@))->Ok_0.entries,
                        lo,
                        hi,
                    )
                },
                Err(e) => self@.read_back(file_views(images@)) == Err::<FoldView, ErrorView>(e@),
            },
    {
        let floor: Index = if self.segments.len() == 0 || self.segments[0].base_index == 0 {
            0
        } else {
            self.segments[0].base_index - 1
        };
        proof {
            if self.segments@.len() > 0 {
                assert(self@.segments[0] == self.segments@[0]@);
            }
        }
        let mut fold = Fold::starting_at(floor);
        let ghost all = file_views(images@);
        let mut i: usize = 0;
        proof {
            assert(all.skip(0) =~= all);
        }
        while i < images.len()
            invariant
                i <= images@.len(),
                all == file_views(images@),
                forall|i: int|
                    0 <= i < images@.len() ==> header_fits(
                        #[trigger] images@[i]@,
                        self@.opts.max_record_bytes,
                    ),
                self@.reread(FoldView::starting_at(self@.origin()), all) == self@.reread(
                    fold@,
                    all.skip(i as int),
                ),
            decreases images@.len() - i,
        {
            let image = &images[i];
            proof {
                assert(all.skip(i as int)[0] == image@);
                assert(all.skip(i as int).skip(1) =~= all.skip(i + 1));
                assert(header_fits(images@[i as int]@, self@.opts.max_record_bytes));
            }
            let max: u32 = self.opts.max_record_bytes;
            let end = header_end(
                self.dir.as_str(),
                image.name.as_str(),
                image.bytes.as_slice(),
                max,
            );
            let start: u64 = match end {
                Ok(start) => start,
                Err(e) => {
                    return Err(e);
                },
            };
            let len: usize = image.bytes.len();
            assert(start <= len);
            match fold.replay(image.bytes.as_slice(), start as usize, max) {
                Ok(_) => {},
                Err(e) => {
                    return Err(e);
                },
            }
            i += 1;
        }
        Ok(keep_within(fold.entries, lo, hi))
    }
}

impl LogView {
    /// What the bytes of a log's segments, oldest first, amount to: they are folded
    /// from where the oldest of them says the record stream starts.
    pub open spec fn read_back(self, images: Seq<FileView>) -> Result<FoldView, ErrorView> {
        self.reread(FoldView::starting_at(self.origin()), images)
    }

    /// Segments folded by where their headers claim to end.
    pub open spec fn reread(self, f: FoldView, images: Seq<FileView>) -> Result<
        FoldView,
        ErrorView,
    >
        decreases images.len(),
    {
        if images.len() == 0 {
            Ok(f)
        } else {
            let max = self.opts.max_record_bytes;
            match header_end_of(self.dir, images[0].name, images[0].bytes, max) {
                Err(e) => Err(e),
                Ok(start) => match replayed(f, images[0].bytes, start, max) {
                    Err(e) => Err(e),
                    Ok((next, _, _)) => self.reread(next, images.skip(1)),
                },
            }
        }
    }
}

/// Whether a segment is as long as its header claims to be, where it claims a
/// plausible length.
pub open spec fn header_fits(image: FileView, max: u32) -> bool {
    match header_end_of(Seq::empty(), Seq::empty(), image.bytes, max) {
        Ok(start) => start <= image.bytes.len(),
        Err(_) => true,
    }
}

/// The entries from one index through another.
pub open spec fn entries_within(entries: Seq<EntryView>, lo: Index, hi: Index) -> Seq<EntryView> {
    entries.filter(|e: EntryView| lo <= e.index && e.index <= hi)
}

/// Keep the entries from one index through another.
fn keep_within(entries: Vec<Entry>, lo: Index, hi: Index) -> (kept: Vec<Entry>)
    ensures
        models(kept@) == entries_within(models(entries@), lo, hi),
{
    let ghost all = models(entries@);
    let ghost p = |e: EntryView| lo <= e.index && e.index <= hi;
    let mut kept: Vec<Entry> = Vec::new();
    proof {
        reveal(Seq::filter);
        assert(all.take(0).filter(p) =~= Seq::empty());
        assert(models(kept@) =~= Seq::empty());
    }
    for e in it: entries
        invariant
            all == models(it.seq()),
            p == (|e: EntryView| lo <= e.index && e.index <= hi),
            models(kept@) == all.take(it.index() as int).filter(p),
    {
        let ghost i = it.index() as int;
        let ghost before = kept@;
        proof {
            reveal(Seq::filter);
            let next = all.take(i + 1);
            assert(next.drop_last() =~= all.take(i));
            assert(next.last() == e@);
        }
        if lo <= e.index && e.index <= hi {
            kept.push(e);
            proof {
                assert(models(kept@) =~= models(before).push(e@));
            }
        }
    }
    proof {
        assert(all.take(all.len() as int) =~= all);
    }
    kept
}

} // verus!
