//! The recovery fold: a record stream in file order becomes the durable state.
//!
//! This is the whole of recovery's semantics, in one place, so that the parser
//! (which bytes are intact) and the interpretation (what those bytes mean) can
//! be reasoned about apart from each other.
//!
//! Later record wins, uniformly: a `HardState` replaces the previous one, a
//! `Truncate` drops a suffix, a `Snapshot` moves the floor, and `Entries`
//! extends. What it deliberately does not do is infer a truncation from an
//! `Entries` record that overlaps what is already there. A writer that
//! overwrites history has to say so, and one that does not is caught here
//! rather than trusted.
//!
//! The one record whose meaning is not local is `Snapshot`. A snapshot the node
//! took covers a prefix of its own log and the entries above it continue that
//! same history, so they survive. A snapshot installed from a leader may
//! instead replace history, and the entries above it then belong to a log that
//! no longer exists. The record does not say which, so the fold asks whether the
//! log actually holds the snapshot's index at the snapshot's term.

use vstd::prelude::*;

use crate::log::error::{Error, ErrorView};
use crate::log::record::{read_frame, scanned, step, Frame, Record, RecordView, Step, Stop};
use crate::raft::{Entry, EntryView, HardState, Index, SnapshotMeta, SnapshotMetaView, Term};
use crate::wire::{models, Wire};

verus! {

/// What the records read so far amount to.
#[derive(Debug)]
pub struct Fold {
    pub entries: Vec<Entry>,
    pub hard_state: HardState,
    pub snapshot: Option<SnapshotMeta>,
    /// Set by [`Fold::finish`] when a durable commit index had to be pulled back
    /// because the entries it named went with a torn tail.
    pub clamped_commit: bool,
    /// The highest index the surviving record stream does not contain.
    ///
    /// Compaction removes whole segments once a snapshot covers them, so the
    /// first surviving segment can legitimately start partway up the log.
    pub floor: Index,
}

/// What a [`Fold`] stands for.
pub struct FoldView {
    pub entries: Seq<EntryView>,
    pub hard_state: HardState,
    pub snapshot: Option<SnapshotMetaView>,
    pub clamped_commit: bool,
    pub floor: Index,
}

impl View for Fold {
    type V = FoldView;

    open spec fn view(&self) -> FoldView {
        FoldView {
            entries: models(self.entries@),
            hard_state: self.hard_state,
            snapshot: self.snapshot.model(),
            clamped_commit: self.clamped_commit,
            floor: self.floor,
        }
    }
}

/// The entries below an index.
pub open spec fn entries_below(entries: Seq<EntryView>, from: Index) -> Seq<EntryView> {
    entries.filter(|e: EntryView| e.index < from)
}

/// The entries above an index.
pub open spec fn entries_above(entries: Seq<EntryView>, through: Index) -> Seq<EntryView> {
    entries.filter(|e: EntryView| e.index > through)
}

/// The term of the first entry at an index.
pub open spec fn entry_term(entries: Seq<EntryView>, index: Index) -> Option<Term>
    decreases entries.len(),
{
    if entries.len() == 0 {
        None
    } else if entries[0].index == index {
        Some(entries[0].term)
    } else {
        entry_term(entries.skip(1), index)
    }
}

impl FoldView {
    /// Nothing read yet, of a record stream that starts above `floor`.
    pub open spec fn starting_at(floor: Index) -> FoldView {
        FoldView {
            entries: Seq::empty(),
            hard_state: HardState { term: 0, voted_for: None, commit: 0 },
            snapshot: None,
            clamped_commit: false,
            floor,
        }
    }

    pub open spec fn last_index(self) -> Index {
        if self.entries.len() > 0 {
            self.entries.last().index
        } else {
            self.base()
        }
    }

    /// The index below the first entry that may be present.
    pub open spec fn base(self) -> Index {
        match self.snapshot {
            Some(meta) => meta.index,
            None => self.floor,
        }
    }

    /// The term on record at `index`, from the floor or from the entries.
    pub open spec fn term_at(self, index: Index) -> Option<Term> {
        if self.snapshot is Some && self.snapshot->0.index == index {
            Some(self.snapshot->0.term)
        } else {
            entry_term(self.entries, index)
        }
    }

    /// Whether a snapshot replaces the folded log rather than compacting it.
    pub open spec fn conflicts_with(self, meta: SnapshotMetaView) -> bool {
        self.term_at(meta.index) is Some && self.term_at(meta.index) != Some(meta.term)
    }

    /// Whether a snapshot is behind the floor: at or below the one already folded,
    /// or below everything that this record stream can hold.
    pub open spec fn is_behind(self, meta: SnapshotMetaView) -> bool {
        match self.snapshot {
            Some(held) => meta.index <= held.index,
            None => meta.index < self.floor,
        }
    }

    /// The next record taken into account, or the gap it would leave.
    ///
    /// A record stream that starts at a later segment holds history that an
    /// earlier one began. A truncation in it can reach below where it starts, and
    /// then the log goes on from there; a snapshot in it can be one that is behind
    /// where it starts, and says nothing of what it holds.
    pub open spec fn applied(self, record: RecordView) -> Result<FoldView, ErrorView> {
        match record {
            RecordView::SegHeader(_) => Ok(self),
            RecordView::HardState(hs) => Ok(FoldView { hard_state: hs, ..self }),
            RecordView::Truncate { from } => Ok(
                FoldView {
                    entries: entries_below(self.entries, from),
                    floor: if self.snapshot is None && 0 < from <= self.floor {
                        (from - 1) as u64
                    } else {
                        self.floor
                    },
                    ..self
                },
            ),
            RecordView::Snapshot(meta) => if self.is_behind(meta) {
                Ok(self)
            } else {
                Ok(
                    FoldView {
                        entries: if self.conflicts_with(meta) {
                            Seq::empty()
                        } else {
                            entries_above(self.entries, meta.index)
                        },
                        snapshot: Some(meta),
                        ..self
                    },
                )
            },
            RecordView::Entries(entries) => if entries.len() == 0 {
                Ok(self)
            } else if self.last_index() == u64::MAX || entries[0].index != self.last_index() + 1 {
                Err(
                    ErrorView::Discontiguous {
                        expected: successor(self.last_index()),
                        found: entries[0].index,
                    },
                )
            } else {
                Ok(FoldView { entries: self.entries + entries, ..self })
            },
        }
    }

    /// The final consistency checks, once the whole stream has been folded.
    pub open spec fn finished(self) -> Result<FoldView, ErrorView> {
        if self.entries.len() > 0 && (self.base() == u64::MAX || self.entries[0].index != self.base()
            + 1) {
            Err(
                ErrorView::Discontiguous {
                    expected: successor(self.base()),
                    found: self.entries[0].index,
                },
            )
        } else if self.hard_state.commit > self.last_index() {
            Ok(
                FoldView {
                    hard_state: HardState { commit: self.last_index(), ..self.hard_state },
                    clamped_commit: true,
                    ..self
                },
            )
        } else {
            Ok(self)
        }
    }
}

/// The index after another, where there is one.
pub open spec fn successor(index: Index) -> Index {
    if index == u64::MAX {
        index
    } else {
        (index + 1) as u64
    }
}

/// Several records taken into account, one after the other.
pub open spec fn folded(f: FoldView, records: Seq<RecordView>) -> Result<FoldView, ErrorView>
    decreases records.len(),
{
    if records.len() == 0 {
        Ok(f)
    } else {
        match f.applied(records[0]) {
            Ok(next) => folded(next, records.skip(1)),
            Err(e) => Err(e),
        }
    }
}

fn next_index(index: Index) -> (r: Index)
    ensures
        r == successor(index),
{
    if index == u64::MAX {
        index
    } else {
        index + 1
    }
}

/// Keep the entries below an index.
fn keep_below(entries: Vec<Entry>, from: Index) -> (kept: Vec<Entry>)
    ensures
        models(kept@) == entries_below(models(entries@), from),
{
    let ghost all = models(entries@);
    let ghost p = |e: EntryView| e.index < from;
    let mut kept: Vec<Entry> = Vec::new();
    proof {
        reveal(Seq::filter);
        assert(all.take(0).filter(p) =~= Seq::empty());
        assert(models(kept@) =~= Seq::empty());
    }
    for e in it: entries
        invariant
            all == models(it.seq()),
            p == (|e: EntryView| e.index < from),
            models(kept@) == all.take(it.index() as int).filter(p),
    {
        let ghost i = it.index() as int;
        let ghost before = kept@;
        proof {
            reveal(Seq::filter);
            let next = all.take(i + 1);
            assert(next.drop_last() =~= all.take(i));
            assert(next.last() == e@);
        }
        if e.index < from {
            kept.push(e);
            proof {
                assert(models(kept@) =~= models(before).push(e@));
            }
        }
    }
    proof {
        assert(all.take(all.len() as int) =~= all);
    }
    kept
}

/// Keep the entries above an index.
fn keep_above(entries: Vec<Entry>, through: Index) -> (kept: Vec<Entry>)
    ensures
        models(kept@) == entries_above(models(entries@), through),
{
    let ghost all = models(entries@);
    let ghost p = |e: EntryView| e.index > through;
    let mut kept: Vec<Entry> = Vec::new();
    proof {
        reveal(Seq::filter);
        assert(all.take(0).filter(p) =~= Seq::empty());
        assert(models(kept@) =~= Seq::empty());
    }
    for e in it: entries
        invariant
            all == models(it.seq()),
            p == (|e: EntryView| e.index > through),
            models(kept@) == all.take(it.index() as int).filter(p),
    {
        let ghost i = it.index() as int;
        let ghost before = kept@;
        proof {
            reveal(Seq::filter);
            let next = all.take(i + 1);
            assert(next.drop_last() =~= all.take(i));
            assert(next.last() == e@);
        }
        if e.index > through {
            kept.push(e);
            proof {
                assert(models(kept@) =~= models(before).push(e@));
            }
        }
    }
    proof {
        assert(all.take(all.len() as int) =~= all);
    }
    kept
}

impl Default for Fold {
    fn default() -> (r: Self)
        ensures
            r@ == FoldView::starting_at(0),
    {
        Fold::starting_at(0)
    }
}

impl Fold {
    /// Nothing read yet, of a record stream that starts above `floor`.
    pub fn starting_at(floor: Index) -> (r: Self)
        ensures
            r@ == FoldView::starting_at(floor),
    {
        let r = Fold {
            entries: Vec::new(),
            hard_state: HardState { term: 0, voted_for: None, commit: 0 },
            snapshot: None,
            clamped_commit: false,
            floor,
        };
        proof {
            assert(models(r.entries@) =~= Seq::empty());
        }
        r
    }

    pub fn last_index(&self) -> (r: Index)
        ensures
            r == self@.last_index(),
    {
        let n: usize = self.entries.len();
        if n > 0 {
            self.entries[n - 1].index
        } else {
            self.base()
        }
    }

    fn base(&self) -> (r: Index)
        ensures
            r == self@.base(),
    {
        match &self.snapshot {
            Some(meta) => meta.index,
            None => self.floor,
        }
    }

    /// Take the next record into account.
    pub fn apply(&mut self, record: Record) -> (r: Result<(), Error>)
        ensures
            match r {
                Ok(()) => old(self)@.applied(record@) == Ok::<FoldView, ErrorView>(final(self)@),
                Err(e) => {
                    &&& old(self)@.applied(record@) == Err::<FoldView, ErrorView>(e@)
                    &&& final(self)@ == old(self)@
                },
            },
    {
        match record {
            Record::SegHeader(_) => {},
            Record::HardState(hs) => {
                self.hard_state = hs;
            },
            Record::Truncate { from } => {
                let mut entries: Vec<Entry> = Vec::new();
                core::mem::swap(&mut entries, &mut self.entries);
                self.entries = keep_below(entries, from);
                if self.snapshot.is_none() && 0 < from && from <= self.floor {
                    self.floor = from - 1;
                }
            },
            Record::Snapshot(meta) => {
                // A snapshot at or below the floor already folded is stale: a
                // floor that moves backwards recovers a log that starts before
                // the state machine does.
                let behind: bool = match &self.snapshot {
                    Some(held) => meta.index <= held.index,
                    None => meta.index < self.floor,
                };
                if behind {
                    return Ok(());
                }
                if self.conflicts_with(&meta) {
                    self.entries = Vec::new();
                    proof {
                        assert(models(self.entries@) =~= Seq::empty());
                    }
                } else {
                    let mut entries: Vec<Entry> = Vec::new();
                    core::mem::swap(&mut entries, &mut self.entries);
                    self.entries = keep_above(entries, meta.index);
                }
                self.snapshot = Some(meta);
            },
            Record::Entries(entries) => {
                if entries.len() == 0 {
                    return Ok(());
                }
                let last: Index = self.last_index();
                if last == u64::MAX || entries[0].index != last + 1 {
                    return Err(
                        Error::Discontiguous {
                            expected: next_index(last),
                            found: entries[0].index,
                        },
                    );
                }
                let ghost before = self.entries@;
                let ghost more = entries@;
                let mut entries = entries;
                self.entries.append(&mut entries);
                proof {
                    assert(models(self.entries@) =~= models(before) + models(more));
                }
            },
        }
        Ok(())
    }

    /// Whether this snapshot replaces the folded log rather than compacting it.
    ///
    /// Only an index the fold can actually speak to answers the question. One
    /// below everything on record drops nothing; one above the whole log leaves
    /// no entries either way.
    fn conflicts_with(&self, meta: &SnapshotMeta) -> (r: bool)
        ensures
            r == self@.conflicts_with(meta@),
    {
        match self.term_at(meta.index) {
            Some(term) => term != meta.term,
            None => false,
        }
    }

    /// The term on record at `index`, from the entries or from the floor.
    fn term_at(&self, index: Index) -> (r: Option<Term>)
        ensures
            r == self@.term_at(index),
    {
        if let Some(snapshot) = &self.snapshot {
            if snapshot.index == index {
                return Some(snapshot.term);
            }
        }
        let ghost all = self@.entries;
        let mut i: usize = 0;
        proof {
            assert(all.skip(0) =~= all);
        }
        while i < self.entries.len()
            invariant
                i <= self.entries@.len(),
                all == models(self.entries@),
                all == self@.entries,
                self@.term_at(index) == entry_term(all, index),
                entry_term(all, index) == entry_term(all.skip(i as int), index),
            decreases self.entries@.len() - i,
        {
            proof {
                assert(all.skip(i as int)[0] == self.entries@[i as int]@);
                assert(all.skip(i as int).skip(1) =~= all.skip(i + 1));
            }
            if self.entries[i].index == index {
                return Some(self.entries[i].term);
            }
            i += 1;
        }
        None
    }

    /// Final consistency checks, once the whole stream has been folded.
    ///
    /// A hard state names a commit index; a torn tail can have taken the entries
    /// it referred to. Clamping is correct, because commit is a watermark and the
    /// cluster will re-establish it, but it is also evidence that something was
    /// lost, so it is reported rather than done quietly.
    pub fn finish(self) -> (r: Result<Fold, Error>)
        ensures
            match r {
                Ok(f) => self@.finished() == Ok::<FoldView, ErrorView>(f@),
                Err(e) => self@.finished() == Err::<FoldView, ErrorView>(e@),
            },
    {
        let mut f = self;
        let floor: Index = f.base();
        if f.entries.len() > 0 {
            let first: Index = f.entries[0].index;
            if floor == u64::MAX || first != floor + 1 {
                return Err(Error::Discontiguous { expected: next_index(floor), found: first });
            }
        }
        let last: Index = f.last_index();
        if f.hard_state.commit > last {
            f.hard_state.commit = last;
            f.clamped_commit = true;
        }
        Ok(f)
    }

    /// Take every intact record of a segment into account, from a position on.
    /// Returns where the walk stopped and why.
    pub fn replay(&mut self, bytes: &[u8], pos: usize, max_record_bytes: u32) -> (r: Result<
        (usize, Stop),
        Error,
    >)
        requires
            pos <= bytes@.len(),
        ensures
            match r {
                Ok((end, stop)) => {
                    &&& replayed(old(self)@, bytes@, pos as int, max_record_bytes) == Ok::<
                        (FoldView, int, Stop),
                        ErrorView,
                    >((final(self)@, end as int, stop))
                    &&& pos <= end <= bytes@.len()
                },
                Err(e) => replayed(old(self)@, bytes@, pos as int, max_record_bytes) == Err::<
                    (FoldView, int, Stop),
                    ErrorView,
                >(e@),
            },
    {
        let mut at: usize = pos;
        loop
            invariant
                pos <= at <= bytes@.len(),
                replayed(old(self)@, bytes@, pos as int, max_record_bytes) == replayed(
                    self@,
                    bytes@,
                    at as int,
                    max_record_bytes,
                ),
            decreases bytes@.len() - at,
        {
            match read_frame(bytes, at, max_record_bytes) {
                Ok(Frame::Record(record, end)) => {
                    match self.apply(record) {
                        Ok(()) => {
                            at = end;
                        },
                        Err(e) => {
                            return Err(e);
                        },
                    }
                },
                Ok(Frame::Stop(stop)) => {
                    return Ok((at, stop));
                },
                Err(e) => {
                    return Err(e);
                },
            }
        }
    }
}

/// Every intact record of a segment taken into account, from a position on, with
/// where the walk stopped and why.
pub open spec fn replayed(f: FoldView, bytes: Seq<u8>, pos: int, max: u32) -> Result<
    (FoldView, int, Stop),
    ErrorView,
>
    decreases bytes.len() - pos,
{
    match step(bytes, pos, max) {
        Step::Record(record, end) => if pos < end <= bytes.len() {
            match f.applied(record) {
                Ok(next) => replayed(next, bytes, end, max),
                Err(e) => Err(e),
            }
        } else {
            Err(ErrorView::Codec)
        },
        Step::Stop(stop) => Ok((f, pos, stop)),
        Step::UnknownKind(kind) => Err(ErrorView::UnknownKind(kind)),
        Step::Malformed => Err(ErrorView::Codec),
    }
}

/// Replaying a segment folds exactly the records that a scan of it finds.
pub proof fn lemma_replay_folds_what_a_scan_finds(f: FoldView, bytes: Seq<u8>, pos: int, max: u32)
    requires
        scanned(bytes, pos, max).2 is Stopped,
    ensures
        ({
            let (records, end, outcome) = scanned(bytes, pos, max);
            replayed(f, bytes, pos, max) == (match folded(f, records) {
                Ok(last) => Ok::<(FoldView, int, Stop), ErrorView>(
                    (last, end, outcome->Stopped_0),
                ),
                Err(e) => Err(e),
            })
        }),
    decreases bytes.len() - pos,
{
    match step(bytes, pos, max) {
        Step::Record(record, end) => {
            if pos < end <= bytes.len() {
                let (others, last, outcome) = scanned(bytes, end, max);
                let records = seq![record] + others;
                assert(records[0] == record);
                assert(records.skip(1) =~= others);
                match f.applied(record) {
                    Ok(next) => {
                        lemma_replay_folds_what_a_scan_finds(next, bytes, end, max);
                    },
                    Err(_) => {},
                }
            }
        },
        _ => {},
    }
}

/// Whatever records follow, the floor that a snapshot set never moves back.
pub proof fn law_the_floor_never_moves_back(f: FoldView, records: Seq<RecordView>)
    requires
        folded(f, records) is Ok,
        f.snapshot is Some,
    ensures
        folded(f, records)->Ok_0.snapshot is Some,
        folded(f, records)->Ok_0.snapshot->0.index >= f.snapshot->0.index,
    decreases records.len(),
{
    if records.len() > 0 {
        law_the_floor_never_moves_back(f.applied(records[0])->Ok_0, records.skip(1));
    }
}

/// A recovered commit index is never above the recovered log, and it is reported
/// as clamped exactly where the one on disk was.
pub proof fn law_a_recovered_commit_is_within_the_log(f: FoldView)
    requires
        f.finished() is Ok,
        !f.clamped_commit,
    ensures
        f.finished()->Ok_0.hard_state.commit <= f.finished()->Ok_0.last_index(),
        f.finished()->Ok_0.last_index() == f.last_index(),
        f.finished()->Ok_0.clamped_commit <==> f.hard_state.commit > f.last_index(),
        f.finished()->Ok_0.entries == f.entries,
        f.finished()->Ok_0.hard_state.term == f.hard_state.term,
        f.finished()->Ok_0.hard_state.voted_for == f.hard_state.voted_for,
{
}

/// What a fold has read, it recovers: its entries, its snapshot, and the last hard
/// state it met. Of the hard state only the commit index can change, and only to
/// the end of the log, where it names entries that are not there.
pub proof fn law_finishing_keeps_what_was_read(f: Fold, r: Result<Fold, Error>)
    requires
        call_ensures(Fold::finish, (f,), r),
        r is Ok,
    ensures
        ({
            let g = r->Ok_0;
            let last = if f.entries@.len() > 0 {
                f.entries@.last().index
            } else if f.snapshot is Some {
                f.snapshot->0.index
            } else {
                f.floor
            };
            &&& models(g.entries@) == models(f.entries@)
            &&& g.snapshot.model() == f.snapshot.model()
            &&& g.floor == f.floor
            &&& g.hard_state.term == f.hard_state.term
            &&& g.hard_state.voted_for == f.hard_state.voted_for
            &&& g.hard_state.commit <= last
            &&& f.hard_state.commit <= last ==> {
                &&& g.hard_state == f.hard_state
                &&& g.clamped_commit == f.clamped_commit
            }
            &&& f.hard_state.commit > last ==> g.hard_state.commit == last && g.clamped_commit
        }),
{
    if f.entries@.len() > 0 {
        assert(models(f.entries@).last() == f.entries@.last()@);
    }
}

} // verus!
