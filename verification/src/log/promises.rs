//! What the log promises, call by call.
//!
//! Each of these speaks of a call and of what went in and came out of it.

use vstd::prelude::*;

use crate::log::durability::{
    distinct_names, gapless, law_a_hard_state_is_held, law_a_snapshot_moves_the_floor,
    law_a_truncation_drops_a_suffix, law_appended_entries_are_held, law_compaction_loses_nothing,
    law_reading_back_gives_what_is_held, law_reopening_recovers_what_is_held, lemma_folded_concat,
    segment_images, takes_headers,
};
use crate::log::error::{Error, ErrorView};
use crate::log::fold::{folded, Fold, FoldView};
use crate::log::fs::{Effect, EffectView};
use crate::log::journal::{
    batches, create_effects, Log, LogOptions, LogView, Recovered, SegmentView, SyncToken,
};
use crate::log::record::{Record, RecordView};
use crate::log::recovery::{disk_of, file_views, SegmentFile};
use crate::raft::{Entry, EntryView, HardState, Index, SnapshotMeta};
use crate::wire::{models, Wire};

verus! {

// ------------------------------------------------------------------ folding

/// The hard state that is recovered is the last one that was written.
pub proof fn law_the_last_hard_state_is_recovered(
    f: FoldView,
    before: Seq<RecordView>,
    hs: HardState,
    after: Seq<RecordView>,
)
    requires
        forall|i: int| 0 <= i < after.len() ==> !((#[trigger] after[i]) is HardState),
        folded(f, before.push(RecordView::HardState(hs)) + after) is Ok,
    ensures
        folded(f, before.push(RecordView::HardState(hs)) + after)->Ok_0.hard_state == hs,
{
    let one = seq![RecordView::HardState(hs)];
    assert(before.push(RecordView::HardState(hs)) =~= before + one);
    lemma_folded_concat(f, before + one, after);
    lemma_folded_concat(f, before, one);
    let g = folded(f, before)->Ok_0;
    assert(one.skip(1) =~= Seq::empty());
    reveal_with_fuel(folded, 2);
    assert(folded(g, one)->Ok_0 == g.applied(one[0])->Ok_0);
    lemma_hard_state_stays(folded(g, one)->Ok_0, after);
}

/// Records that are no hard state leave it.
proof fn lemma_hard_state_stays(f: FoldView, records: Seq<RecordView>)
    requires
        forall|i: int| 0 <= i < records.len() ==> !((#[trigger] records[i]) is HardState),
        folded(f, records) is Ok,
    ensures
        folded(f, records)->Ok_0.hard_state == f.hard_state,
    decreases records.len(),
{
    if records.len() > 0 {
        let rest = records.skip(1);
        assert(forall|i: int| 0 <= i < rest.len() ==> #[trigger] rest[i] == records[i + 1]);
        lemma_hard_state_stays(f.applied(records[0])->Ok_0, rest);
    }
}

/// A fold that has read nothing holds nothing.
pub proof fn law_a_new_fold_is_empty(floor: Index, f: Fold)
    requires
        call_ensures(Fold::starting_at, (floor,), f),
    ensures
        f.entries@.len() == 0,
        f.snapshot is None,
        f.hard_state.term == 0,
        f.hard_state.voted_for is None,
        f.hard_state.commit == 0,
        !f.clamped_commit,
        f.floor == floor,
{
    assert(models(f.entries@).len() == 0);
}

/// Entries extend the log, and only where they continue it exactly: after its last
/// entry, after its snapshot where it has no entry, or where the stream starts.
/// Others are refused with the index that was due, and change nothing.
pub proof fn law_entries_continue_the_log(entries: Vec<Entry>, r: Result<(), Error>)
    requires
        entries@.len() > 0,
    ensures
        forall|f: &mut Fold| #[trigger]
            call_ensures(Fold::apply, (f, Record::Entries(entries)), r) ==> {
                let last = if f.entries@.len() > 0 {
                    f.entries@.last().index
                } else if f.snapshot is Some {
                    f.snapshot->0.index
                } else {
                    f.floor
                };
                &&& r is Ok <==> entries@[0].index == last + 1
                &&& r is Ok ==> final(f)@.entries == f@.entries + models(entries@)
                &&& r is Err ==> final(f)@ == f@
                &&& r is Err && last < u64::MAX ==> r->Err_0@ == (ErrorView::Discontiguous {
                    expected: (last + 1) as u64,
                    found: entries@[0].index,
                })
                &&& final(f)@.snapshot == f@.snapshot
                &&& final(f).hard_state == f.hard_state
            },
{
    assert forall|f: &mut Fold| #[trigger]
        call_ensures(Fold::apply, (f, Record::Entries(entries)), r) implies {
        let last = if f.entries@.len() > 0 {
            f.entries@.last().index
        } else if f.snapshot is Some {
            f.snapshot->0.index
        } else {
            f.floor
        };
        f@.last_index() == last
    } by {
        if f.entries@.len() > 0 {
            assert(f@.entries.last() == f.entries@.last()@);
        }
    }
    assert(models(entries@)[0] == entries@[0]@);
}

/// A hard state replaces the one before it, and nothing else.
pub proof fn law_a_hard_state_replaces_the_last(hs: HardState, r: Result<(), Error>)
    ensures
        forall|f: &mut Fold| #[trigger]
            call_ensures(Fold::apply, (f, Record::HardState(hs)), r) ==> {
                &&& r is Ok
                &&& final(f).hard_state == hs
                &&& final(f)@.entries == f@.entries
                &&& final(f)@.snapshot == f@.snapshot
                &&& final(f).floor == f.floor
            },
{
}

/// A truncation drops every entry at or above its index, and no other.
pub proof fn law_a_truncation_drops_what_is_above(from: Index, r: Result<(), Error>)
    ensures
        forall|f: &mut Fold| #[trigger]
            call_ensures(Fold::apply, (f, Record::Truncate { from }), r) ==> {
                &&& r is Ok
                &&& final(f)@.entries == f@.entries.filter(|e: EntryView| e.index < from)
                &&& final(f)@.snapshot == f@.snapshot
                &&& final(f).hard_state == f.hard_state
            },
{
}

/// A snapshot that is newer than the one before becomes the floor: entries above it
/// stay where the log has its index at its term, or has not got its index; where the
/// log has the index at another term, all of them belong to a history that is gone.
pub proof fn law_a_snapshot_becomes_the_floor(meta: SnapshotMeta, r: Result<(), Error>)
    ensures
        forall|f: &mut Fold| #[trigger]
            call_ensures(Fold::apply, (f, Record::Snapshot(meta)), r) ==> {
                let newer = if f.snapshot is Some {
                    meta.index > f.snapshot->0.index
                } else {
                    meta.index >= f.floor
                };
                &&& r is Ok
                &&& final(f).hard_state == f.hard_state
                &&& !newer ==> final(f)@.entries == f@.entries && final(f)@.snapshot == f@.snapshot
                &&& newer ==> final(f)@.snapshot == Some(meta@)
                &&& newer && (forall|i: int|
                    0 <= i < f.entries@.len() && (#[trigger] f.entries@[i]).index == meta.index
                        ==> f.entries@[i].term == meta.term) ==> final(f)@.entries
                    == f@.entries.filter(|e: EntryView| e.index > meta.index)
                &&& newer && (exists|i: int|
                    {
                        &&& 0 <= i < f.entries@.len()
                        &&& (#[trigger] f.entries@[i]).index == meta.index
                        &&& f.entries@[i].term != meta.term
                        &&& forall|j: int|
                            0 <= j < i ==> (#[trigger] f.entries@[j]).index != meta.index
                    }) ==> final(f)@.entries.len() == 0
            },
{
    assert forall|f: &mut Fold| #[trigger]
        call_ensures(Fold::apply, (f, Record::Snapshot(meta)), r) implies {
        &&& (forall|i: int|
            0 <= i < f.entries@.len() && (#[trigger] f.entries@[i]).index == meta.index
                ==> f.entries@[i].term == meta.term) ==> crate::log::fold::entry_term(
            f@.entries,
            meta.index,
        ) is None || crate::log::fold::entry_term(f@.entries, meta.index) == Some(meta.term)
        &&& forall|i: int|
            {
                &&& 0 <= i < f.entries@.len()
                &&& (#[trigger] f.entries@[i]).index == meta.index
                &&& forall|j: int| 0 <= j < i ==> (#[trigger] f.entries@[j]).index != meta.index
            } ==> crate::log::fold::entry_term(f@.entries, meta.index) == Some(f.entries@[i].term)
    } by {
        lemma_first_term(f.entries@, meta.index);
    }
}

/// The term on record at an index is that of the first entry there.
proof fn lemma_first_term(entries: Seq<Entry>, index: Index)
    ensures
        match crate::log::fold::entry_term(models(entries), index) {
            Some(term) => exists|i: int|
                {
                    &&& 0 <= i < entries.len()
                    &&& (#[trigger] entries[i]).index == index
                    &&& entries[i].term == term
                    &&& forall|j: int| 0 <= j < i ==> (#[trigger] entries[j]).index != index
                },
            None => forall|i: int| 0 <= i < entries.len() ==> (#[trigger] entries[i]).index != index,
        },
    decreases entries.len(),
{
    if entries.len() > 0 {
        let rest = entries.skip(1);
        assert(models(entries)[0] == entries[0]@);
        assert(models(entries).skip(1) =~= models(rest));
        assert(forall|i: int| 0 <= i < rest.len() ==> #[trigger] rest[i] == entries[i + 1]);
        if entries[0].index != index {
            lemma_first_term(rest, index);
            match crate::log::fold::entry_term(models(rest), index) {
                Some(term) => {
                    let i = choose|i: int|
                        {
                            &&& 0 <= i < rest.len()
                            &&& (#[trigger] rest[i]).index == index
                            &&& rest[i].term == term
                            &&& forall|j: int| 0 <= j < i ==> (#[trigger] rest[j]).index != index
                        };
                    assert(entries[i + 1] == rest[i]);
                    assert forall|j: int| 0 <= j < i + 1 implies (#[trigger] entries[j]).index
                        != index by {
                        if j > 0 {
                            assert(rest[j - 1] == entries[j]);
                        }
                    }
                },
                None => {
                    assert forall|i: int| 0 <= i < entries.len() implies (#[trigger] entries[i]).index
                        != index by {
                        if i > 0 {
                            assert(rest[i - 1] == entries[i]);
                        }
                    }
                },
            }
        }
    }
}

// ------------------------------------------------------------------ the log

/// Opening the directory of a log that was written here recovers what was written:
/// its entries, its snapshot, and its term, its vote and its commit index, which
/// only comes back to the end of the log where it names more than is there. The log
/// goes on where it stood.
pub proof fn law_a_restart_recovers_what_was_written(
    log: LogView,
    dir: &str,
    files: Vec<SegmentFile>,
    opened: Log,
    recovered: Recovered,
)
    requires
        log.sound(),
        log.in_step(),
        dir@ == log.dir,
        distinct_names(file_views(files@)),
        disk_of(file_views(files@)) == log.disk,
    ensures
        forall|effects: &mut Vec<Effect>| #[trigger]
            call_ensures(
                Log::open,
                (dir, files, log.opts, effects),
                Ok::<(Log, Recovered), Error>((opened, recovered)),
            ) ==> {
                let held = log.held()->Ok_0;
                &&& models(recovered.entries@) == held.entries
                &&& recovered.snapshot.model() == held.snapshot
                &&& recovered.hard_state.term == held.hard_state.term
                &&& recovered.hard_state.voted_for == held.hard_state.voted_for
                &&& held.hard_state.commit <= log.last_index ==> {
                    &&& recovered.hard_state.commit == held.hard_state.commit
                    &&& recovered.clamped_commit == held.clamped_commit
                }
                &&& held.hard_state.commit > log.last_index ==> {
                    &&& recovered.hard_state.commit == log.last_index
                    &&& recovered.clamped_commit
                }
                &&& recovered.discarded_tail_bytes == 0
                &&& opened@.last_index == log.last_index
                &&& opened@.hard_state == recovered.hard_state
                &&& opened@.snapshot == held.snapshot
                &&& opened@.segments == log.segments
                &&& opened@.disk == log.disk
                &&& effects@.len() == 0 ==> final(effects)@.len() == 0
            },
{
    let held = log.held()->Ok_0;
    assert(held.finished() is Ok) by {
        if held.entries.len() > 0 {
            assert(held.entries[0].index == held.base() + 1);
        }
    }
    law_reopening_recovers_what_is_held(log, file_views(files@));
    assert forall|effects: &mut Vec<Effect>| #[trigger]
        call_ensures(
            Log::open,
            (dir, files, log.opts, effects),
            Ok::<(Log, Recovered), Error>((opened, recovered)),
        ) && effects@.len() == 0 implies final(effects)@.len() == 0 by {
        assert(crate::log::fs::effect_views(final(effects)@).len() == final(effects)@.len());
    }
}

/// Opening a directory without a file begins a log that holds nothing.
pub proof fn law_an_empty_directory_opens_as_an_empty_log(
    dir: &str,
    files: Vec<SegmentFile>,
    opts: LogOptions,
    opened: Log,
    recovered: Recovered,
)
    requires
        files@.len() == 0,
    ensures
        forall|effects: &mut Vec<Effect>| #[trigger]
            call_ensures(
                Log::open,
                (dir, files, opts, effects),
                Ok::<(Log, Recovered), Error>((opened, recovered)),
            ) ==> {
                &&& recovered.entries@.len() == 0
                &&& recovered.snapshot is None
                &&& recovered.hard_state.term == 0
                &&& recovered.hard_state.voted_for is None
                &&& recovered.hard_state.commit == 0
                &&& recovered.discarded_tail_bytes == 0
                &&& !recovered.clamped_commit
                &&& opened@.last_index == 0
                &&& opened@.segments.len() == 1
                &&& opened@.segments[0].base_index == 1
                &&& opened@.opts == opts
            },
{
    assert(file_views(files@) =~= Seq::empty());
    assert forall|effects: &mut Vec<Effect>| #[trigger]
        call_ensures(
            Log::open,
            (dir, files, opts, effects),
            Ok::<(Log, Recovered), Error>((opened, recovered)),
        ) implies recovered.entries@.len() == 0 by {
        assert(models(recovered.entries@).len() == recovered.entries@.len());
    }
}

/// Entries that were appended are what the log holds after those it held: as they
/// were given, and in that order. The log ends with the last of them.
pub proof fn law_what_was_appended_is_held(entries: &[Entry], token: SyncToken)
    requires
        entries@.len() > 0,
    ensures
        forall|log: &mut Log| #[trigger]
            call_ensures(Log::append, (log, entries), Ok::<SyncToken, Error>(token))
                && log@.sound() && log@.in_step() && takes_headers(log@.opts.max_record_bytes)
                && gapless(models(entries@), log@.last_index) && (forall|i: int|
                0 <= i < batches(models(entries@), log@.opts.max_record_bytes)->Ok_0.len()
                    ==> RecordView::Entries(
                    #[trigger] batches(models(entries@), log@.opts.max_record_bytes)->Ok_0[i],
                ).fits()) ==> {
                let (f, g) = (log@.held()->Ok_0, final(log)@.held()->Ok_0);
                &&& final(log)@.held() is Ok
                &&& g.entries == f.entries + models(entries@)
                &&& g.snapshot == f.snapshot
                &&& g.hard_state == f.hard_state
                &&& final(log)@.last_index == entries@.last().index
                &&& final(log)@.sound() && final(log)@.in_step()
                &&& token@ == final(log)@.next_token
            },
{
    assert forall|log: &mut Log| #[trigger]
        call_ensures(Log::append, (log, entries), Ok::<SyncToken, Error>(token)) && log@.sound()
            && log@.in_step() && takes_headers(log@.opts.max_record_bytes) && gapless(
            models(entries@),
            log@.last_index,
        ) && (forall|i: int|
            0 <= i < batches(models(entries@), log@.opts.max_record_bytes)->Ok_0.len()
                ==> RecordView::Entries(
                #[trigger] batches(models(entries@), log@.opts.max_record_bytes)->Ok_0[i],
            ).fits()) implies {
        let (f, g) = (log@.held()->Ok_0, final(log)@.held()->Ok_0);
        &&& final(log)@.held() is Ok
        &&& g.entries == f.entries + models(entries@)
        &&& g.snapshot == f.snapshot
        &&& g.hard_state == f.hard_state
        &&& final(log)@.last_index == entries@.last().index
        &&& final(log)@.sound() && final(log)@.in_step()
        &&& token@ == final(log)@.next_token
    } by {
        law_appended_entries_are_held(log@, models(entries@));
        let g = final(log)@.held()->Ok_0;
        assert(g.entries.last() == models(entries@).last());
        assert(models(entries@).last() == entries@.last()@);
    }
}

/// Entries that do not continue the log are refused, with the index that was due,
/// and nothing is written.
pub proof fn law_a_gap_is_refused(entries: &[Entry], r: Result<SyncToken, Error>)
    requires
        entries@.len() > 0,
    ensures
        forall|log: &mut Log| #[trigger]
            call_ensures(Log::append, (log, entries), r) && entries@[0].index
                != log@.last_index + 1 ==> {
                &&& r is Err
                &&& log@.last_index < u64::MAX ==> r->Err_0@ == (ErrorView::Discontiguous {
                    expected: (log@.last_index + 1) as u64,
                    found: entries@[0].index,
                })
                &&& final(log)@ == log@
            },
{
    assert(models(entries@)[0] == entries@[0]@);
}

/// A hard state that was set is the one the log has and holds; nothing else changes.
pub proof fn law_a_hard_state_that_was_set_is_held(hs: HardState, token: SyncToken)
    ensures
        forall|log: &mut Log| #[trigger]
            call_ensures(Log::set_hard_state, (log, hs), Ok::<SyncToken, Error>(token)) ==> {
                &&& final(log)@.hard_state == hs
                &&& final(log)@.last_index == log@.last_index
                &&& final(log)@.snapshot == log@.snapshot
                &&& log@.sound() && log@.in_step() && takes_headers(log@.opts.max_record_bytes)
                    && log@.last_index < u64::MAX ==> {
                    let (f, g) = (log@.held()->Ok_0, final(log)@.held()->Ok_0);
                    &&& final(log)@.held() is Ok
                    &&& g.hard_state == hs
                    &&& g.entries == f.entries
                    &&& g.snapshot == f.snapshot
                    &&& final(log)@.sound() && final(log)@.in_step()
                }
            },
{
    assert forall|log: &mut Log| #[trigger]
        call_ensures(Log::set_hard_state, (log, hs), Ok::<SyncToken, Error>(token)) && log@.sound()
            && log@.in_step() && takes_headers(log@.opts.max_record_bytes) && log@.last_index
            < u64::MAX implies {
        let (f, g) = (log@.held()->Ok_0, final(log)@.held()->Ok_0);
        &&& final(log)@.held() is Ok
        &&& g.hard_state == hs
        &&& g.entries == f.entries
        &&& g.snapshot == f.snapshot
        &&& final(log)@.sound() && final(log)@.in_step()
    } by {
        law_a_hard_state_is_held(log@, hs);
    }
}

/// A truncation leaves exactly the entries below its index, and the log ends there.
pub proof fn law_a_truncated_log_ends_below(from: Index, token: SyncToken)
    ensures
        forall|log: &mut Log| #[trigger]
            call_ensures(Log::truncate, (log, from), Ok::<SyncToken, Error>(token))
                && log@.sound() && log@.in_step() && takes_headers(log@.opts.max_record_bytes)
                && log@.last_index < u64::MAX && from > log@.held()->Ok_0.base() ==> {
                let (f, g) = (log@.held()->Ok_0, final(log)@.held()->Ok_0);
                &&& final(log)@.held() is Ok
                &&& from <= log@.last_index ==> {
                    &&& final(log)@.last_index == from - 1
                    &&& g.entries == f.entries.take(
                        f.entries.len() - (log@.last_index - from + 1),
                    )
                }
                &&& from > log@.last_index ==> {
                    &&& final(log)@.last_index == log@.last_index
                    &&& g.entries == f.entries
                }
                &&& g.snapshot == f.snapshot
                &&& g.hard_state == f.hard_state
                &&& final(log)@.hard_state == log@.hard_state
                &&& final(log)@.sound() && final(log)@.in_step()
            },
{
    assert forall|log: &mut Log| #[trigger]
        call_ensures(Log::truncate, (log, from), Ok::<SyncToken, Error>(token)) && log@.sound()
            && log@.in_step() && takes_headers(log@.opts.max_record_bytes) && log@.last_index
            < u64::MAX && from > log@.held()->Ok_0.base() implies {
        let (f, g) = (log@.held()->Ok_0, final(log)@.held()->Ok_0);
        &&& final(log)@.held() is Ok
        &&& from <= log@.last_index ==> {
            &&& final(log)@.last_index == from - 1
            &&& g.entries == f.entries.take(f.entries.len() - (log@.last_index - from + 1))
        }
        &&& from > log@.last_index ==> {
            &&& final(log)@.last_index == log@.last_index
            &&& g.entries == f.entries
        }
        &&& g.snapshot == f.snapshot
        &&& g.hard_state == f.hard_state
        &&& final(log)@.hard_state == log@.hard_state
        &&& final(log)@.sound() && final(log)@.in_step()
    } by {
        law_a_truncation_drops_a_suffix(log@, from);
        let f = log@.held()->Ok_0;
        let n = f.entries.len() - 1;
        if n >= 0 {
            assert(f.entries[n].index == f.base() + 1 + n);
        }
    }
}

/// What is read back of a log is the entries that it holds from one index through
/// another.
pub proof fn law_entries_are_read_back(
    log: &Log,
    images: &[SegmentFile],
    lo: Index,
    hi: Index,
    entries: Vec<Entry>,
)
    requires
        log@.sound(),
        file_views(images@) == segment_images(log@.disk, log@.segments),
        call_ensures(Log::read, (log, images, lo, hi), Ok::<Vec<Entry>, Error>(entries)),
    ensures
        models(entries@) == log@.held()->Ok_0.entries.filter(
            |e: EntryView| lo <= e.index && e.index <= hi,
        ),
{
    law_reading_back_gives_what_is_held(log@);
}

// --------------------------------------------------------------- durability

/// Whether every write to a file is followed by a sync of it.
pub open spec fn covered(effects: Seq<EffectView>, name: Seq<char>) -> bool {
    forall|i: int|
        0 <= i < effects.len() && writes(#[trigger] effects[i], name) ==> exists|j: int|
            i < j < effects.len() && #[trigger] effects[j] == (EffectView::Sync { name })
}

/// Whether an effect writes to a file.
pub open spec fn writes(effect: EffectView, name: Seq<char>) -> bool {
    effect matches EffectView::Write { name: file, .. } && file == name
}

/// Whether every write is followed by a sync but those to the segment that is
/// written to, where the log knows that it owes one.
pub open spec fn owes_only_the_newest(log: LogView) -> bool {
    forall|name: Seq<char>| #[trigger]
        covered(log.effects, name) || (log.dirty && name == log.current().name)
}

proof fn lemma_covered_on(effects: Seq<EffectView>, more: Seq<EffectView>, name: Seq<char>)
    requires
        covered(effects, name),
        covered(more, name),
    ensures
        covered(effects + more, name),
{
    let all = effects + more;
    let n = effects.len() as int;
    assert forall|i: int| 0 <= i < all.len() && writes(#[trigger] all[i], name) implies exists|
        j: int,
    |
        i < j < all.len() && #[trigger] all[j] == (EffectView::Sync { name }) by {
        if i < n {
            assert(writes(effects[i], name));
            let j = choose|j: int|
                i < j < effects.len() && #[trigger] effects[j] == (EffectView::Sync { name });
            assert(all[j] == effects[j]);
        } else {
            assert(writes(more[i - n], name));
            let j = choose|j: int|
                i - n < j < more.len() && #[trigger] more[j] == (EffectView::Sync { name });
            assert(all[n + j] == more[j]);
        }
    }
}

/// A sync at the end covers everything before it.
proof fn lemma_covered_by_sync(effects: Seq<EffectView>, name: Seq<char>)
    ensures
        covered(effects.push(EffectView::Sync { name }), name),
{
    let all = effects.push(EffectView::Sync { name });
    assert(all[effects.len() as int] == (EffectView::Sync { name }));
}

proof fn lemma_created_is_covered(opts: LogOptions, seq: u64, base: Index, name: Seq<char>)
    ensures
        covered(create_effects(opts, seq, base), name),
{
    let all = create_effects(opts, seq, base);
    assert(all[2] == (EffectView::Sync { name: crate::log::segment::segment_file(seq) }));
}

/// A segment that is left for a new one is synced first, and so is the header of the
/// new one before anything depends on it.
proof fn lemma_rolling_owes_nothing(log: LogView)
    requires
        owes_only_the_newest(log),
        log.rolled() is Ok,
    ensures
        forall|name: Seq<char>| #[trigger] covered(log.rolled()->Ok_0.effects, name),
{
    let sync = EffectView::Sync { name: log.current().name };
    let seq = (log.current().seq + 1) as u64;
    let created = create_effects(log.opts, seq, crate::log::fold::successor(log.last_index));
    assert forall|name: Seq<char>| #[trigger] covered(log.rolled()->Ok_0.effects, name) by {
        lemma_created_is_covered(
            log.opts,
            seq,
            crate::log::fold::successor(log.last_index),
            name,
        );
        assert(covered(log.effects, name) || (log.dirty && name == log.current().name));
        if log.dirty {
            let with = log.effects + seq![sync];
            assert(with =~= log.effects.push(sync));
            if name == log.current().name {
                lemma_covered_by_sync(log.effects, name);
            } else {
                assert(covered(seq![sync], name));
                lemma_covered_on(log.effects, seq![sync], name);
            }
            lemma_covered_on(with, created, name);
        } else {
            lemma_covered_on(log.effects, created, name);
        }
    }
}

/// A record that is staged is owed a sync, and nothing that was covered is owed one
/// again.
pub proof fn law_a_staged_record_is_owed_a_sync(log: LogView, record: RecordView)
    requires
        owes_only_the_newest(log),
        log.staged(record) is Ok,
    ensures
        owes_only_the_newest(log.staged(record)->Ok_0),
        log.staged(record)->Ok_0.dirty,
{
    let next = log.staged(record)->Ok_0;
    let from = if log.has_room(record) {
        log
    } else {
        log.rolled()->Ok_0
    };
    if !log.has_room(record) {
        lemma_rolling_owes_nothing(log);
    }
    let write = EffectView::Write {
        name: from.current().name,
        offset: from.cursor,
        bytes: record.frame(),
    };
    assert(next.effects == from.effects + seq![write]);
    assert forall|name: Seq<char>| #[trigger]
        covered(next.effects, name) || (next.dirty && name == next.current().name) by {
        if name != next.current().name {
            assert(covered(from.effects, name)) by {
                assert(covered(from.effects, name) || (from.dirty && name == from.current().name));
            }
            assert(covered(seq![write], name));
            lemma_covered_on(from.effects, seq![write], name);
        }
    }
}

/// Once a log is synced, every write it asked for is followed by a sync of its
/// file, and its durable token is at least that of everything staged.
pub proof fn law_a_sync_covers_every_write(log: LogView)
    requires
        owes_only_the_newest(log),
    ensures
        forall|name: Seq<char>| #[trigger] covered(log.synced().effects, name),
        !log.synced().dirty,
        log.synced().durable >= log.next_token,
        log.synced().next_token == log.next_token,
{
    let sync = EffectView::Sync { name: log.current().name };
    assert forall|name: Seq<char>| #[trigger] covered(log.synced().effects, name) by {
        assert(covered(log.effects, name) || (log.dirty && name == log.current().name));
        if log.dirty {
            assert(log.effects + seq![sync] =~= log.effects.push(sync));
            if name == log.current().name {
                lemma_covered_by_sync(log.effects, name);
            } else {
                assert(covered(seq![sync], name));
                lemma_covered_on(log.effects, seq![sync], name);
            }
        }
    }
}

/// Nothing is unlinked before what replaces it is durable: a compaction asks for no
/// removal before a sync of everything it wrote.
pub proof fn law_nothing_is_removed_before_its_replacement_is_durable(log: LogView, index: Index)
    requires
        owes_only_the_newest(log),
        log.snapshot is Some,
        index <= log.snapshot->0.index,
        log.compacted(index).1 is Ok,
    ensures
        ({
            let second = log.staged(RecordView::Snapshot(log.snapshot->0))->Ok_0.staged(
                RecordView::HardState(log.hard_state),
            )->Ok_0;
            let n = second.synced().effects.len() as int;
            let after = log.compacted(index).0;
            &&& n <= after.effects.len()
            &&& after.effects.take(n) == second.synced().effects
            &&& forall|name: Seq<char>| #[trigger] covered(after.effects.take(n), name)
            &&& forall|i: int|
                n <= i < after.effects.len() ==> (#[trigger] after.effects[i]) is Remove
                    || after.effects[i] is SyncDir
            &&& log.compacted(index).1->Ok_0 > 0 ==> after.effects.last() is SyncDir
        }),
{
    let first = log.staged(RecordView::Snapshot(log.snapshot->0))->Ok_0;
    let second = first.staged(RecordView::HardState(log.hard_state))->Ok_0;
    law_a_staged_record_is_owed_a_sync(log, RecordView::Snapshot(log.snapshot->0));
    law_a_staged_record_is_owed_a_sync(first, RecordView::HardState(log.hard_state));
    law_a_sync_covers_every_write(second);
    let synced = second.synced();
    let count = LogView::covered_segments(first.segments, log.snapshot->0.index);
    lemma_dropping_only_removes(synced, count);
    let after = log.compacted(index).0;
    let n = synced.effects.len() as int;
    assert(after.effects.take(n) =~= synced.effects) by {
        assert(synced.dropping(count).effects.take(n) == synced.effects);
        assert(after.effects.take(n) =~= synced.dropping(count).effects.take(n));
    }
}

proof fn lemma_dropping_only_removes(log: LogView, count: nat)
    ensures
        ({
            let after = log.dropping(count);
            let n = log.effects.len() as int;
            &&& after.effects.len() == n + count
            &&& after.effects.take(n) == log.effects
            &&& forall|i: int| n <= i < after.effects.len() ==> (#[trigger] after.effects[i]) is Remove
        }),
    decreases count,
{
    let n = log.effects.len() as int;
    if count == 0 {
        assert(log.effects.take(n) =~= log.effects);
    } else {
        let remove = EffectView::Remove { name: log.segments[0].name };
        let next = LogView { segments: log.segments.skip(1), ..log }.emitting(seq![remove]);
        lemma_dropping_only_removes(next, (count - 1) as nat);
        let after = log.dropping(count);
        assert(after.effects.take(n) =~= after.effects.take(n + 1).take(n));
        assert(next.effects.take(n) =~= log.effects);
        assert forall|i: int| n <= i < after.effects.len() implies (
        #[trigger] after.effects[i]) is Remove by {
            if i == n {
                assert(after.effects.take(n + 1)[n] == next.effects[n]);
            }
        }
    }
}

/// What is appended is owed a sync, and nothing that was covered is owed one again.
pub proof fn law_appended_entries_are_owed_a_sync(log: LogView, entries: Seq<EntryView>)
    requires
        owes_only_the_newest(log),
    ensures
        owes_only_the_newest(log.appended(entries).0),
{
    if entries.len() > 0 {
        match batches(entries, log.opts.max_record_bytes) {
            Ok(records) => {
                lemma_batches_owe_only_the_newest(log, records);
                let staged = log.staged_batches(records).0;
                let after = log.appended(entries).0;
                if after.effects == staged.effects {
                    assert forall|name: Seq<char>| #[trigger]
                        covered(after.effects, name) || (after.dirty && name
                            == after.current().name) by {
                        assert(covered(staged.effects, name) || (staged.dirty && name
                            == staged.current().name));
                    }
                }
            },
            Err(_) => {},
        }
    }
}

proof fn lemma_batches_owe_only_the_newest(log: LogView, records: Seq<Seq<EntryView>>)
    requires
        owes_only_the_newest(log),
    ensures
        owes_only_the_newest(log.staged_batches(records).0),
    decreases records.len(),
{
    if records.len() > 0 {
        let record = RecordView::Entries(records[0]);
        match log.staged(record) {
            Ok(next) => {
                law_a_staged_record_is_owed_a_sync(log, record);
                let moved = LogView { last_index: records[0].last().index, ..next };
                assert forall|name: Seq<char>| #[trigger]
                    covered(moved.effects, name) || (moved.dirty && name
                        == moved.current().name) by {
                    assert(covered(next.effects, name) || (next.dirty && name
                        == next.current().name));
                }
                lemma_batches_owe_only_the_newest(moved, records.skip(1));
            },
            Err(_) => {},
        }
    }
}

/// A snapshot of the log's own history that was installed is its floor: what it
/// covers is gone, what is above it stays, and where it is above all of the log the
/// log goes on from it. One that is not newer changes nothing.
pub proof fn law_an_installed_snapshot_is_the_floor(meta: &SnapshotMeta, token: SyncToken)
    ensures
        forall|log: &mut Log| #[trigger]
            call_ensures(Log::install_snapshot, (log, meta), Ok::<SyncToken, Error>(token)) ==> {
                let newer = log@.snapshot is None || log@.snapshot->0.index < meta.index;
                &&& !newer ==> final(log)@ == log@
                &&& newer ==> final(log)@.snapshot == Some(meta@)
                &&& newer ==> final(log)@.last_index == (if log@.last_index > meta.index {
                    log@.last_index
                } else {
                    meta.index
                })
                &&& final(log)@.hard_state == log@.hard_state
                &&& newer && log@.sound() && log@.in_step() && takes_headers(
                    log@.opts.max_record_bytes,
                ) && log@.last_index < u64::MAX && RecordView::Snapshot(meta@).fits()
                    && meta.index >= log@.held()->Ok_0.base() && (
                !log@.held()->Ok_0.conflicts_with(meta@) || log@.last_index <= meta.index) ==> {
                    let (f, g) = (log@.held()->Ok_0, final(log)@.held()->Ok_0);
                    &&& final(log)@.held() is Ok
                    &&& g.snapshot == Some(meta@)
                    &&& g.entries == f.entries.filter(|e: EntryView| e.index > meta.index)
                    &&& g.hard_state == f.hard_state
                    &&& final(log)@.sound() && final(log)@.in_step()
                }
            },
{
    assert forall|log: &mut Log| #[trigger]
        call_ensures(Log::install_snapshot, (log, meta), Ok::<SyncToken, Error>(token)) && (
        log@.snapshot is None || log@.snapshot->0.index < meta.index) && log@.sound()
            && log@.in_step() && takes_headers(log@.opts.max_record_bytes) && log@.last_index
            < u64::MAX && RecordView::Snapshot(meta@).fits() && meta.index
            >= log@.held()->Ok_0.base() && (!log@.held()->Ok_0.conflicts_with(meta@)
            || log@.last_index <= meta.index) implies {
        let (f, g) = (log@.held()->Ok_0, final(log)@.held()->Ok_0);
        &&& final(log)@.held() is Ok
        &&& g.snapshot == Some(meta@)
        &&& g.entries == f.entries.filter(|e: EntryView| e.index > meta.index)
        &&& g.hard_state == f.hard_state
        &&& final(log)@.sound() && final(log)@.in_step()
    } by {
        law_a_snapshot_moves_the_floor(log@, meta@);
    }
}

/// A compaction drops old segments and nothing that they are needed for: the same
/// entries, the same snapshot and the log's hard state are held afterwards, and as
/// many segments are gone as it says.
pub proof fn law_a_compacted_log_holds_the_same(index: Index, removed: u32)
    ensures
        forall|log: &mut Log| #[trigger]
            call_ensures(Log::compact_to, (log, index), Ok::<u32, Error>(removed)) && log@.sound()
                && log@.in_step() && takes_headers(log@.opts.max_record_bytes) && log@.last_index
                < u64::MAX && log@.snapshot is Some && index <= log@.snapshot->0.index
                && RecordView::Snapshot(log@.snapshot->0).fits() ==> {
                let (f, g) = (log@.held()->Ok_0, final(log)@.held()->Ok_0);
                &&& final(log)@.held() is Ok
                &&& g.entries == f.entries
                &&& g.snapshot == f.snapshot
                &&& g.hard_state == log@.hard_state
                &&& final(log)@.sound() && final(log)@.in_step()
            },
{
    assert forall|log: &mut Log| #[trigger]
        call_ensures(Log::compact_to, (log, index), Ok::<u32, Error>(removed)) && log@.sound()
            && log@.in_step() && takes_headers(log@.opts.max_record_bytes) && log@.last_index
            < u64::MAX && log@.snapshot is Some && index <= log@.snapshot->0.index
            && RecordView::Snapshot(log@.snapshot->0).fits() implies {
        let (f, g) = (log@.held()->Ok_0, final(log)@.held()->Ok_0);
        &&& final(log)@.held() is Ok
        &&& g.entries == f.entries
        &&& g.snapshot == f.snapshot
        &&& g.hard_state == log@.hard_state
        &&& final(log)@.sound() && final(log)@.in_step()
    } by {
        law_compaction_loses_nothing(log@, index);
    }
}

/// A log that has no snapshot at or above an index drops nothing.
pub proof fn law_nothing_is_dropped_without_a_snapshot(index: Index, r: Result<u32, Error>)
    ensures
        forall|log: &mut Log| #[trigger]
            call_ensures(Log::compact_to, (log, index), r) && (log@.snapshot is None
                || log@.snapshot->0.index < index) ==> {
                &&& r == Ok::<u32, Error>(0)
                &&& final(log)@ == log@
            },
{
}

/// How many segments a compaction drops: each of them is followed by one that
/// starts at or below the index after the snapshot's, so everything it holds is
/// covered; and the next one is not.
pub proof fn law_only_covered_segments_are_dropped(
    segments: Seq<SegmentView>,
    covers: Index,
)
    requires
        segments.len() > 0,
    ensures
        ({
            let n = LogView::covered_segments(segments, covers) as int;
            &&& n < segments.len()
            &&& forall|i: int| 0 < i <= n ==> (#[trigger] segments[i]).base_index <= covers + 1
            &&& n + 1 < segments.len() ==> segments[n + 1].base_index > covers + 1
        }),
    decreases segments.len(),
{
    if segments.len() > 1 && segments[1].base_index <= covers + 1 {
        let rest = segments.skip(1);
        law_only_covered_segments_are_dropped(rest, covers);
        let n = LogView::covered_segments(segments, covers) as int;
        assert forall|i: int| 0 < i <= n implies (#[trigger] segments[i]).base_index <= covers
            + 1 by {
            if i > 1 {
                assert(rest[i - 1] == segments[i]);
            }
        }
        if n + 1 < segments.len() {
            assert(rest[n] == segments[n + 1]);
        }
    }
}

/// A log counts what it does: the bytes and the writes of every record, and one write
/// more for each record, which is what its caller waits to see made durable. A record
/// that is no larger than a record may be is taken as long as segments can be
/// numbered, and one that is larger is refused.
pub proof fn law_a_record_is_counted(hs: HardState, r: Result<SyncToken, Error>)
    ensures
        forall|log: &mut Log| #[trigger]
            call_ensures(Log::set_hard_state, (log, hs), r) && log@.segments.len() > 0 ==> {
                let len = RecordView::HardState(hs).frame().len();
                &&& r is Ok ==> len <= log@.opts.max_record_bytes
                &&& len <= log@.opts.max_record_bytes && log@.segments.last().seq < u64::MAX
                    ==> r is Ok
                &&& r is Ok && log@.bytes_written + len <= u64::MAX ==> final(log)@.bytes_written
                    == log@.bytes_written + len
                &&& r is Ok && log@.next_token < u64::MAX ==> {
                    &&& final(log)@.next_token == log@.next_token + 1
                    &&& r->Ok_0@ == log@.next_token + 1
                }
                &&& r is Ok ==> final(log)@.appends == log@.appends
            },
{
}

/// A sync is counted where there was something to sync, and an append where something
/// was appended.
pub proof fn law_syncs_and_appends_are_counted(
    entries: &[Entry],
    r: Result<SyncToken, Error>,
    token: SyncToken,
)
    ensures
        forall|log: &mut Log| #[trigger]
            call_ensures(Log::sync, (log,), token) && log@.syncs < u64::MAX ==> final(log)@.syncs
                == log@.syncs + (if log@.dirty {
                1int
            } else {
                0
            }),
        forall|log: &mut Log| #[trigger]
            call_ensures(Log::append, (log, entries), r) && r is Ok && log@.appends < u64::MAX
                ==> final(log)@.appends == log@.appends + (if entries@.len() > 0 {
                1int
            } else {
                0
            }),
{
}

} // verus!
