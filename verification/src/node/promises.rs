//! What a node's loop promises, call by call.
//!
//! Each of these speaks of a call and of what went in and came out of it.

use vstd::prelude::*;

use crate::api::{
    decoded, law_round_trip, Peer, PeerView, Proposal, ProposalBodyView, ProposalView, Response,
    MAX_PAYLOAD_BYTES,
};
use crate::log::durability::{
    gapless, law_a_hard_state_is_held, law_a_sync_keeps_what_is_held,
    law_a_truncation_drops_a_suffix, law_appended_entries_are_held, lemma_performed_in_turn,
    takes_headers,
};
use crate::log::fs::{all_performed, EffectView};
use crate::log::journal::{batches, LogView};
use crate::log::record::RecordView;
use crate::net::{Received, ReceivedView};
use crate::node::looping::{
    answers_to, disk_steps, input_views, made_room, maybe_hard_state, persisted, proposal_views,
    proposals, received_views, send_steps, step_views, Advance, Answer, Input, InputView, Node,
    NodeError, NodeView, Ready, SnapshotEventView, Step, StepView, Turn,
};
use crate::node::snapshots::checkpoint_is_due;
use crate::raft::{
    ConfState, Entry, EntryPayloadView, EntryView, HardState, Index, NodeId, SnapshotMeta, Term,
};
use crate::wire::{models, Wire};

verus! {

// ------------------------------------------------------------------ answers

/// How many of the first entries a client proposed.
pub open spec fn proposed_before(entries: Seq<Entry>, n: int) -> nat
    decreases n,
{
    if n <= 0 {
        0
    } else {
        proposed_before(entries, n - 1) + (if entries[n - 1].payload is Normal {
            1nat
        } else {
            0
        })
    }
}

/// The answers so far are those of the entries so far.
proof fn lemma_answers_so_far(
    entries: Seq<Entry>,
    asked: Seq<(Index, Proposal)>,
    responses: Seq<Response>,
    n: int,
)
    requires
        0 <= n <= entries.len(),
        entries.len() == asked.len() == responses.len(),
    ensures
        ({
            let all = answers_to(
                models(entries).take(n),
                proposal_views(asked).take(n),
                models(responses).take(n),
            );
            &&& all.len() == proposed_before(entries, n)
            &&& forall|i: int|
                0 <= i < n && (#[trigger] entries[i]).payload is Normal ==> {
                    let k = proposed_before(entries, i) as int;
                    &&& k < all.len()
                    &&& all[k].index == entries[i].index
                    &&& all[k].session == asked[i].1.session
                    &&& all[k].registration == (match asked[i].1@.body {
                        ProposalBodyView::Register { nonce } => Some(nonce),
                        _ => None,
                    })
                    &&& all[k].response == responses[i]@
                }
        }),
    decreases n,
{
    let (es, ps, rs) = (models(entries), proposal_views(asked), models(responses));
    if n > 0 {
        lemma_answers_so_far(entries, asked, responses, n - 1);
        assert(es.take(n).drop_last() =~= es.take(n - 1));
        assert(ps.take(n).drop_last() =~= ps.take(n - 1));
        assert(rs.take(n).drop_last() =~= rs.take(n - 1));
        assert(es.take(n).last() == entries[n - 1]@);
        assert(ps.take(n).last() == (asked[n - 1].0, asked[n - 1].1@));
        assert(rs.take(n).last() == responses[n - 1]@);
    }
}

/// Every entry that a client proposed has one new answer, in order, and no other
/// entry has any: it bears the entry's index, the session pair and the nonce of the
/// proposal, and the response to it. What was there to be taken before still is.
pub proof fn law_every_proposal_gets_its_own_answer(
    entries: &[Entry],
    asked: &[(Index, Proposal)],
    responses: Vec<Response>,
    r: Option<Index>,
)
    requires
        entries@.len() == asked@.len() == responses@.len(),
    ensures
        forall|node: &mut Node, turn: &mut Turn| #[trigger]
            call_ensures(Node::apply, (node, entries, asked, responses, turn), r) ==> {
                let (before, after) = (node@.answers, final(node)@.answers);
                &&& after.len() == before.len() + proposed_before(entries@, entries@.len() as int)
                &&& after.take(before.len() as int) == before
                &&& forall|i: int|
                    0 <= i < entries@.len() && (#[trigger] entries@[i]).payload is Normal ==> {
                        let a = after[(before.len() + proposed_before(entries@, i)) as int];
                        &&& a.index == entries@[i].index
                        &&& a.session == asked@[i].1.session
                        &&& a.registration == (match asked@[i].1@.body {
                            ProposalBodyView::Register { nonce } => Some(nonce),
                            _ => None,
                        })
                        &&& a.response == responses@[i]@
                    }
                &&& final(node)@.log == node@.log
                &&& final(node)@.inputs == node@.inputs
                &&& final(node)@.refusals == node@.refusals
                &&& final(node)@.reads == node@.reads
                &&& r == (if entries@.len() > 0 {
                    Some(entries@.last().index)
                } else {
                    None
                })
                &&& turn.entries_applied + entries@.len() <= u64::MAX
                    ==> final(turn).entries_applied == turn.entries_applied + entries@.len()
            },
{
    let n = entries@.len() as int;
    lemma_answers_so_far(entries@, asked@, responses@, n);
    assert(models(entries@).take(n) =~= models(entries@));
    assert(proposal_views(asked@).take(n) =~= proposal_views(asked@));
    assert(models(responses@).take(n) =~= models(responses@));
    assert forall|node: &mut Node, turn: &mut Turn| #[trigger]
        call_ensures(Node::apply, (node, entries, asked, responses, turn), r)
        implies final(node)@.answers.take(node@.answers.len() as int) == node@.answers by {
        assert(final(node)@.answers.take(node@.answers.len() as int) =~= node@.answers);
    }
}

/// An answer that is taken is the answer that was kept, field by field, and none is
/// handed out twice.
pub proof fn law_answers_are_handed_out_once(r: Vec<Answer>)
    ensures
        forall|node: &mut Node| #[trigger]
            call_ensures(Node::take_answers, (node,), r) ==> {
                &&& r@.len() == node@.answers.len()
                &&& forall|i: int|
                    0 <= i < r@.len() ==> {
                        &&& (#[trigger] r@[i]).index == node@.answers[i].index
                        &&& r@[i].session == node@.answers[i].session
                        &&& r@[i].registration == node@.answers[i].registration
                        &&& r@[i].response@ == node@.answers[i].response
                    }
                &&& final(node)@.answers.len() == 0
                &&& final(node)@.inputs == node@.inputs
                &&& final(node)@.log == node@.log
            },
{
    assert forall|node: &mut Node| #[trigger]
        call_ensures(Node::take_answers, (node,), r) implies forall|i: int|
        0 <= i < r@.len() ==> {
            &&& (#[trigger] r@[i]).index == node@.answers[i].index
            &&& r@[i].session == node@.answers[i].session
            &&& r@[i].registration == node@.answers[i].registration
            &&& r@[i].response@ == node@.answers[i].response
        } by {
        assert forall|i: int| 0 <= i < r@.len() implies node@.answers[i] == (#[trigger] r@[i])@ by {
        }
    }
}

/// What a client proposed is what is applied: an entry that holds the encoding of a
/// proposal is read as that proposal, under the entry's index. Entries that no
/// client proposed change nothing.
pub proof fn law_a_committed_proposal_is_read_back(
    entries: &[Entry],
    asked: Vec<(Index, Proposal)>,
    i: int,
    proposal: ProposalView,
)
    requires
        call_ensures(proposals, (entries,), Ok::<Vec<(Index, Proposal)>, NodeError>(asked)),
        0 <= i < entries@.len(),
    ensures
        asked@.len() == entries@.len(),
        asked@[i].0 == entries@[i].index,
        entries@[i]@.payload == EntryPayloadView::Normal(Proposal::encoding(proposal))
            && Proposal::fits(proposal) && Proposal::encoding(proposal).len() <= MAX_PAYLOAD_BYTES
            ==> asked@[i].1@ == proposal,
        !(entries@[i].payload is Normal) ==> asked@[i].1@.session is None && asked@[i].1@.body
            == ProposalBodyView::KeepAlive,
{
    if Proposal::fits(proposal) {
        law_round_trip::<Proposal>(proposal);
    }
    assert(asked@[i].0 == entries@[i].index);
}

// ------------------------------------------------------------------ a Ready

/// What a `Ready` asks to be made durable is what the disk then holds: its entries
/// in place of whatever was at or above the first of them, and its hard state,
/// whether or not it has entries. What it does not speak of stays.
pub proof fn law_a_ready_is_held(log: LogView, entries: Seq<EntryView>, hs: Option<HardState>)
    requires
        log.sound(),
        log.in_step(),
        takes_headers(log.opts.max_record_bytes),
        log.last_index < u64::MAX,
        persisted(log, entries, hs).1 is None,
        entries.len() > 0 ==> {
            let first = entries[0].index;
            &&& log.held()->Ok_0.base() < first
            &&& gapless(entries, (first - 1) as u64)
            &&& entries.last().index < u64::MAX
        },
        forall|i: int|
            0 <= i < batches(entries, log.opts.max_record_bytes)->Ok_0.len()
                ==> RecordView::Entries(
                #[trigger] batches(entries, log.opts.max_record_bytes)->Ok_0[i],
            ).fits(),
    ensures
        ({
            let after = persisted(log, entries, hs).0;
            let (f, g) = (log.held()->Ok_0, after.held()->Ok_0);
            &&& after.sound()
            &&& after.in_step()
            &&& !after.dirty
            &&& after.held() is Ok
            &&& g.snapshot == f.snapshot
            &&& g.entries == (if entries.len() == 0 {
                f.entries
            } else if entries[0].index <= log.last_index {
                f.entries.take(entries[0].index - f.base() - 1) + entries
            } else {
                f.entries + entries
            })
            &&& match hs {
                Some(hs) => g.hard_state == hs && after.hard_state == hs,
                None => g.hard_state == f.hard_state && after.hard_state == log.hard_state,
            }
        }),
{
    let f = log.held()->Ok_0;
    let room = made_room(log, entries)->Ok_0;
    if entries.len() > 0 && entries[0].index <= log.last_index {
        law_a_truncation_drops_a_suffix(log, entries[0].index);
    }
    assert(room.opts == log.opts);
    assert(room.hard_state == log.hard_state);
    let appended = room.appended(entries).0;
    if entries.len() > 0 {
        assert(room.last_index == entries[0].index - 1);
        law_appended_entries_are_held(room, entries);
        lemma_append_leaves_the_hard_state(room, entries);
        assert(appended.last_index == entries.last().index);
    }
    let set = maybe_hard_state(appended, hs)->Ok_0;
    if hs is Some {
        law_a_hard_state_is_held(appended, hs->0);
    }
    law_a_sync_keeps_what_is_held(set);
}

/// Appending leaves the hard state and the options as they were, and ends the log
/// at the last entry.
proof fn lemma_append_leaves_the_hard_state(log: LogView, entries: Seq<EntryView>)
    requires
        log.appended(entries).1 is None,
    ensures
        log.appended(entries).0.hard_state == log.hard_state,
        log.appended(entries).0.opts == log.opts,
{
    if entries.len() > 0 {
        lemma_batches_leave_the_hard_state(
            log,
            batches(entries, log.opts.max_record_bytes)->Ok_0,
        );
    }
}

proof fn lemma_batches_leave_the_hard_state(log: LogView, records: Seq<Seq<EntryView>>)
    ensures
        log.staged_batches(records).0.hard_state == log.hard_state,
        log.staged_batches(records).0.opts == log.opts,
    decreases records.len(),
{
    if records.len() > 0 {
        match log.staged(RecordView::Entries(records[0])) {
            Ok(next) => {
                lemma_batches_leave_the_hard_state(
                    LogView { last_index: records[0].last().index, ..next },
                    records.skip(1),
                );
            },
            Err(_) => {},
        }
    }
}

/// A `Ready` that was not refused sets the hard state it carries, on any log, and
/// leaves it where it carries none.
pub proof fn law_a_ready_sets_its_hard_state(
    log: LogView,
    entries: Seq<EntryView>,
    hs: Option<HardState>,
)
    requires
        persisted(log, entries, hs).1 is None,
    ensures
        hs is Some ==> persisted(log, entries, hs).0.hard_state == hs->0,
        hs is None ==> persisted(log, entries, hs).0.hard_state == log.hard_state,
        !persisted(log, entries, hs).0.dirty,
{
    let room = made_room(log, entries)->Ok_0;
    assert(room.hard_state == log.hard_state);
    lemma_append_leaves_the_hard_state(room, entries);
}

/// Whether a log is another one after it asked for more, and its disk is what that
/// makes of the other's.
spec fn grew(before: LogView, after: LogView) -> bool {
    let n = before.effects.len() as int;
    &&& n <= after.effects.len()
    &&& after.effects.take(n) == before.effects
    &&& after.disk == all_performed(before.disk, after.effects.skip(n))
}

proof fn lemma_grew_not(log: LogView, same: LogView)
    requires
        same.effects == log.effects,
        same.disk == log.disk,
    ensures
        grew(log, same),
{
    let n = log.effects.len() as int;
    assert(log.effects.take(n) =~= log.effects);
    assert(log.effects.skip(n) =~= Seq::empty());
}

proof fn lemma_grew_by(log: LogView, effects: Seq<EffectView>)
    ensures
        grew(log, log.emitting(effects)),
{
    let n = log.effects.len() as int;
    let all = log.effects + effects;
    assert(all.take(n) =~= log.effects);
    assert(all.skip(n) =~= effects);
}

proof fn lemma_grew_in_turn(a: LogView, b: LogView, c: LogView)
    requires
        grew(a, b),
        grew(b, c),
    ensures
        grew(a, c),
{
    let (n, m) = (a.effects.len() as int, b.effects.len() as int);
    assert(c.effects.take(n) =~= c.effects.take(m).take(n));
    assert(c.effects.skip(n) =~= b.effects.skip(n) + c.effects.skip(m)) by {
        assert(c.effects.take(m) == b.effects);
        assert forall|i: int| 0 <= i < c.effects.len() - n implies c.effects.skip(n)[i] == (
        b.effects.skip(n) + c.effects.skip(m))[i] by {
            if i < m - n {
                assert(c.effects.take(m)[n + i] == b.effects[n + i]);
            }
        }
    }
    lemma_performed_in_turn(a.disk, b.effects.skip(n), c.effects.skip(m));
}

proof fn lemma_staging_grows(log: LogView, record: RecordView)
    requires
        log.staged(record) is Ok,
    ensures
        grew(log, log.staged(record)->Ok_0),
{
    let next = log.staged(record)->Ok_0;
    let from = if log.has_room(record) {
        log
    } else {
        log.rolled()->Ok_0
    };
    if log.has_room(record) {
        lemma_grew_not(log, log);
    } else {
        let sync = seq![EffectView::Sync { name: log.current().name }];
        let covered = if log.dirty {
            log.emitting(sync)
        } else {
            log
        };
        if log.dirty {
            lemma_grew_by(log, sync);
        } else {
            lemma_grew_not(log, log);
        }
        let seq = (log.current().seq + 1) as u64;
        let created = crate::log::journal::create_effects(
            log.opts,
            seq,
            crate::log::fold::successor(log.last_index),
        );
        lemma_grew_by(covered, created);
        lemma_grew_not(covered.emitting(created), from);
        lemma_grew_in_turn(covered, covered.emitting(created), from);
        lemma_grew_in_turn(log, covered, from);
    }
    let write = seq![
        EffectView::Write {
            name: from.current().name,
            offset: from.cursor,
            bytes: record.frame(),
        },
    ];
    lemma_grew_by(from, write);
    lemma_grew_not(from.emitting(write), next);
    lemma_grew_in_turn(from, from.emitting(write), next);
    lemma_grew_in_turn(log, from, next);
}

proof fn lemma_batches_grow(log: LogView, records: Seq<Seq<EntryView>>)
    ensures
        grew(log, log.staged_batches(records).0),
    decreases records.len(),
{
    if records.len() == 0 {
        lemma_grew_not(log, log);
    } else {
        match log.staged(RecordView::Entries(records[0])) {
            Ok(next) => {
                let moved = LogView { last_index: records[0].last().index, ..next };
                lemma_staging_grows(log, RecordView::Entries(records[0]));
                lemma_grew_not(next, moved);
                lemma_grew_in_turn(log, next, moved);
                lemma_batches_grow(moved, records.skip(1));
                lemma_grew_in_turn(log, moved, log.staged_batches(records).0);
            },
            Err(_) => {
                lemma_grew_not(log, log);
            },
        }
    }
}

/// What a `Ready` asks of the directory is all that it does to it.
proof fn lemma_persisting_grows(log: LogView, entries: Seq<EntryView>, hs: Option<HardState>)
    requires
        persisted(log, entries, hs).1 is None,
    ensures
        grew(log, persisted(log, entries, hs).0),
{
    let room = made_room(log, entries)->Ok_0;
    lemma_grew_not(log, log);
    if entries.len() > 0 && entries[0].index <= log.last_index {
        let record = RecordView::Truncate { from: entries[0].index };
        lemma_staging_grows(log, record);
        lemma_grew_not(log.staged(record)->Ok_0, room);
        lemma_grew_in_turn(log, log.staged(record)->Ok_0, room);
    }
    let appended = room.appended(entries).0;
    if entries.len() > 0 {
        let records = batches(entries, room.opts.max_record_bytes)->Ok_0;
        lemma_batches_grow(room, records);
        lemma_grew_not(room.staged_batches(records).0, appended);
        lemma_grew_in_turn(room, room.staged_batches(records).0, appended);
    } else {
        lemma_grew_not(room, appended);
    }
    lemma_grew_in_turn(log, room, appended);
    let set = maybe_hard_state(appended, hs)->Ok_0;
    if hs is Some {
        let record = RecordView::HardState(hs->0);
        lemma_staging_grows(appended, record);
        lemma_grew_not(appended.staged(record)->Ok_0, set);
        lemma_grew_in_turn(appended, appended.staged(record)->Ok_0, set);
    } else {
        lemma_grew_not(appended, set);
    }
    lemma_grew_in_turn(log, appended, set);
    let sync = seq![EffectView::Sync { name: set.current().name }];
    if set.dirty {
        lemma_grew_by(set, sync);
        lemma_grew_not(set.emitting(sync), set.synced());
        lemma_grew_in_turn(set, set.emitting(sync), set.synced());
    } else {
        lemma_grew_not(set, set.synced());
    }
    lemma_grew_in_turn(log, set, set.synced());
}

/// The first of some steps, as effects on a directory.
pub open spec fn effects_of(steps: Seq<Step>, n: int) -> Seq<EffectView> {
    Seq::new(n as nat, |i: int| steps[i]->Disk_0@)
}

/// A node that takes a `Ready` in asks for everything that makes it durable first,
/// and hands over messages only after that. What it asks for makes the directory
/// the one its log then stands on; the log then has the hard state of the `Ready`,
/// and nothing that is not covered by a sync. Each message goes, encoded, to whom
/// it is for, in order.
pub proof fn law_a_ready_is_persisted_and_then_sent(ready: &Ready, steps: Vec<Step>)
    ensures
        forall|node: &mut Node, turn: &mut Turn|
            #[trigger] call_ensures(
                Node::pump,
                (node, ready, turn),
                Ok::<Vec<Step>, NodeError>(steps),
            ) && node@.log.effects.len() == 0 ==> {
                let (before, after) = (node@.log, final(node)@.log);
                &&& exists|n: int|
                    {
                        &&& 0 <= n <= steps@.len()
                        &&& forall|i: int| 0 <= i < n ==> (#[trigger] steps@[i]) is Disk
                        &&& forall|i: int| n <= i < steps@.len() ==> !((#[trigger] steps@[i]) is Disk)
                        &&& after.disk == all_performed(before.disk, #[trigger] effects_of(steps@, n))
                        &&& (forall|i: int|
                            0 <= i < ready.messages@.len() ==> Peer::encoding(
                                PeerView::Raft((#[trigger] ready.messages@[i])@),
                            ).len() <= MAX_PAYLOAD_BYTES) ==> {
                            &&& steps@.len() == n + ready.messages@.len()
                            &&& forall|i: int|
                                0 <= i < ready.messages@.len() ==> {
                                    &&& (#[trigger] steps@[n + i]) is Send
                                    &&& steps@[n + i]->to == ready.messages@[i].to
                                    &&& steps@[n + i]->frame@ == Peer::encoding(
                                        PeerView::Raft(ready.messages@[i]@),
                                    )
                                }
                        }
                    }
                &&& after.effects.len() == 0
                &&& !after.dirty
                &&& after.hard_state == (match ready.hard_state {
                    Some(hs) => hs,
                    None => before.hard_state,
                })
                &&& final(node)@.answers == node@.answers
                &&& final(node)@.inputs == node@.inputs
            },
{
    assert forall|node: &mut Node, turn: &mut Turn|
        #[trigger] call_ensures(
            Node::pump,
            (node, ready, turn),
            Ok::<Vec<Step>, NodeError>(steps),
        ) && node@.log.effects.len() == 0 implies {
        let (before, after) = (node@.log, final(node)@.log);
        &&& exists|n: int|
            {
                &&& 0 <= n <= steps@.len()
                &&& forall|i: int| 0 <= i < n ==> (#[trigger] steps@[i]) is Disk
                &&& forall|i: int| n <= i < steps@.len() ==> !((#[trigger] steps@[i]) is Disk)
                &&& after.disk == all_performed(before.disk, #[trigger] effects_of(steps@, n))
                &&& (forall|i: int|
                    0 <= i < ready.messages@.len() ==> Peer::encoding(
                        PeerView::Raft((#[trigger] ready.messages@[i])@),
                    ).len() <= MAX_PAYLOAD_BYTES) ==> {
                    &&& steps@.len() == n + ready.messages@.len()
                    &&& forall|i: int|
                        0 <= i < ready.messages@.len() ==> {
                            &&& (#[trigger] steps@[n + i]) is Send
                            &&& steps@[n + i]->to == ready.messages@[i].to
                            &&& steps@[n + i]->frame@ == Peer::encoding(
                                PeerView::Raft(ready.messages@[i]@),
                            )
                        }
                }
            }
        &&& after.effects.len() == 0
        &&& !after.dirty
        &&& after.hard_state == (match ready.hard_state {
            Some(hs) => hs,
            None => before.hard_state,
        })
        &&& final(node)@.answers == node@.answers
        &&& final(node)@.inputs == node@.inputs
    } by {
        let before = node@.log;
        let entries = models(ready.entries@);
        let log = persisted(before, entries, ready.hard_state).0;
        let messages = models(ready.messages@);
        law_a_ready_sets_its_hard_state(before, entries, ready.hard_state);
        lemma_persisting_grows(before, entries, ready.hard_state);
        let n = log.effects.len() as int;
        let sends = send_steps(messages);
        let views = step_views(steps@);
        assert(log.effects.skip(0) =~= log.effects);
        assert(views == disk_steps(log.effects) + sends);
        assert(views.len() == steps@.len());
        assert(forall|i: int| 0 <= i < steps@.len() ==> #[trigger] views[i] == steps@[i]@);
        lemma_sends_are_no_effects(messages);
        assert forall|i: int| 0 <= i < n implies (#[trigger] steps@[i]) is Disk
            && steps@[i]->Disk_0@ == log.effects[i] by {
            assert(views[i] == StepView::Disk(log.effects[i]));
        }
        assert forall|i: int| n <= i < steps@.len() implies !((#[trigger] steps@[i]) is Disk) by {
            assert(views[i] == sends[i - n]);
        }
        assert(effects_of(steps@, n) =~= log.effects);
        if forall|i: int|
            0 <= i < ready.messages@.len() ==> Peer::encoding(
                PeerView::Raft((#[trigger] ready.messages@[i])@),
            ).len() <= MAX_PAYLOAD_BYTES {
            lemma_sends_of_all(ready);
            assert forall|i: int| 0 <= i < ready.messages@.len() implies {
                &&& (#[trigger] steps@[n + i]) is Send
                &&& steps@[n + i]->to == ready.messages@[i].to
                &&& steps@[n + i]->frame@ == Peer::encoding(
                    PeerView::Raft(ready.messages@[i]@),
                )
            } by {
                assert(views[n + i] == sends[i]);
            }
        }
    }
}

proof fn lemma_sends_are_no_effects(messages: Seq<crate::raft::MessageView>)
    ensures
        forall|i: int|
            0 <= i < send_steps(messages).len() ==> !((#[trigger] send_steps(messages)[i]) is Disk),
    decreases messages.len(),
{
    if messages.len() > 0 {
        lemma_sends_are_no_effects(messages.drop_last());
    }
}

/// Where every message fits in a frame, each of them is handed over.
proof fn lemma_sends_of_all(ready: &Ready)
    requires
        forall|i: int|
            0 <= i < ready.messages@.len() ==> Peer::encoding(
                PeerView::Raft((#[trigger] ready.messages@[i])@),
            ).len() <= MAX_PAYLOAD_BYTES,
    ensures
        ({
            let sends = send_steps(models(ready.messages@));
            &&& sends.len() == ready.messages@.len()
            &&& forall|i: int|
                0 <= i < sends.len() ==> #[trigger] sends[i] == (StepView::Send {
                    to: ready.messages@[i].to,
                    frame: Peer::encoding(PeerView::Raft(ready.messages@[i]@)),
                })
        }),
{
    reveal(crate::node::looping::raft_frame);
    let messages = models(ready.messages@);
    assert forall|i: int| 0 <= i < messages.len() implies crate::node::looping::raft_frame(
        #[trigger] messages[i],
    ).len() <= MAX_PAYLOAD_BYTES by {
        assert(messages[i] == ready.messages@[i]@);
    }
    crate::node::looping::law_messages_go_out_up_to_one_that_cannot(messages);
    assert forall|i: int| 0 <= i < messages.len() implies #[trigger] send_steps(messages)[i] == (
    StepView::Send {
        to: ready.messages@[i].to,
        frame: Peer::encoding(PeerView::Raft(ready.messages@[i]@)),
    }) by {
        assert(messages[i] == ready.messages@[i]@);
    }
}

// ---------------------------------------------------------------- receiving

/// A message that a peer encoded is what the core is stepped with, or what the
/// host's transfers are told, as it was sent and under who sent it. Nothing else of
/// the node changes, and a frame that is none changes nothing at all.
pub proof fn law_a_frame_is_taken_for_what_it_says(node: NodeView, from: NodeId, peer: PeerView)
    requires
        Peer::fits(peer),
        Peer::encoding(peer).len() <= MAX_PAYLOAD_BYTES,
    ensures
        ({
            let frame = Peer::encoding(peer);
            let after = node.receiving_all(seq![ReceivedView { from, frame }]);
            let told = |event: SnapshotEventView| {
                &&& after.inputs == node.inputs
                &&& after.snapshot_events == node.snapshot_events.push(event)
            };
            &&& match peer {
                PeerView::Raft(message) => {
                    &&& after.inputs == node.inputs.push(InputView::Message(message))
                    &&& after.snapshot_events == node.snapshot_events
                },
                PeerView::SnapshotRequest { index, term, position } => told(
                    SnapshotEventView::Request { from, index, term, position },
                ),
                PeerView::SnapshotFile { index, term, file, offset, crc, last, data } => told(
                    SnapshotEventView::Chunk { from, index, term, file, offset, crc, last, data },
                ),
                PeerView::SnapshotChunk { index, term, offset, last, data } => told(
                    SnapshotEventView::Stream { from, index, term, offset, last, data },
                ),
                PeerView::SnapshotComplete { index, term, digest } => told(
                    SnapshotEventView::Complete { from, index, term, digest },
                ),
                PeerView::SnapshotStatus { index, term, ok } => told(
                    SnapshotEventView::Status { from, index, term, ok },
                ),
            }
            &&& after.log == node.log && after.queue == node.queue
            &&& after.answers == node.answers && after.refusals == node.refusals
            &&& after.reads == node.reads && after.next_ctx == node.next_ctx
        }),
{
    law_round_trip::<Peer>(peer);
    let one = seq![ReceivedView { from, frame: Peer::encoding(peer) }];
    assert(one.drop_last() =~= Seq::empty());
    assert(node.receiving_all(one.drop_last()) == node);
    assert(one.last() == one[0]);
}

/// A frame that no peer would have written is dropped, and nothing else happens.
pub proof fn law_a_frame_that_says_nothing_is_dropped(node: NodeView, received: ReceivedView)
    requires
        decoded::<Peer>(received.frame) is None,
    ensures
        node.receiving_all(seq![received]) == node,
{
    let one = seq![received];
    assert(one.drop_last() =~= Seq::empty());
    assert(node.receiving_all(one.drop_last()) == node);
    assert(one.last() == received);
}

/// Frames are taken in the order in which they came: some, and then the others.
pub proof fn law_frames_are_taken_in_order(
    node: NodeView,
    a: Seq<ReceivedView>,
    b: Seq<ReceivedView>,
)
    ensures
        node.receiving_all(a + b) == node.receiving_all(a).receiving_all(b),
    decreases b.len(),
{
    if b.len() == 0 {
        assert(a + b =~= a);
    } else {
        assert((a + b).drop_last() =~= a + b.drop_last());
        assert((a + b).last() == b.last());
        law_frames_are_taken_in_order(node, a, b.drop_last());
    }
}

/// What is received is what arrived, all of it.
pub proof fn law_receiving_takes_every_frame(frames: Vec<Received>)
    ensures
        forall|node: &mut Node, turn: &mut Turn| #[trigger]
            call_ensures(Node::receive, (node, frames, turn), ()) ==> {
                &&& final(node)@ == node@.receiving_all(
                    Seq::new(
                        frames@.len(),
                        |i: int|
                            ReceivedView { from: frames@[i].from, frame: frames@[i].frame@ },
                    ),
                )
                &&& turn.messages_received + frames@.len() <= u64::MAX ==> final(
                    turn).messages_received == turn.messages_received + frames@.len()
            },
{
    assert(received_views(frames@) =~= Seq::new(
        frames@.len(),
        |i: int| ReceivedView { from: frames@[i].from, frame: frames@[i].frame@ },
    ));
}

/// What is taken for the core is what was stepped, in order, and once.
pub proof fn law_inputs_are_handed_out_once(r: Vec<Input>)
    ensures
        forall|node: &mut Node| #[trigger]
            call_ensures(Node::take_inputs, (node,), r) ==> {
                &&& r@.len() == node@.inputs.len()
                &&& forall|i: int| 0 <= i < r@.len() ==> (#[trigger] r@[i])@ == node@.inputs[i]
                &&& final(node)@.inputs.len() == 0
                &&& final(node)@.log == node@.log
                &&& final(node)@.queue == node@.queue
            },
{
    assert forall|node: &mut Node| #[trigger]
        call_ensures(Node::take_inputs, (node,), r) implies forall|i: int|
        0 <= i < r@.len() ==> (#[trigger] r@[i])@ == node@.inputs[i] by {
        assert(input_views(r@) == node@.inputs);
    }
}

// ---------------------------------------------------------------- proposing

/// A proposal that was accepted is stepped into the core when the queue is drained:
/// once, under the context that its client was given, and as it encodes. Proposals
/// keep their order, and those that were queued before it are not lost.
pub proof fn law_a_proposal_reaches_the_core(proposal: Proposal, ctx: u64)
    requires
        Proposal::encoding(proposal@).len() <= MAX_PAYLOAD_BYTES,
    ensures
        forall|node: &mut Node, then: &mut Node|
            #[trigger] call_ensures(Node::propose, (node, proposal), ctx)
                && #[trigger] call_ensures(Node::drain_queue, (then,), ()) && *then == *final(node)
                && (forall|i: int|
                0 <= i < node@.queue.len() ==> Proposal::encoding(
                    (#[trigger] node@.queue[i]).1,
                ).len() <= MAX_PAYLOAD_BYTES) ==> {
                let n = node@.queue.len() as int;
                let (before, after) = (node@.inputs, final(then)@.inputs);
                &&& ctx == node@.next_ctx
                &&& node@.next_ctx < u64::MAX ==> final(then)@.next_ctx > ctx
                &&& after.len() == before.len() + n + 1
                &&& after.take(before.len() as int) == before
                &&& forall|i: int|
                    0 <= i < n ==> #[trigger] after[before.len() + i] == (InputView::Propose {
                        ctx: node@.queue[i].0,
                        data: Proposal::encoding(node@.queue[i].1),
                    })
                &&& after.last() == (InputView::Propose {
                    ctx,
                    data: Proposal::encoding(proposal@),
                })
                &&& final(then)@.queue.len() == 0
                &&& final(then)@.refusals == node@.refusals
                &&& final(then)@.log == node@.log
            },
{
    assert forall|node: &mut Node, then: &mut Node|
        #[trigger] call_ensures(Node::propose, (node, proposal), ctx)
            && #[trigger] call_ensures(Node::drain_queue, (then,), ()) && *then == *final(node) && (
        forall|i: int|
            0 <= i < node@.queue.len() ==> Proposal::encoding((#[trigger] node@.queue[i]).1).len()
                <= MAX_PAYLOAD_BYTES) implies {
        let n = node@.queue.len() as int;
        let (before, after) = (node@.inputs, final(then)@.inputs);
        &&& ctx == node@.next_ctx
        &&& node@.next_ctx < u64::MAX ==> final(then)@.next_ctx > ctx
        &&& after.len() == before.len() + n + 1
        &&& after.take(before.len() as int) == before
        &&& forall|i: int|
            0 <= i < n ==> #[trigger] after[before.len() + i] == (InputView::Propose {
                ctx: node@.queue[i].0,
                data: Proposal::encoding(node@.queue[i].1),
            })
        &&& after.last() == (InputView::Propose { ctx, data: Proposal::encoding(proposal@) })
        &&& final(then)@.queue.len() == 0
        &&& final(then)@.refusals == node@.refusals
        &&& final(then)@.log == node@.log
    } by {
        let queue = node@.queue.push((ctx, proposal@));
        let n = node@.queue.len() as int;
        assert(then@.queue == queue);
        let empty = NodeView { queue: Seq::empty(), ..then@ };
        assert forall|i: int| 0 <= i < queue.len() implies Proposal::encoding(
            (#[trigger] queue[i]).1,
        ).len() <= MAX_PAYLOAD_BYTES by {
            if i < n {
                assert(queue[i] == node@.queue[i]);
            }
        }
        crate::node::looping::law_a_drained_queue_loses_nothing(empty, queue);
        let (before, after) = (node@.inputs, final(then)@.inputs);
        assert(after.take(before.len() as int) =~= before);
        assert forall|i: int| 0 <= i < n implies #[trigger] after[before.len() + i] == (
        InputView::Propose {
            ctx: node@.queue[i].0,
            data: Proposal::encoding(node@.queue[i].1),
        }) by {
            assert(queue[i] == node@.queue[i]);
        }
    }
}

/// A proposal that no entry can hold is refused to its client, and never reaches
/// the core.
pub proof fn law_an_oversized_proposal_is_refused(node: NodeView, ctx: u64, proposal: ProposalView)
    requires
        Proposal::encoding(proposal).len() > MAX_PAYLOAD_BYTES,
    ensures
        ({
            let after = node.proposing_all(seq![(ctx, proposal)]);
            &&& after.inputs == node.inputs
            &&& after.refusals.len() == node.refusals.len() + 1
            &&& after.refusals.last().0 == ctx
            &&& after.refusals.take(node.refusals.len() as int) == node.refusals
        }),
{
    let one = seq![(ctx, proposal)];
    assert(one.drop_last() =~= Seq::empty());
    assert(node.proposing_all(one.drop_last()) == node);
    let after = node.proposing_all(one);
    assert(after.refusals.take(node.refusals.len() as int) =~= node.refusals);
}

// ---------------------------------------------------------------- reporting

/// What is reported of a `Ready` is what was done: its number, the last entry that
/// was made durable, and how far the state machine got. What the core confirmed
/// and refused is kept for the clients, after what was there before.
pub proof fn law_what_was_done_is_reported(
    ready: Ready,
    leader: Option<NodeId>,
    applied: Option<Index>,
    r: Advance,
)
    ensures
        forall|node: &mut Node, turn: &mut Turn| #[trigger]
            call_ensures(Node::finish, (node, ready, leader, applied, turn), r) ==> {
                &&& r.ready_number == ready.number
                &&& r.applied == applied
                &&& r.snapshot_installed is None
                &&& ready.entries@.len() == 0 ==> r.persisted is None
                &&& ready.entries@.len() > 0 ==> r.persisted == Some(
                    (ready.entries@.last().index, ready.entries@.last().term),
                )
                &&& final(node)@.reads == node@.reads + ready.read_states@
                &&& final(node)@.refusals == node@.refusals + ready.proposals_dropped@
                &&& final(node)@.answers == node@.answers
                &&& final(node)@.inputs == node@.inputs
                &&& final(node)@.log == node@.log
                &&& turn.proposals_dropped + ready.proposals_dropped@.len() <= u64::MAX ==> final(
                    turn).proposals_dropped == turn.proposals_dropped
                    + ready.proposals_dropped@.len()
                &&& ready.snapshot_to_install is Some && leader is Some ==> {
                    &&& final(node)@.snapshot_events.len() == node@.snapshot_events.len() + 1
                    &&& final(node)@.snapshot_events.last() == (SnapshotEventView::InstallOffered {
                        ready_number: ready.number,
                        from: leader->0,
                        meta: ready.snapshot_to_install->0@,
                    })
                }
                &&& ready.snapshot_to_install is None || leader is None
                    ==> final(node)@.snapshot_events == node@.snapshot_events
            },
{
    if ready.entries@.len() > 0 {
        assert(models(ready.entries@).last() == ready.entries@.last()@);
    }
}

/// What a transport did not take is reported to the core as unreachable, and what
/// it took is counted.
pub proof fn law_an_unreachable_peer_is_reported(to: NodeId, ok: bool)
    ensures
        forall|node: &mut Node, turn: &mut Turn| #[trigger]
            call_ensures(Node::sent, (node, to, ok, turn), ()) ==> {
                &&& ok ==> final(node)@.inputs == node@.inputs
                &&& ok && turn.messages_sent < u64::MAX ==> final(turn).messages_sent
                    == turn.messages_sent + 1
                &&& !ok ==> final(node)@.inputs == node@.inputs.push(
                    InputView::ReportUnreachable { peer: to },
                )
                &&& !ok ==> final(turn).messages_sent == turn.messages_sent
            },
{
}

/// A learner has caught up where it is one, and the first report of it says that it
/// matched everything that is committed.
pub proof fn law_a_learner_has_caught_up_where_it_matched(
    learners: &[NodeId],
    progress: &[(NodeId, Index)],
    commit: Index,
    node: NodeId,
    r: bool,
)
    requires
        call_ensures(Node::learner_caught_up, (learners, progress, commit, node), r),
    ensures
        r <==> learners@.contains(node) && exists|i: int|
            {
                &&& 0 <= i < progress@.len()
                &&& (#[trigger] progress@[i]).0 == node
                &&& progress@[i].1 >= commit
                &&& forall|j: int| 0 <= j < i ==> (#[trigger] progress@[j]).0 != node
            },
{
    lemma_first_report(progress@, node);
}

proof fn lemma_first_report(progress: Seq<(NodeId, Index)>, node: NodeId)
    ensures
        match crate::node::looping::matched_of(progress, node) {
            Some(matched) => exists|i: int|
                {
                    &&& 0 <= i < progress.len()
                    &&& (#[trigger] progress[i]).0 == node
                    &&& progress[i].1 == matched
                    &&& forall|j: int| 0 <= j < i ==> (#[trigger] progress[j]).0 != node
                },
            None => forall|i: int| 0 <= i < progress.len() ==> (#[trigger] progress[i]).0 != node,
        },
    decreases progress.len(),
{
    if progress.len() > 0 && progress[0].0 != node {
        let rest = progress.skip(1);
        lemma_first_report(rest, node);
        match crate::node::looping::matched_of(rest, node) {
            Some(matched) => {
                let i = choose|i: int|
                    {
                        &&& 0 <= i < rest.len()
                        &&& (#[trigger] rest[i]).0 == node
                        &&& rest[i].1 == matched
                        &&& forall|j: int| 0 <= j < i ==> (#[trigger] rest[j]).0 != node
                    };
                assert(progress[i + 1] == rest[i]);
                assert forall|j: int| 0 <= j < i + 1 implies (#[trigger] progress[j]).0 != node by {
                    if j > 0 {
                        assert(rest[j - 1] == progress[j]);
                    }
                }
            },
            None => {
                assert forall|i: int| 0 <= i < progress.len() implies (#[trigger] progress[i]).0
                    != node by {
                    if i > 0 {
                        assert(rest[i - 1] == progress[i]);
                    }
                }
            },
        }
    }
}

// -------------------------------------------------------------- checkpoints

/// Dropping segments leaves what a log says of itself as it was.
proof fn lemma_dropping_keeps_fields(log: LogView, count: nat)
    ensures
        log.dropping(count).snapshot == log.snapshot,
        log.dropping(count).hard_state == log.hard_state,
        log.dropping(count).last_index == log.last_index,
        log.dropping(count).dirty == log.dirty,
    decreases count,
{
    if count > 0 {
        let remove = EffectView::Remove { name: log.segments[0].name };
        let next = LogView { segments: log.segments.skip(1), ..log }.emitting(seq![remove]);
        lemma_dropping_keeps_fields(next, (count - 1) as nat);
    }
}

/// A checkpoint that was taken is the log's floor from then on, where it is newer
/// than the one before; the hard state and the end of the log stay; and the core is
/// told of it, once.
pub proof fn law_a_checkpoint_becomes_the_floor(meta: SnapshotMeta)
    ensures
        forall|node: &mut Node| #[trigger]
            call_ensures(Node::checkpoint_taken, (node, meta), Ok::<(), NodeError>(())) ==> {
                let (before, after) = (node@.log, final(node)@.log);
                &&& before.snapshot is None || before.snapshot->0.index < meta.index
                    ==> after.snapshot == Some(meta@)
                &&& before.snapshot is Some && before.snapshot->0.index > meta.index
                    ==> after.snapshot == before.snapshot
                &&& after.hard_state == before.hard_state
                &&& after.last_index >= before.last_index
                &&& final(node)@.inputs == node@.inputs.push(
                    InputView::SnapshotTaken { meta: meta@ },
                )
                &&& final(node)@.answers == node@.answers
            },
{
    assert forall|node: &mut Node| #[trigger]
        call_ensures(Node::checkpoint_taken, (node, meta), Ok::<(), NodeError>(())) implies {
        let (before, after) = (node@.log, final(node)@.log);
        &&& before.snapshot is None || before.snapshot->0.index < meta.index ==> after.snapshot
            == Some(meta@)
        &&& before.snapshot is Some && before.snapshot->0.index > meta.index ==> after.snapshot
            == before.snapshot
        &&& after.hard_state == before.hard_state
        &&& after.last_index >= before.last_index
    } by {
        let floor = crate::node::looping::floored(node@.log, meta@)->Ok_0;
        lemma_compacting_keeps_fields(floor, meta.index);
    }
}

proof fn lemma_compacting_keeps_fields(log: LogView, index: Index)
    requires
        log.compacted(index).1 is Ok,
    ensures
        log.compacted(index).0.snapshot == log.snapshot,
        log.compacted(index).0.hard_state == log.hard_state,
        log.compacted(index).0.last_index == log.last_index,
{
    if log.snapshot is Some && log.snapshot->0.index >= index {
        let first = log.staged(RecordView::Snapshot(log.snapshot->0))->Ok_0;
        let synced = first.staged(RecordView::HardState(log.hard_state))->Ok_0.synced();
        let count = LogView::covered_segments(first.segments, log.snapshot->0.index);
        lemma_dropping_keeps_fields(synced, count);
    }
}

/// A floor that was persisted is durable, and is the snapshot's.
pub proof fn law_a_floor_is_durable_before_the_store_is_replaced(meta: &SnapshotMeta)
    ensures
        forall|node: &mut Node| #[trigger]
            call_ensures(Node::persist_snapshot_floor, (node, meta), Ok::<(), NodeError>(())) ==> {
                let (before, after) = (node@.log, final(node)@.log);
                &&& before.snapshot is None || before.snapshot->0.index < meta.index
                    ==> after.snapshot == Some(meta@)
                &&& !after.dirty
                &&& after.hard_state == before.hard_state
                &&& final(node)@.inputs == node@.inputs
            },
{
}

/// What a checkpoint is called is what was applied, at the term the core has for
/// it, with the configuration it has then; without a term there is none.
pub proof fn law_a_checkpoint_is_of_what_was_applied(
    applied: Index,
    term: Option<Term>,
    conf: &ConfState,
    r: Option<SnapshotMeta>,
)
    requires
        call_ensures(Node::checkpoint_meta, (applied, term, conf), r),
    ensures
        r is Some <==> term is Some,
        r is Some ==> r->0.index == applied && r->0.term == term->0 && r->0@.conf == conf@,
{
}

/// A checkpoint is due once so many entries were applied since the last one, and no
/// sooner.
pub proof fn law_a_checkpoint_is_due_by_entries(applied: Index, last: Index, r: bool)
    requires
        call_ensures(checkpoint_is_due, (applied, last), r),
    ensures
        r <==> applied - last >= 10_000,
{
}

/// What turns did adds up to what the node did.
pub proof fn law_turns_add_up(turn: Turn)
    ensures
        forall|node: &mut Node| #[trigger]
            call_ensures(Node::finish_turn, (node, turn), ()) ==> {
                let (a, b) = (node@.progress, final(node)@.progress);
                &&& a.turns < u64::MAX ==> b.turns == a.turns + 1
                &&& a.readies + turn.readies <= u64::MAX ==> b.readies == a.readies + turn.readies
                &&& a.entries_appended + turn.entries_appended <= u64::MAX
                    ==> b.entries_appended == a.entries_appended + turn.entries_appended
                &&& a.messages_sent + turn.messages_sent <= u64::MAX ==> b.messages_sent
                    == a.messages_sent + turn.messages_sent
                &&& a.messages_received + turn.messages_received <= u64::MAX
                    ==> b.messages_received == a.messages_received + turn.messages_received
                &&& a.entries_applied + turn.entries_applied <= u64::MAX ==> b.entries_applied
                    == a.entries_applied + turn.entries_applied
                &&& a.proposals_dropped + turn.proposals_dropped <= u64::MAX
                    ==> b.proposals_dropped == a.proposals_dropped + turn.proposals_dropped
                &&& a.persist_nanos + turn.persist_nanos <= u64::MAX ==> b.persist_nanos
                    == a.persist_nanos + turn.persist_nanos
                &&& a.send_nanos + turn.send_nanos <= u64::MAX ==> b.send_nanos == a.send_nanos
                    + turn.send_nanos
                &&& a.apply_nanos + turn.apply_nanos <= u64::MAX ==> b.apply_nanos
                    == a.apply_nanos + turn.apply_nanos
            },
{
}

/// A turn did something exactly where one of its counters moved.
pub proof fn law_an_idle_turn_did_nothing(turn: &Turn, r: bool)
    requires
        call_ensures(Turn::did_something, (turn,), r),
    ensures
        !r <==> turn.readies == 0 && turn.entries_appended == 0 && turn.messages_sent == 0
            && turn.messages_received == 0 && turn.entries_applied == 0 && turn.proposals_dropped
            == 0 && turn.persist_nanos == 0 && turn.send_nanos == 0 && turn.apply_nanos == 0,
{
}

/// Entries that continue the log, or that begin anywhere in it, leave no gap: whatever
/// was at or above the first of them makes room for it.
pub proof fn law_entries_that_overlap_leave_no_gap(
    log: LogView,
    entries: Seq<EntryView>,
    hs: Option<HardState>,
)
    requires
        entries.len() > 0,
        log.last_index < u64::MAX,
        0 < entries[0].index <= log.last_index + 1,
    ensures
        persisted(log, entries, hs).1 is Some ==> !(persisted(log, entries, hs).1->0
            is Discontiguous),
{
    match made_room(log, entries) {
        Err(_) => {},
        Ok(room) => {
            assert(room.last_index + 1 == entries[0].index);
            if let Ok(records) = batches(entries, room.opts.max_record_bytes) {
                lemma_staging_leaves_no_gap(room, records);
            }
        },
    }
}

proof fn lemma_staging_leaves_no_gap(log: LogView, records: Seq<Seq<EntryView>>)
    ensures
        log.staged_batches(records).1 is Some ==> !(log.staged_batches(records).1->0
            is Discontiguous),
    decreases records.len(),
{
    if records.len() > 0 {
        if let Ok(next) = log.staged(RecordView::Entries(records[0])) {
            lemma_staging_leaves_no_gap(
                LogView { last_index: records[0].last().index, ..next },
                records.skip(1),
            );
        }
    }
}

/// An entry that carries no proposal changes nothing: it is applied like any other, and
/// only one whose bytes are no proposal stops a node.
pub proof fn law_an_entry_without_a_proposal_changes_nothing(
    entries: &[Entry],
    r: Result<Vec<(Index, Proposal)>, NodeError>,
)
    requires
        call_ensures(proposals, (entries,), r),
    ensures
        (forall|i: int| 0 <= i < entries@.len() ==> !((#[trigger] entries@[i])@.payload is Normal))
            ==> r is Ok,
        r matches Ok(read) ==> forall|i: int|
            0 <= i < entries@.len() && !(entries@[i]@.payload is Normal) ==> {
                let proposal = (#[trigger] read@[i]).1@;
                &&& proposal.session is None
                &&& proposal.body is KeepAlive
            },
        r matches Ok(read) ==> forall|i: int|
            0 <= i < entries@.len() ==> (#[trigger] read@[i]).0 == entries@[i].index,
{
}

} // verus!
