//! The host loop, with a single voter standing in for the consensus core: what it
//! is given is committed the moment it is durable.

use std::collections::BTreeMap;

use keel::api::{encode, Command, Peer, Proposal, ProposalBody, Response};
use keel::log::fs::SyncMode;
use keel::log::journal::{Log, LogOptions};
use keel::log::memory::MemoryDisk;
use keel::net::Received;
use keel::node::looping::{
    proposals, DropReason, Input, Node, NodeError, Ready, SnapshotEvent, Step, Turn,
};
use keel::node::snapshots::{
    checkpoint_is_due, Accepted, Incoming, Outgoing, ENTRIES_BETWEEN_CHECKPOINTS,
};
use keel::raft::{ConfState, Entry, EntryPayload, HardState, Message, MessageBody, SnapshotMeta};

#[test]
fn a_checkpoint_is_due_by_entries_applied_rather_than_by_time() {
    assert!(!checkpoint_is_due(0, 0));
    assert!(!checkpoint_is_due(ENTRIES_BETWEEN_CHECKPOINTS - 1, 0));
    assert!(checkpoint_is_due(ENTRIES_BETWEEN_CHECKPOINTS, 0));
    // And it is the distance that matters, not the absolute position: a node
    // that has been up for a month is not perpetually overdue.
    assert!(!checkpoint_is_due(1_000_000, 1_000_000));
    assert!(checkpoint_is_due(1_000_000 + ENTRIES_BETWEEN_CHECKPOINTS, 1_000_000));
}

/// Taking a checkpoint is triggered by work done, not by time passed.
#[test]
fn checkpoints_are_due_by_entries_applied() {
    assert!(!checkpoint_is_due(5, 0));
    assert!(checkpoint_is_due(ENTRIES_BETWEEN_CHECKPOINTS + 1, 0));
    assert!(!checkpoint_is_due(ENTRIES_BETWEEN_CHECKPOINTS + 1, ENTRIES_BETWEEN_CHECKPOINTS));
}

/// A node, its directory, its state machine, and the voter.
struct Alone {
    node: Node,
    disk: MemoryDisk,
    number: u64,
    last: u64,
    uncommitted: Vec<Entry>,
    applied: u64,
    store: BTreeMap<Vec<u8>, Vec<u8>>,
}

fn alone() -> Alone {
    let options = LogOptions { sync_mode: SyncMode::Off, preallocate: false, ..LogOptions::default() };
    let mut effects = Vec::new();
    let mut disk = MemoryDisk::new();
    let (log, _) = match Log::open("log", disk.files(), options, &mut effects) {
        Ok(opened) => opened,
        Err(e) => panic!("{}", e.message()),
    };
    assert!(disk.perform_all(&effects));
    Alone {
        node: Node::new(log),
        disk,
        number: 0,
        last: 0,
        uncommitted: Vec::new(),
        applied: 0,
        store: BTreeMap::new(),
    }
}

impl Alone {
    /// One turn: everything queued goes into one `Ready`, what was durable
    /// before is applied.
    fn turn(&mut self) -> Turn {
        let mut turn = Turn::default();
        self.node.drain_queue();
        let mut entries = Vec::new();
        for input in self.node.take_inputs() {
            if let Input::Propose { data, .. } = input {
                self.last += 1;
                entries.push(Entry::new(1, self.last, EntryPayload::Normal(data)));
            }
        }
        let committed: Vec<Entry> = self.uncommitted.drain(..).collect();
        if entries.is_empty() && committed.is_empty() {
            return turn;
        }
        self.number += 1;
        self.uncommitted = entries.clone();
        let ready = Ready {
            number: self.number,
            entries,
            hard_state: None,
            messages: Vec::new(),
            committed_entries: committed,
            read_states: Vec::new(),
            proposals_dropped: Vec::new(),
            snapshot_to_install: None,
        };
        let steps = match self.node.pump(&ready, &mut turn) {
            Ok(steps) => steps,
            Err(e) => panic!("{}", e.message()),
        };
        for step in steps {
            match step {
                Step::Disk(effect) => assert!(self.disk.perform(&effect)),
                Step::Send { .. } => panic!("nobody to send to"),
                Step::Fail(why) => panic!("{why}"),
            }
        }
        let asked = match proposals(&ready.committed_entries) {
            Ok(asked) => asked,
            Err(e) => panic!("{}", e.message()),
        };
        let responses = asked
            .iter()
            .map(|(_, proposal)| match &proposal.body {
                ProposalBody::Command(Command::Put { key, value }) => {
                    self.store.insert(key.clone(), value.clone());
                    Response::Applied
                }
                ProposalBody::Register { .. } => Response::Registered { client: 7 },
                _ => Response::Applied,
            })
            .collect();
        let applied = self.node.apply(&ready.committed_entries, &asked, responses, &mut turn);
        if let Some(index) = applied {
            self.applied = index;
        }
        let advance = self.node.finish(ready, None, applied, &mut turn);
        assert_eq!(advance.ready_number, self.number);
        self.node.finish_turn(turn);
        turn
    }

    fn run_until_idle(&mut self) {
        while self.turn().did_something() {}
    }

    fn register(&mut self) -> u64 {
        self.node.propose(Proposal {
            stamped_ms: 1_000,
            session: None,
            body: ProposalBody::Register { nonce: 1 },
        });
        self.run_until_idle();
        for answer in self.node.take_answers() {
            if let Response::Registered { client } = answer.response {
                assert_eq!(answer.registration, Some(1));
                return client;
            }
        }
        panic!("the registration never came back");
    }
}

fn put(client: u64, seq: u64, i: u32) -> Proposal {
    Proposal {
        stamped_ms: 0,
        session: Some((client, seq)),
        body: ProposalBody::Command(Command::Put {
            key: format!("k{i:04}").into_bytes(),
            value: b"v".to_vec(),
        }),
    }
}

#[test]
fn a_hundred_queued_proposals_cost_one_append_and_one_sync() {
    let mut a = alone();
    let client = a.register();

    let before = a.node.log().stats();
    for i in 0..100u32 {
        a.node.propose(put(client, i as u64 + 1, i));
    }
    assert_eq!(a.node.queued(), 100, "the proposals were not queued");

    // One turn. Everything queued goes into one Ready.
    let turn = a.turn();
    let after = a.node.log().stats();

    assert_eq!(
        turn.entries_appended, 100,
        "the turn appended {} entries, not a hundred",
        turn.entries_appended
    );
    assert_eq!(after.appends - before.appends, 1);
    assert_eq!(after.syncs - before.syncs, 1);
}

#[test]
fn the_same_hundred_driven_one_at_a_time_cost_a_hundred_of_each() {
    let mut a = alone();
    let client = a.register();

    let before = a.node.log().stats();
    for i in 0..100u32 {
        a.node.propose(put(client, i as u64 + 1, i));
        // A turn per proposal: nothing accumulates, so nothing batches.
        a.turn();
    }
    let after = a.node.log().stats();

    assert_eq!(after.appends - before.appends, 100);
    assert_eq!(after.syncs - before.syncs, 100);
}

/// Both paths must reach the same state, or the cheap one is cheap because it
/// did less.
#[test]
fn batching_changes_the_cost_and_not_the_outcome() {
    let applied_after = |batched: bool| -> (u64, Vec<Vec<u8>>) {
        let mut a = alone();
        let client = a.register();
        for i in 0..50u32 {
            a.node.propose(put(client, i as u64 + 1, i));
            if !batched {
                a.turn();
            }
        }
        a.run_until_idle();
        (a.applied, a.store.keys().cloned().collect())
    };

    let (batched_applied, batched_keys) = applied_after(true);
    let (single_applied, single_keys) = applied_after(false);
    assert_eq!(batched_keys.len(), 50, "the batched run lost proposals");
    assert_eq!(
        batched_keys, single_keys,
        "batching changed which keys ended up in the state machine"
    );
    assert_eq!(
        batched_applied, single_applied,
        "batching changed how far the log was applied"
    );
}

/// The queue is not a policy. There is no threshold and no timer: the batch is
/// however much arrived while the last one was being made durable.
#[test]
fn a_single_proposal_is_not_held_waiting_for_company() {
    let mut a = alone();
    let client = a.register();
    a.node.propose(put(client, 1, 0));
    let turn = a.turn();
    assert_eq!(turn.entries_appended, 1, "a lone proposal was not appended on the next turn");
    assert_eq!(a.node.queued(), 0);
}

fn empty_ready(number: u64) -> Ready {
    Ready {
        number,
        entries: Vec::new(),
        hard_state: None,
        messages: Vec::new(),
        committed_entries: Vec::new(),
        read_states: Vec::new(),
        proposals_dropped: Vec::new(),
        snapshot_to_install: None,
    }
}

/// What a message promises is on disk before the message goes out.
#[test]
fn nothing_is_sent_before_it_is_durable() {
    let mut a = alone();
    let mut ready = empty_ready(1);
    ready.entries = vec![Entry::new(1, 1, EntryPayload::Noop)];
    ready.hard_state = Some(HardState { term: 1, voted_for: Some(1), commit: 0 });
    ready.messages = vec![Message::new(1, 2, 1, MessageBody::VoteResp { granted: true })];
    let mut turn = Turn::default();
    let steps = a.node.pump(&ready, &mut turn).unwrap();
    let sync = steps.iter().position(|s| {
        matches!(s, Step::Disk(keel::log::fs::Effect::Sync { .. }))
    });
    let send = steps.iter().position(|s| matches!(s, Step::Send { to: 2, .. }));
    assert!(sync.unwrap() < send.unwrap(), "{steps:?}");
    assert_eq!(a.node.log().hard_state().term, 1);
    assert_eq!(turn.entries_appended, 1);
    a.node.sent(2, true, &mut turn);
    assert_eq!(turn.messages_sent, 1);
}

/// A message too large to send ends the turn, and nothing that came before it is
/// lost: neither what was written nor the messages ahead of it.
#[test]
fn a_message_that_cannot_be_sent_loses_nothing_before_it() {
    let mut a = alone();
    let mut ready = empty_ready(1);
    ready.entries = vec![Entry::new(1, 1, EntryPayload::Noop)];
    ready.hard_state = Some(HardState { term: 1, voted_for: Some(1), commit: 0 });
    let large = MessageBody::AppendReq {
        prev_log_index: 0,
        prev_log_term: 0,
        entries: vec![Entry::new(1, 1, EntryPayload::Normal(vec![0; 16_777_216]))],
        leader_commit: 0,
    };
    ready.messages = vec![
        Message::new(1, 2, 1, MessageBody::VoteResp { granted: true }),
        Message::new(1, 3, 1, large),
        Message::new(1, 4, 1, MessageBody::VoteResp { granted: true }),
    ];
    let mut turn = Turn::default();
    let steps = a.node.pump(&ready, &mut turn).unwrap();
    assert_eq!((turn.readies, turn.entries_appended), (1, 1));
    let n = steps.len();
    assert!(matches!(steps[n - 2], Step::Send { to: 2, .. }));
    match &steps[n - 1] {
        Step::Fail(why) => assert!(why.contains("above the 16777216-byte limit"), "{why}"),
        _ => panic!("the turn should end at the message that is too large"),
    }
    let mut writes = 0;
    for step in steps {
        if let Step::Disk(effect) = step {
            assert!(a.disk.perform(&effect));
            writes += 1;
        }
    }
    assert!(writes > 0);
    // What was written is what a restart finds.
    let mut effects = Vec::new();
    let options = LogOptions::default();
    let (log, recovered) = Log::open("log", a.disk.files(), options, &mut effects).unwrap();
    assert_eq!(log.last_index(), 1);
    assert_eq!(recovered.hard_state.voted_for, Some(1));
}

#[test]
fn entries_that_replace_others_truncate_them_first() {
    let mut a = alone();
    let mut turn = Turn::default();
    let mut ready = empty_ready(1);
    ready.entries = (1..=3).map(|i| Entry::new(1, i, EntryPayload::Noop)).collect();
    a.node.pump(&ready, &mut turn).unwrap();
    let mut ready = empty_ready(2);
    ready.entries = vec![Entry::new(2, 2, EntryPayload::Noop)];
    a.node.pump(&ready, &mut turn).unwrap();
    assert_eq!(a.node.log().last_index(), 2);
    let mut ready = empty_ready(3);
    ready.entries = vec![Entry::new(2, 9, EntryPayload::Noop)];
    assert!(matches!(a.node.pump(&ready, &mut turn), Err(NodeError::Log(_))));
}

#[test]
fn a_frame_is_handed_to_whoever_it_is_for() {
    let mut a = alone();
    let mut turn = Turn::default();
    let message = Message::new(2, 1, 3, MessageBody::VoteResp { granted: true });
    let frames = vec![
        Received { from: 2, frame: encode(&Peer::Raft(message.clone())).unwrap() },
        Received {
            from: 2,
            frame: encode(&Peer::SnapshotStatus { index: 9, term: 3, ok: true }).unwrap(),
        },
        Received { from: 2, frame: vec![0xff] },
    ];
    a.node.receive(frames, &mut turn);
    let inputs = a.node.take_inputs();
    assert_eq!(inputs.len(), 1);
    assert!(matches!(&inputs[0], Input::Message(m) if *m == message));
    let events = a.node.take_snapshot_events();
    assert!(matches!(
        &events[..],
        [SnapshotEvent::Status { from: 2, index: 9, term: 3, ok: true }]
    ));
}

#[test]
fn a_committed_entry_that_does_not_decode_stops_the_node() {
    let broken = vec![Entry::new(1, 4, EntryPayload::Normal(vec![0xff, 0xff]))];
    assert!(matches!(
        proposals(&broken),
        Err(NodeError::MalformedEntry { index: 4, .. })
    ));
}

#[test]
fn an_offered_snapshot_goes_to_the_host_when_its_leader_is_known() {
    let meta = SnapshotMeta { index: 20, term: 3, conf: ConfState::single(vec![1, 2]) };
    let mut a = alone();
    let mut turn = Turn::default();
    let mut ready = empty_ready(5);
    ready.snapshot_to_install = Some(meta.clone());
    a.node.finish(ready, Some(2), None, &mut turn);
    let events = a.node.take_snapshot_events();
    assert!(matches!(
        &events[..],
        [SnapshotEvent::InstallOffered { ready_number: 5, from: 2, meta: m }] if *m == meta
    ));
    a.node.persist_snapshot_floor(&meta).unwrap();
    assert_eq!(a.node.log().snapshot(), Some(&meta));
    assert_eq!(a.node.log().last_index(), 20);
}

#[test]
fn a_learner_has_caught_up_when_it_holds_what_is_committed() {
    assert!(Node::learner_caught_up(&[4], &[(4, 10)], 10, 4));
    assert!(!Node::learner_caught_up(&[4], &[(4, 9)], 10, 4));
    assert!(!Node::learner_caught_up(&[], &[(4, 10)], 10, 4));
    assert!(Node::checkpoint_meta(7, None, &ConfState::single(vec![1])).is_none());
    let meta = Node::checkpoint_meta(7, Some(2), &ConfState::single(vec![1])).unwrap();
    assert_eq!((meta.index, meta.term), (7, 2));
}

#[test]
fn what_is_asked_of_a_node_is_handed_to_the_core() {
    let mut a = alone();
    let ctx = a.node.propose_conf_change(vec![7]);
    a.node.read_index(5);
    a.node.transfer_leader(2);
    a.node.report_snapshot(3, false);
    a.node.tick();
    let meta = SnapshotMeta { index: 20, term: 3, conf: ConfState::single(vec![1, 2]) };
    a.node.resume_snapshot_offer(2, 1, 3, meta);
    let inputs = a.node.take_inputs();
    assert!(matches!(&inputs[0], Input::ProposeConfChange { ctx: c, change } if *c == ctx && *change == vec![7]));
    assert!(matches!(&inputs[1], Input::ReadIndex { ctx: 5 }));
    assert!(matches!(&inputs[2], Input::TransferLeader { to: 2 }));
    assert!(matches!(&inputs[3], Input::ReportSnapshotStatus { peer: 3, ok: false }));
    assert!(matches!(&inputs[4], Input::Tick));
    assert!(matches!(
        &inputs[5],
        Input::Message(Message { from: 2, to: 1, term: 3, body: MessageBody::SnapshotOffer { .. } })
    ));
    assert!(a.node.take_inputs().is_empty());
}

#[test]
fn a_checkpoint_moves_the_floor_and_is_reported() {
    let mut a = alone();
    let client = a.register();
    for i in 0..5u32 {
        a.node.propose(put(client, i as u64 + 1, i));
    }
    a.run_until_idle();
    let meta = SnapshotMeta { index: 3, term: 1, conf: ConfState::single(vec![1]) };
    a.node.checkpoint_taken(meta.clone()).unwrap();
    assert_eq!(a.node.log().snapshot(), Some(&meta));
    assert_eq!(a.node.log().last_index(), 6);
    assert!(matches!(&a.node.take_inputs()[..], [Input::SnapshotTaken { meta: m }] if *m == meta));
    let sent = Node::send_peer(&Peer::SnapshotStatus { index: 3, term: 1, ok: true }).unwrap();
    assert_eq!(sent, encode(&Peer::SnapshotStatus { index: 3, term: 1, ok: true }).unwrap());
}

#[test]
fn what_the_core_confirmed_and_refused_is_kept_for_the_clients() {
    let mut a = alone();
    let mut turn = Turn::default();
    let mut ready = empty_ready(1);
    ready.read_states = vec![(5, 9)];
    ready.proposals_dropped = vec![(6, DropReason::NotLeader)];
    a.node.finish(ready, None, None, &mut turn);
    assert_eq!(turn.proposals_dropped, 1);
    assert_eq!(a.node.take_reads(), vec![(5, 9)]);
    assert_eq!(a.node.take_refusals(), vec![(6, DropReason::NotLeader)]);
    assert!(a.node.take_reads().is_empty());
}

/// A transfer that is resumed goes on from what the receiver verified, and counts
/// what it sent and what was taken.
#[test]
fn a_resumed_transfer_goes_on_from_what_was_verified() {
    let meta = SnapshotMeta { index: 20, term: 3, conf: ConfState::single(vec![1, 2]) };
    let mut sending = Outgoing::new(2, meta.clone());
    sending.resume_from(vec![("a".into(), 4_096)]);
    assert_eq!(sending.position, vec![("a".to_string(), 4_096)]);
    sending.next_chunk(true);
    sending.next_chunk(false);
    assert_eq!(sending.chunks_sent, 1);
    let mut receiving = Incoming::new(1, meta);
    receiving.accept(Accepted::Written);
    receiving.accept(Accepted::Complete);
    receiving.accept(Accepted::Rejected);
    receiving.accept(Accepted::OutOfOrder);
    assert_eq!((receiving.chunks_accepted, receiving.chunks_rejected), (2, 2));
}
