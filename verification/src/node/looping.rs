//! The Ready loop.

use std::collections::VecDeque;

use vstd::prelude::*;
use vstd::string::*;

use crate::api::{
    decode, decoded, encode, says_why_not, too_large_text, ClientId, Peer, PeerView, Proposal,
    ProposalBody, ProposalBodyView, ProposalView, Response, ResponseView, SeqNo, MAX_PAYLOAD_BYTES,
};
use crate::log::error::{log_error_text, Error, ErrorView};
use crate::log::fs::{effect_views, Effect, EffectView};
use crate::log::journal::{counted, Log, LogView};
use crate::net::{Received, ReceivedView};
use crate::raft::{
    ConfState, Entry, EntryPayload, EntryPayloadView, EntryView, HardState, Index, Message,
    MessageBody, MessageBodyView, MessageView, NodeId, SnapshotMeta, SnapshotMetaView, Term,
};
use crate::text::{decimal, push_decimal};
use crate::wire::{models, Wire};

verus! {

// ------------------------------------------------------------------- types

#[derive(Debug)]
pub enum NodeError {
    Log(Error),
    /// The state machine failed, and this is what it said.
    StateMachine(String),
    Transport(String),
    /// A committed entry this node itself proposed does not decode. Not
    /// recoverable: the log holds something no build can apply, and skipping it
    /// would put this node's state machine out of step with its peers'.
    MalformedEntry { index: Index, why: String },
}

/// What a node error says.
pub open spec fn node_error_text(e: NodeError) -> Seq<char> {
    match e {
        NodeError::Log(e) => "the log failed: "@ + log_error_text(e),
        NodeError::StateMachine(why) => "the state machine failed: "@ + why@,
        NodeError::Transport(why) => "the transport failed: "@ + why@,
        NodeError::MalformedEntry { index, why } => "a committed entry is malformed at index "@
            + decimal(index as nat) + ": "@ + why@,
    }
}

impl NodeError {
    /// What went wrong, for a person.
    pub fn message(&self) -> (r: String)
        ensures
            r@ == node_error_text(*self),
    {
        let mut out = String::new();
        match self {
            NodeError::Log(e) => {
                out.append("the log failed: ");
                out.append(e.message().as_str());
            },
            NodeError::StateMachine(why) => {
                out.append("the state machine failed: ");
                out.append(why.as_str());
            },
            NodeError::Transport(why) => {
                out.append("the transport failed: ");
                out.append(why.as_str());
            },
            NodeError::MalformedEntry { index, why } => {
                out.append("a committed entry is malformed at index ");
                push_decimal(&mut out, *index);
                out.append(": ");
                out.append(why.as_str());
            },
        }
        proof {
            assert(out@ =~= node_error_text(*self));
        }
        out
    }
}

/// Why the core refused a proposal.
#[derive(Debug, Clone, Copy, PartialEq, Eq, Structural)]
pub enum DropReason {
    NotLeader,
    Overloaded,
    ConfChangeInFlight,
}

/// Something to step into the core.
#[derive(Debug)]
pub enum Input {
    Message(Message),
    Propose { ctx: u64, data: Vec<u8> },
    /// An operator's membership change, encoded.
    ProposeConfChange { ctx: u64, change: Vec<u8> },
    ReadIndex { ctx: u64 },
    TransferLeader { to: NodeId },
    ReportUnreachable { peer: NodeId },
    ReportSnapshotStatus { peer: NodeId, ok: bool },
    SnapshotTaken { meta: SnapshotMeta },
    Tick,
}

/// What an [`Input`] stands for.
pub enum InputView {
    Message(MessageView),
    Propose { ctx: u64, data: Seq<u8> },
    ProposeConfChange { ctx: u64, change: Seq<u8> },
    ReadIndex { ctx: u64 },
    TransferLeader { to: NodeId },
    ReportUnreachable { peer: NodeId },
    ReportSnapshotStatus { peer: NodeId, ok: bool },
    SnapshotTaken { meta: SnapshotMetaView },
    Tick,
}

impl View for Input {
    type V = InputView;

    open spec fn view(&self) -> InputView {
        match self {
            Input::Message(m) => InputView::Message(m@),
            Input::Propose { ctx, data } => InputView::Propose { ctx: *ctx, data: data@ },
            Input::ProposeConfChange { ctx, change } => InputView::ProposeConfChange {
                ctx: *ctx,
                change: change@,
            },
            Input::ReadIndex { ctx } => InputView::ReadIndex { ctx: *ctx },
            Input::TransferLeader { to } => InputView::TransferLeader { to: *to },
            Input::ReportUnreachable { peer } => InputView::ReportUnreachable { peer: *peer },
            Input::ReportSnapshotStatus { peer, ok } => InputView::ReportSnapshotStatus {
                peer: *peer,
                ok: *ok,
            },
            Input::SnapshotTaken { meta } => InputView::SnapshotTaken { meta: meta@ },
            Input::Tick => InputView::Tick,
        }
    }
}

/// What the core has for its host to do.
#[derive(Debug)]
pub struct Ready {
    pub number: u64,
    pub entries: Vec<Entry>,
    pub hard_state: Option<HardState>,
    pub messages: Vec<Message>,
    pub committed_entries: Vec<Entry>,
    /// Reads that were confirmed: the context the caller gave, and the index its
    /// answer must reflect.
    pub read_states: Vec<(u64, Index)>,
    pub proposals_dropped: Vec<(u64, DropReason)>,
    pub snapshot_to_install: Option<SnapshotMeta>,
}

/// What a host reports back to the core once a `Ready` is done: watermarks, so
/// that a host that reordered its own work cannot desynchronise the core.
#[derive(Debug)]
pub struct Advance {
    pub ready_number: u64,
    pub persisted: Option<(Index, Term)>,
    pub applied: Option<Index>,
    pub snapshot_installed: Option<SnapshotMeta>,
}

/// Bulk-transfer work handed to the host. Consensus traffic stays in the core;
/// files, paths, and checkpoint publication stay out of it.
#[derive(Debug)]
pub enum SnapshotEvent {
    InstallOffered { ready_number: u64, from: NodeId, meta: SnapshotMeta },
    /// A peer asks for a snapshot, from these verified positions on.
    Request { from: NodeId, index: Index, term: Term, position: Vec<(String, u64)> },
    /// A chunk of one file of a snapshot.
    Chunk {
        from: NodeId,
        index: Index,
        term: Term,
        file: String,
        offset: u64,
        crc: u32,
        last: bool,
        data: Vec<u8>,
    },
    /// A chunk of a snapshot that is one stream.
    Stream { from: NodeId, index: Index, term: Term, offset: u64, last: bool, data: Vec<u8> },
    Complete { from: NodeId, index: Index, term: Term, digest: u64 },
    Status { from: NodeId, index: Index, term: Term, ok: bool },
}

/// What a [`SnapshotEvent`] stands for.
pub enum SnapshotEventView {
    InstallOffered { ready_number: u64, from: NodeId, meta: SnapshotMetaView },
    Request { from: NodeId, index: Index, term: Term, position: Seq<(Seq<char>, u64)> },
    Chunk {
        from: NodeId,
        index: Index,
        term: Term,
        file: Seq<char>,
        offset: u64,
        crc: u32,
        last: bool,
        data: Seq<u8>,
    },
    Stream { from: NodeId, index: Index, term: Term, offset: u64, last: bool, data: Seq<u8> },
    Complete { from: NodeId, index: Index, term: Term, digest: u64 },
    Status { from: NodeId, index: Index, term: Term, ok: bool },
}

impl View for SnapshotEvent {
    type V = SnapshotEventView;

    open spec fn view(&self) -> SnapshotEventView {
        match self {
            SnapshotEvent::InstallOffered { ready_number, from, meta } =>
                SnapshotEventView::InstallOffered {
                ready_number: *ready_number,
                from: *from,
                meta: meta@,
            },
            SnapshotEvent::Request { from, index, term, position } => SnapshotEventView::Request {
                from: *from,
                index: *index,
                term: *term,
                position: position.model(),
            },
            SnapshotEvent::Chunk { from, index, term, file, offset, crc, last, data } =>
                SnapshotEventView::Chunk {
                from: *from,
                index: *index,
                term: *term,
                file: file@,
                offset: *offset,
                crc: *crc,
                last: *last,
                data: data@,
            },
            SnapshotEvent::Stream { from, index, term, offset, last, data } =>
                SnapshotEventView::Stream {
                from: *from,
                index: *index,
                term: *term,
                offset: *offset,
                last: *last,
                data: data@,
            },
            SnapshotEvent::Complete { from, index, term, digest } => SnapshotEventView::Complete {
                from: *from,
                index: *index,
                term: *term,
                digest: *digest,
            },
            SnapshotEvent::Status { from, index, term, ok } => SnapshotEventView::Status {
                from: *from,
                index: *index,
                term: *term,
                ok: *ok,
            },
        }
    }
}

/// What one turn of the loop did.
///
/// Counters rather than a boolean, because the interesting questions about a
/// host loop are all quantitative: did a hundred proposals cost one append or a
/// hundred, did a heartbeat round go out, how much was applied.
#[derive(Debug, Clone, Copy, PartialEq, Eq, Structural)]
pub struct Turn {
    /// `Ready` structs handled. At most one per turn, so this is 0 or 1.
    pub readies: u64,
    pub entries_appended: u64,
    pub messages_sent: u64,
    pub messages_received: u64,
    pub entries_applied: u64,
    /// Proposals refused before they reached the log, with the reason the core
    /// gave.
    pub proposals_dropped: u64,
    /// Nanoseconds inside each of the three phases of a `Ready`: making it
    /// durable, handing its messages over, and applying it.
    pub persist_nanos: u64,
    pub send_nanos: u64,
    pub apply_nanos: u64,
}

impl Turn {
    /// A turn that has done nothing yet.
    pub open spec fn idle() -> Turn {
        Turn {
            readies: 0,
            entries_appended: 0,
            messages_sent: 0,
            messages_received: 0,
            entries_applied: 0,
            proposals_dropped: 0,
            persist_nanos: 0,
            send_nanos: 0,
            apply_nanos: 0,
        }
    }

    /// Whether this turn moved anything at all.
    ///
    /// A host decides whether to pause on this: a node with a backlog that
    /// pauses between turns is rationing itself, and one that never pauses when
    /// idle is a busy loop.
    pub fn did_something(&self) -> (r: bool)
        ensures
            r == (*self != Turn::idle()),
    {
        *self != Turn::default()
    }

    /// Add the time that the three phases of a `Ready` took.
    pub fn took(&mut self, persist_nanos: u64, send_nanos: u64, apply_nanos: u64)
        ensures
            *final(self) == (Turn {
                persist_nanos: counted(old(self).persist_nanos, persist_nanos as nat),
                send_nanos: counted(old(self).send_nanos, send_nanos as nat),
                apply_nanos: counted(old(self).apply_nanos, apply_nanos as nat),
                ..*old(self)
            }),
    {
        self.persist_nanos = self.persist_nanos.saturating_add(persist_nanos);
        self.send_nanos = self.send_nanos.saturating_add(send_nanos);
        self.apply_nanos = self.apply_nanos.saturating_add(apply_nanos);
    }
}

impl Default for Turn {
    fn default() -> (r: Self)
        ensures
            r == Turn::idle(),
    {
        Turn {
            readies: 0,
            entries_appended: 0,
            messages_sent: 0,
            messages_received: 0,
            entries_applied: 0,
            proposals_dropped: 0,
            persist_nanos: 0,
            send_nanos: 0,
            apply_nanos: 0,
        }
    }
}

/// Cumulative counters for the whole node.
#[derive(Debug, Clone, Copy, PartialEq, Eq, Structural)]
pub struct Progress {
    pub turns: u64,
    pub readies: u64,
    pub entries_appended: u64,
    pub messages_sent: u64,
    pub messages_received: u64,
    pub entries_applied: u64,
    pub proposals_dropped: u64,
    pub persist_nanos: u64,
    pub send_nanos: u64,
    pub apply_nanos: u64,
}

impl Default for Progress {
    fn default() -> (r: Self)
        ensures
            r == Progress::none(),
    {
        Progress {
            turns: 0,
            readies: 0,
            entries_appended: 0,
            messages_sent: 0,
            messages_received: 0,
            entries_applied: 0,
            proposals_dropped: 0,
            persist_nanos: 0,
            send_nanos: 0,
            apply_nanos: 0,
        }
    }
}

impl Progress {
    /// No progress at all.
    pub open spec fn none() -> Progress {
        Progress {
            turns: 0,
            readies: 0,
            entries_appended: 0,
            messages_sent: 0,
            messages_received: 0,
            entries_applied: 0,
            proposals_dropped: 0,
            persist_nanos: 0,
            send_nanos: 0,
            apply_nanos: 0,
        }
    }

    /// The counters after one more turn.
    pub open spec fn after(self, turn: Turn) -> Progress {
        Progress {
            turns: counted(self.turns, 1),
            readies: counted(self.readies, turn.readies as nat),
            entries_appended: counted(self.entries_appended, turn.entries_appended as nat),
            messages_sent: counted(self.messages_sent, turn.messages_sent as nat),
            messages_received: counted(self.messages_received, turn.messages_received as nat),
            entries_applied: counted(self.entries_applied, turn.entries_applied as nat),
            proposals_dropped: counted(self.proposals_dropped, turn.proposals_dropped as nat),
            persist_nanos: counted(self.persist_nanos, turn.persist_nanos as nat),
            send_nanos: counted(self.send_nanos, turn.send_nanos as nat),
            apply_nanos: counted(self.apply_nanos, turn.apply_nanos as nat),
        }
    }

    fn add_turn(&mut self, turn: Turn)
        ensures
            *final(self) == old(self).after(turn),
    {
        self.turns = self.turns.saturating_add(1);
        self.readies = self.readies.saturating_add(turn.readies);
        self.entries_appended = self.entries_appended.saturating_add(turn.entries_appended);
        self.messages_sent = self.messages_sent.saturating_add(turn.messages_sent);
        self.messages_received = self.messages_received.saturating_add(turn.messages_received);
        self.entries_applied = self.entries_applied.saturating_add(turn.entries_applied);
        self.proposals_dropped = self.proposals_dropped.saturating_add(turn.proposals_dropped);
        self.persist_nanos = self.persist_nanos.saturating_add(turn.persist_nanos);
        self.send_nanos = self.send_nanos.saturating_add(turn.send_nanos);
        self.apply_nanos = self.apply_nanos.saturating_add(turn.apply_nanos);
    }
}

/// A response, and enough to say whose it is.
#[derive(Debug)]
pub struct Answer {
    /// The log index that produced it.
    pub index: Index,
    /// The `(client, seq)` the proposal carried, when it carried one.
    pub session: Option<(ClientId, SeqNo)>,
    /// The nonce, when the proposal was a registration.
    ///
    /// A registration is the one request with no session pair, since it is
    /// asking for one, so a host that matched it on anything else would be
    /// matching it on nothing: two clients registering at the same moment would
    /// be handed each other's identities.
    pub registration: Option<u64>,
    pub response: Response,
}

/// What an [`Answer`] stands for.
pub struct AnswerView {
    pub index: Index,
    pub session: Option<(ClientId, SeqNo)>,
    pub registration: Option<u64>,
    pub response: ResponseView,
}

impl View for Answer {
    type V = AnswerView;

    open spec fn view(&self) -> AnswerView {
        AnswerView {
            index: self.index,
            session: self.session,
            registration: self.registration,
            response: self.response@,
        }
    }
}

/// A proposal waiting to be stepped into the core.
#[derive(Debug)]
pub struct Queued {
    pub ctx: u64,
    pub proposal: Proposal,
}

/// One node's host: its log, and what is between it, the core, the network and
/// its clients.
pub struct Node {
    log: Log,
    /// Proposals accepted from clients and not yet stepped into the core.
    ///
    /// The queue is the group-commit mechanism, and it is deliberately not a
    /// batching policy: there is no size threshold and no timer. Everything
    /// queued between two turns goes into one `Ready`.
    queue: VecDeque<Queued>,
    /// Responses produced by applying.
    answers: Vec<Answer>,
    /// Proposals the core refused, with why.
    refusals: Vec<(u64, DropReason)>,
    /// Reads the core has confirmed, waiting for the host to notice.
    reads: Vec<(u64, Index)>,
    next_ctx: u64,
    progress: Progress,
    snapshot_events: Vec<SnapshotEvent>,
    /// What is to be stepped into the core, oldest first.
    inputs: Vec<Input>,
}

/// What a [`Node`] stands for.
pub struct NodeView {
    pub log: LogView,
    pub queue: Seq<(u64, ProposalView)>,
    pub answers: Seq<AnswerView>,
    pub refusals: Seq<(u64, DropReason)>,
    pub reads: Seq<(u64, Index)>,
    pub next_ctx: u64,
    pub progress: Progress,
    pub snapshot_events: Seq<SnapshotEventView>,
    pub inputs: Seq<InputView>,
}

pub open spec fn queue_views(queue: Seq<Queued>) -> Seq<(u64, ProposalView)> {
    queue.map_values(|q: Queued| (q.ctx, q.proposal@))
}

pub open spec fn answer_views(answers: Seq<Answer>) -> Seq<AnswerView> {
    answers.map_values(|a: Answer| a@)
}

pub open spec fn event_views(events: Seq<SnapshotEvent>) -> Seq<SnapshotEventView> {
    events.map_values(|e: SnapshotEvent| e@)
}

pub open spec fn input_views(inputs: Seq<Input>) -> Seq<InputView> {
    inputs.map_values(|i: Input| i@)
}

pub open spec fn received_views(frames: Seq<Received>) -> Seq<ReceivedView> {
    frames.map_values(|f: Received| f@)
}

impl View for Node {
    type V = NodeView;

    closed spec fn view(&self) -> NodeView {
        NodeView {
            log: self.log@,
            queue: queue_views(self.queue@),
            answers: answer_views(self.answers@),
            refusals: self.refusals@,
            reads: self.reads@,
            next_ctx: self.next_ctx,
            progress: self.progress,
            snapshot_events: event_views(self.snapshot_events@),
            inputs: input_views(self.inputs@),
        }
    }
}

// --------------------------------------------------------------- receiving

impl NodeView {
    /// Something more to step into the core.
    pub open spec fn stepping(self, input: InputView) -> NodeView {
        NodeView { inputs: self.inputs.push(input), ..self }
    }

    /// Something more for the host's snapshot transfers.
    pub open spec fn telling(self, event: SnapshotEventView) -> NodeView {
        NodeView { snapshot_events: self.snapshot_events.push(event), ..self }
    }

    /// A frame that arrived. One that does not decode is a peer speaking a
    /// protocol this build does not, and dropping it is the whole response:
    /// there is no reply that would help, and refusing to run would let one bad
    /// peer stop a healthy node.
    pub open spec fn receiving(self, received: ReceivedView) -> NodeView {
        let from = received.from;
        match decoded::<Peer>(received.frame) {
            None => self,
            Some(PeerView::Raft(message)) => self.stepping(InputView::Message(message)),
            Some(PeerView::SnapshotRequest { index, term, position }) => self.telling(
                SnapshotEventView::Request { from, index, term, position },
            ),
            Some(PeerView::SnapshotFile { index, term, file, offset, crc, last, data }) =>
                self.telling(
                SnapshotEventView::Chunk { from, index, term, file, offset, crc, last, data },
            ),
            Some(PeerView::SnapshotChunk { index, term, offset, last, data }) => self.telling(
                SnapshotEventView::Stream { from, index, term, offset, last, data },
            ),
            Some(PeerView::SnapshotComplete { index, term, digest }) => self.telling(
                SnapshotEventView::Complete { from, index, term, digest },
            ),
            Some(PeerView::SnapshotStatus { index, term, ok }) => self.telling(
                SnapshotEventView::Status { from, index, term, ok },
            ),
        }
    }

    /// Frames that arrived, in order.
    pub open spec fn receiving_all(self, frames: Seq<ReceivedView>) -> NodeView
        decreases frames.len(),
    {
        if frames.len() == 0 {
            self
        } else {
            self.receiving_all(frames.drop_last()).receiving(frames.last())
        }
    }
}

impl Node {
    fn step(&mut self, input: Input)
        ensures
            final(self)@ == old(self)@.stepping(input@),
    {
        let ghost held = self.inputs@;
        let ghost one = input@;
        self.inputs.push(input);
        proof {
            assert(input_views(self.inputs@) =~= input_views(held).push(one));
        }
    }

    fn tell(&mut self, event: SnapshotEvent)
        ensures
            final(self)@ == old(self)@.telling(event@),
    {
        let ghost held = self.snapshot_events@;
        let ghost one = event@;
        self.snapshot_events.push(event);
        proof {
            assert(event_views(self.snapshot_events@) =~= event_views(held).push(one));
        }
    }

    fn receive_one(&mut self, received: Received)
        ensures
            final(self)@ == old(self)@.receiving(received@),
    {
        let from: NodeId = received.from;
        match decode::<Peer>(received.frame.as_slice()) {
            Ok(Peer::Raft(message)) => {
                self.step(Input::Message(message));
            },
            Ok(Peer::SnapshotRequest { index, term, position }) => {
                self.tell(SnapshotEvent::Request { from, index, term, position });
            },
            Ok(Peer::SnapshotFile { index, term, file, offset, crc, last, data }) => {
                self.tell(
                    SnapshotEvent::Chunk { from, index, term, file, offset, crc, last, data },
                );
            },
            Ok(Peer::SnapshotChunk { index, term, offset, last, data }) => {
                self.tell(SnapshotEvent::Stream { from, index, term, offset, last, data });
            },
            Ok(Peer::SnapshotComplete { index, term, digest }) => {
                self.tell(SnapshotEvent::Complete { from, index, term, digest });
            },
            Ok(Peer::SnapshotStatus { index, term, ok }) => {
                self.tell(SnapshotEvent::Status { from, index, term, ok });
            },
            Err(_) => {},
        }
    }

    /// Take in the frames that have arrived, oldest first.
    pub fn receive(&mut self, frames: Vec<Received>, turn: &mut Turn)
        ensures
            final(self)@ == old(self)@.receiving_all(received_views(frames@)),
            *final(turn) == (Turn {
                messages_received: counted(old(turn).messages_received, frames@.len()),
                ..*old(turn)
            }),
    {
        let ghost all = received_views(frames@);
        let count: u64 = frames.len() as u64;
        turn.messages_received = turn.messages_received.saturating_add(count);
        proof {
            assert(all.take(0) =~= Seq::empty());
        }
        for frame in it: frames
            invariant
                all == received_views(it.seq()),
                self@ == old(self)@.receiving_all(all.take(it.index() as int)),
        {
            proof {
                let next = all.take(it.index() + 1);
                assert(next.drop_last() =~= all.take(it.index() as int));
                assert(next.last() == frame@);
            }
            self.receive_one(frame);
        }
        proof {
            assert(all.take(all.len() as int) =~= all);
        }
    }
}

// --------------------------------------------------------------- proposing

impl NodeView {
    /// A proposal from the queue. One that cannot be encoded is refused as
    /// overloaded, which is the closest honest answer: it never reaches the log.
    pub open spec fn proposing(self, ctx: u64, proposal: ProposalView) -> NodeView {
        let data = Proposal::encoding(proposal);
        if data.len() <= MAX_PAYLOAD_BYTES {
            self.stepping(InputView::Propose { ctx, data })
        } else {
            NodeView { refusals: self.refusals.push((ctx, DropReason::Overloaded)), ..self }
        }
    }

    /// Proposals from the queue, in order.
    pub open spec fn proposing_all(self, queue: Seq<(u64, ProposalView)>) -> NodeView
        decreases queue.len(),
    {
        if queue.len() == 0 {
            self
        } else {
            self.proposing_all(queue.drop_last()).proposing(queue.last().0, queue.last().1)
        }
    }
}

impl Node {
    /// A node over a log that was opened.
    pub fn new(log: Log) -> (r: Node)
        ensures
            r@ == (NodeView {
                log: log@,
                queue: Seq::empty(),
                answers: Seq::empty(),
                refusals: Seq::empty(),
                reads: Seq::empty(),
                next_ctx: 1,
                progress: Progress::none(),
                snapshot_events: Seq::empty(),
                inputs: Seq::empty(),
            }),
    {
        let r = Node {
            log,
            queue: VecDeque::new(),
            answers: Vec::new(),
            refusals: Vec::new(),
            reads: Vec::new(),
            next_ctx: 1,
            progress: Progress::default(),
            snapshot_events: Vec::new(),
            inputs: Vec::new(),
        };
        proof {
            assert(queue_views(r.queue@) =~= Seq::empty());
            assert(answer_views(r.answers@) =~= Seq::empty());
            assert(event_views(r.snapshot_events@) =~= Seq::empty());
            assert(input_views(r.inputs@) =~= Seq::empty());
        }
        r
    }

    /// The context that the next request gets.
    fn take_ctx(&mut self) -> (ctx: u64)
        ensures
            ctx == old(self)@.next_ctx,
            final(self)@ == (NodeView { next_ctx: counted(ctx, 1), ..old(self)@ }),
    {
        let ctx: u64 = self.next_ctx;
        self.next_ctx = self.next_ctx.saturating_add(1);
        ctx
    }

    /// Accept a client proposal. Returns the context it will be answered under.
    ///
    /// Queued, not stepped. Everything queued between two turns becomes one
    /// `Ready`, which is one append and one sync however many there are.
    pub fn propose(&mut self, proposal: Proposal) -> (ctx: u64)
        ensures
            ctx == old(self)@.next_ctx,
            final(self)@ == (NodeView {
                next_ctx: counted(ctx, 1),
                queue: old(self)@.queue.push((ctx, proposal@)),
                ..old(self)@
            }),
    {
        let ctx: u64 = self.take_ctx();
        let ghost held = self.queue@;
        let ghost one = (ctx, proposal@);
        self.queue.push_back(Queued { ctx, proposal });
        proof {
            assert(queue_views(self.queue@) =~= queue_views(held).push(one));
        }
        ctx
    }

    /// How many proposals are waiting for the next turn.
    pub fn queued(&self) -> (r: usize)
        ensures
            r == self@.queue.len(),
    {
        self.queue.len()
    }

    /// Step every queued proposal into the core, so that they share one `Ready`.
    pub fn drain_queue(&mut self)
        ensures
            final(self)@ == (NodeView { queue: Seq::empty(), ..old(self)@ }).proposing_all(
                old(self)@.queue,
            ),
    {
        let mut waiting: VecDeque<Queued> = VecDeque::new();
        core::mem::swap(&mut waiting, &mut self.queue);
        let ghost all = queue_views(waiting@);
        let ghost empty = NodeView { queue: Seq::empty(), ..old(self)@ };
        let ghost mut done: int = 0;
        proof {
            assert(queue_views(self.queue@) =~= Seq::empty());
            assert(all.take(0) =~= Seq::empty());
            assert(queue_views(waiting@) =~= all.skip(0));
        }
        loop
            invariant
                0 <= done <= all.len(),
                queue_views(waiting@) == all.skip(done),
                self@ == empty.proposing_all(all.take(done)),
            ensures
                done == all.len(),
                self@ == empty.proposing_all(all.take(done)),
            decreases waiting@.len(),
        {
            let ghost held = waiting@;
            match waiting.pop_front() {
                Some(queued) => {
                    proof {
                        assert(queue_views(held)[0] == (queued.ctx, queued.proposal@));
                        assert(queue_views(held).len() == all.len() - done);
                        let next = all.take(done + 1);
                        assert(next.drop_last() =~= all.take(done));
                        assert(next.last() == all.skip(done)[0]);
                        assert(queue_views(waiting@) =~= queue_views(held).skip(1));
                        assert(all.skip(done).skip(1) =~= all.skip(done + 1));
                    }
                    self.propose_one(queued);
                    proof {
                        done = done + 1;
                    }
                },
                None => {
                    proof {
                        assert(all.skip(done).len() == 0);
                    }
                    break;
                },
            }
        }
        proof {
            assert(all.take(all.len() as int) =~= all);
        }
    }

    fn propose_one(&mut self, queued: Queued)
        ensures
            final(self)@ == old(self)@.proposing(queued.ctx, queued.proposal@),
    {
        match encode(&queued.proposal) {
            Ok(data) => {
                self.step(Input::Propose { ctx: queued.ctx, data });
            },
            Err(_) => {
                self.refusals.push((queued.ctx, DropReason::Overloaded));
            },
        }
    }

    /// Ask for a linearizable read. The core confirms that it is still the
    /// leader, and then reports the index the read must see through
    /// [`Node::take_reads`].
    pub fn read_index(&mut self, ctx: u64)
        ensures
            final(self)@ == old(self)@.stepping(InputView::ReadIndex { ctx }),
    {
        self.step(Input::ReadIndex { ctx });
    }

    /// Propose one operator-requested membership change, encoded. Returns the
    /// context it goes under; whether the core accepts it is the core's answer to
    /// being stepped.
    pub fn propose_conf_change(&mut self, change: Vec<u8>) -> (ctx: u64)
        ensures
            ctx == old(self)@.next_ctx,
            final(self)@ == (NodeView { next_ctx: counted(ctx, 1), ..old(self)@ }).stepping(
                InputView::ProposeConfChange { ctx, change: change@ },
            ),
    {
        let ctx: u64 = self.take_ctx();
        self.step(Input::ProposeConfChange { ctx, change });
        ctx
    }

    pub fn transfer_leader(&mut self, to: NodeId)
        ensures
            final(self)@ == old(self)@.stepping(InputView::TransferLeader { to }),
    {
        self.step(Input::TransferLeader { to });
    }

    pub fn report_snapshot(&mut self, peer: NodeId, ok: bool)
        ensures
            final(self)@ == old(self)@.stepping(InputView::ReportSnapshotStatus { peer, ok }),
    {
        self.step(Input::ReportSnapshotStatus { peer, ok });
    }

    /// Advance the node's own clock by one tick.
    pub fn tick(&mut self)
        ensures
            final(self)@ == old(self)@.stepping(InputView::Tick),
    {
        self.step(Input::Tick);
    }

    /// Recreate an out-of-band offer whose transfer manifest survived this
    /// process. The next turn emits a fresh `InstallOffered` with a valid Ready
    /// number, while the receiver resumes from the staged byte positions.
    pub fn resume_snapshot_offer(&mut self, from: NodeId, id: NodeId, term: Term, meta: SnapshotMeta)
        ensures
            final(self)@ == old(self)@.stepping(
                InputView::Message(
                    MessageView {
                        from,
                        to: id,
                        term,
                        body: MessageBodyView::SnapshotOffer { meta: meta@ },
                    },
                ),
            ),
    {
        let message = Message { from, to: id, term, body: MessageBody::SnapshotOffer { meta } };
        self.step(Input::Message(message));
    }
}

// -------------------------------------------------------------- one `Ready`

/// A log after the truncation that new entries call for: where the first of them
/// is at or below what the log holds, everything from it on goes.
pub open spec fn made_room(log: LogView, entries: Seq<EntryView>) -> Result<LogView, ErrorView> {
    if entries.len() > 0 && entries[0].index <= log.last_index {
        log.with_truncation(entries[0].index)
    } else {
        Ok(log)
    }
}

/// A log with a hard state set, where there is one to set.
pub open spec fn maybe_hard_state(log: LogView, hs: Option<HardState>) -> Result<
    LogView,
    ErrorView,
> {
    match hs {
        Some(hs) => log.with_hard_state(hs),
        None => Ok(log),
    }
}

/// A log with what a `Ready` asks for on it: entries, then hard state, then one
/// sync covering both.
pub open spec fn persisted(log: LogView, entries: Seq<EntryView>, hs: Option<HardState>) -> (
    LogView,
    Option<ErrorView>,
) {
    match made_room(log, entries) {
        Err(e) => (log, Some(e)),
        Ok(room) => {
            let (appended, refused) = room.appended(entries);
            if refused is Some {
                (appended, refused)
            } else {
                match maybe_hard_state(appended, hs) {
                    Err(e) => (appended, Some(e)),
                    Ok(set) => (set.synced(), None),
                }
            }
        },
    }
}

/// Whether a log takes the entries of a `Ready`, whatever becomes of the hard state
/// after them.
pub open spec fn takes_entries(log: LogView, entries: Seq<EntryView>) -> bool {
    &&& made_room(log, entries) is Ok
    &&& made_room(log, entries)->Ok_0.appended(entries).1 is None
}

/// The last of some entries, by index and term.
pub open spec fn last_of(entries: Seq<EntryView>) -> Option<(Index, Term)> {
    if entries.len() > 0 {
        Some((entries.last().index, entries.last().term))
    } else {
        None
    }
}

/// Something a `Ready` has a host do.
#[derive(Debug)]
pub enum Step {
    /// Do this to the log's directory.
    Disk(Effect),
    /// Hand this frame to the transport.
    Send { to: NodeId, frame: Vec<u8> },
    /// Stop here: the next message cannot be sent, and this says why.
    Fail(String),
}

/// What a [`Step`] stands for.
pub enum StepView {
    Disk(EffectView),
    Send { to: NodeId, frame: Seq<u8> },
    Fail(Seq<char>),
}

impl View for Step {
    type V = StepView;

    open spec fn view(&self) -> StepView {
        match self {
            Step::Disk(effect) => StepView::Disk(effect@),
            Step::Send { to, frame } => StepView::Send { to: *to, frame: frame@ },
            Step::Fail(why) => StepView::Fail(why@),
        }
    }
}

pub open spec fn step_views(steps: Seq<Step>) -> Seq<StepView> {
    steps.map_values(|s: Step| s@)
}

/// What is done to the log's directory.
pub open spec fn disk_steps(effects: Seq<EffectView>) -> Seq<StepView> {
    effects.map_values(|e: EffectView| StepView::Disk(e))
}

/// A consensus message as a frame.
#[verifier::opaque]
pub open spec fn raft_frame(message: MessageView) -> Seq<u8> {
    Peer::encoding(PeerView::Raft(message))
}

/// What handing one message to the transport takes: its frame goes to whom it is
/// for, unless it is too large for one.
pub open spec fn send_step(message: MessageView) -> StepView {
    let frame = raft_frame(message);
    if frame.len() <= MAX_PAYLOAD_BYTES {
        StepView::Send { to: message.to, frame }
    } else {
        StepView::Fail(too_large_text(frame.len()))
    }
}

/// What is handed to the transport: each message in turn, up to one that cannot be
/// sent.
pub open spec fn send_steps(messages: Seq<MessageView>) -> Seq<StepView>
    decreases messages.len(),
{
    if messages.len() == 0 {
        Seq::empty()
    } else {
        let before = send_steps(messages.drop_last());
        if all_sendable(messages.drop_last()) {
            before.push(send_step(messages.last()))
        } else {
            before
        }
    }
}

/// Whether every message is one that can be encoded.
pub open spec fn all_sendable(messages: Seq<MessageView>) -> bool {
    forall|i: int|
        0 <= i < messages.len() ==> raft_frame(#[trigger] messages[i]).len() <= MAX_PAYLOAD_BYTES
}

/// Messages after one that cannot be sent are not sent either.
proof fn lemma_sends_stop(messages: Seq<MessageView>, n: int)
    requires
        0 <= n <= messages.len(),
        !all_sendable(messages.take(n)),
    ensures
        send_steps(messages) == send_steps(messages.take(n)),
    decreases messages.len() - n,
{
    if n == messages.len() {
        assert(messages.take(n) =~= messages);
    } else {
        let more = messages.take(n + 1);
        assert(more.drop_last() =~= messages.take(n));
        let i = choose|i: int|
            0 <= i < n && raft_frame(#[trigger] messages.take(n)[i]).len() > MAX_PAYLOAD_BYTES;
        assert(more[i] == messages.take(n)[i]);
        lemma_sends_stop(messages, n + 1);
    }
}

/// A consensus message as a frame, or why it cannot be one.
fn encode_message(message: &Message) -> (r: Result<Vec<u8>, String>)
    ensures
        match r {
            Ok(frame) => {
                &&& frame@ == raft_frame(message@)
                &&& frame@.len() <= MAX_PAYLOAD_BYTES
            },
            Err(text) => {
                &&& raft_frame(message@).len() > MAX_PAYLOAD_BYTES
                &&& text@ == too_large_text(raft_frame(message@).len())
            },
        },
{
    proof {
        reveal(raft_frame);
    }
    match encode(&Peer::Raft(message.clone())) {
        Ok(frame) => Ok(frame),
        Err(e) => Err(e.message()),
    }
}

/// Add what is handed to the transport.
fn push_sends(steps: &mut Vec<Step>, messages: &[Message])
    ensures
        step_views(final(steps)@) == step_views(old(steps)@) + send_steps(models(messages@)),
{
    let ghost views = models(messages@);
    let ghost before = step_views(steps@);
    let mut i: usize = 0;
    proof {
        assert(views.take(0) =~= Seq::empty());
        assert(before + send_steps(views.take(0)) =~= before);
    }
    while i < messages.len()
        invariant
            i <= messages@.len(),
            views == models(messages@),
            all_sendable(views.take(i as int)),
            before == step_views(old(steps)@),
            step_views(steps@) == before + send_steps(views.take(i as int)),
        decreases messages@.len() - i,
    {
        let to: NodeId = messages[i].to;
        let encoded = encode_message(&messages[i]);
        let fails: bool = encoded.is_err();
        let step = match encoded {
            Ok(frame) => Step::Send { to, frame },
            Err(why) => Step::Fail(why),
        };
        let ghost held = steps@;
        let ghost one = step@;
        proof {
            assert(views[i as int] == messages@[i as int]@);
            assert(one == send_step(views[i as int]));
            assert(views.take(i + 1).drop_last() =~= views.take(i as int));
        }
        steps.push(step);
        proof {
            assert(step_views(steps@) =~= step_views(held).push(one));
            assert(step_views(steps@) =~= before + send_steps(views.take(i + 1)));
        }
        i += 1;
        proof {
            assert(step_views(steps@) == before + send_steps(views.take(i as int)));
        }
        if fails {
            proof {
                assert(views.take(i as int)[i - 1] == views[i - 1]);
                assert(!all_sendable(views.take(i as int)));
                lemma_sends_stop(views, i as int);
            }
            return;
        }
        proof {
            let (more, less) = (views.take(i as int), views.take(i - 1));
            assert forall|j: int| 0 <= j < more.len() implies raft_frame(#[trigger] more[j]).len()
                <= MAX_PAYLOAD_BYTES by {
                if j < i - 1 {
                    assert(more[j] == less[j]);
                }
            }
        }
    }
    proof {
        assert(views.take(views.len() as int) =~= views);
    }
}

impl Node {
    /// Make a `Ready` durable, and say what to do about it: everything that is
    /// done to the directory, and only then the messages. A vote response that
    /// went out first would let a crashed node grant a second vote in the same
    /// term. A message that is too large to send ends the steps: what comes before
    /// it is still to be done.
    ///
    /// Where the log refuses something, what it asked for until then is left in it
    /// and still to be done.
    pub fn pump(&mut self, ready: &Ready, turn: &mut Turn) -> (r: Result<Vec<Step>, NodeError>)
        requires
            old(self)@.log.segments.len() > 0,
        ensures
            ({
                let (log, refused) = persisted(
                    old(self)@.log,
                    models(ready.entries@),
                    ready.hard_state,
                );
                match r {
                    Ok(steps) => {
                        &&& refused is None
                        &&& step_views(steps@) == disk_steps(log.effects) + send_steps(
                            models(ready.messages@),
                        )
                        &&& final(self)@ == (NodeView {
                            log: LogView { effects: Seq::empty(), ..log },
                            ..old(self)@
                        })
                        &&& *final(turn) == (Turn {
                            readies: counted(old(turn).readies, 1),
                            entries_appended: counted(
                                old(turn).entries_appended,
                                ready.entries@.len(),
                            ),
                            ..*old(turn)
                        })
                    },
                    Err(NodeError::Log(e)) => {
                        &&& refused == Some(e@)
                        &&& final(self)@ == (NodeView { log, ..old(self)@ })
                        &&& *final(turn) == (Turn {
                            readies: counted(old(turn).readies, 1),
                            entries_appended: if takes_entries(
                                old(self)@.log,
                                models(ready.entries@),
                            ) {
                                counted(old(turn).entries_appended, ready.entries@.len())
                            } else {
                                old(turn).entries_appended
                            },
                            ..*old(turn)
                        })
                    },
                    Err(_) => false,
                }
            }),
    {
        let ghost entries = models(ready.entries@);
        let count: u64 = ready.entries.len() as u64;
        turn.readies = turn.readies.saturating_add(1);
        if ready.entries.len() > 0 {
            let from: Index = ready.entries[0].index;
            proof {
                assert(entries[0] == ready.entries@[0]@);
            }
            if from <= self.log.last_index() {
                if let Err(e) = self.log.truncate(from) {
                    return Err(NodeError::Log(e));
                }
            }
        }
        let ghost room = self.log@;
        if let Err(e) = self.log.append(ready.entries.as_slice()) {
            return Err(NodeError::Log(e));
        }
        turn.entries_appended = turn.entries_appended.saturating_add(count);
        proof {
            lemma_append_keeps_segments(room, entries);
        }
        if let Some(hs) = ready.hard_state {
            if let Err(e) = self.log.set_hard_state(hs) {
                return Err(NodeError::Log(e));
            }
        }
        self.log.sync();
        let ghost synced = self.log@;
        let effects = self.log.take_effects();
        let ghost asked = effect_views(effects@);
        let mut steps: Vec<Step> = Vec::new();
        for effect in it: effects
            invariant
                effect_views(it.seq()) == asked,
                steps@.len() == it.index(),
                forall|j: int|
                    0 <= j < steps@.len() ==> (#[trigger] steps@[j])@ == StepView::Disk(asked[j]),
        {
            proof {
                assert(asked[it.index() as int] == effect@);
            }
            steps.push(Step::Disk(effect));
        }
        proof {
            assert(step_views(steps@) =~= disk_steps(asked));
        }
        push_sends(&mut steps, ready.messages.as_slice());
        Ok(steps)
    }

    /// The transport took a frame, or it did not. An unreachable peer is a
    /// network condition, not an error: the core is told, and consensus is built
    /// for exactly this.
    pub fn sent(&mut self, to: NodeId, ok: bool, turn: &mut Turn)
        ensures
            ok ==> final(self)@ == old(self)@ && *final(turn) == (Turn {
                messages_sent: counted(old(turn).messages_sent, 1),
                ..*old(turn)
            }),
            !ok ==> final(self)@ == old(self)@.stepping(InputView::ReportUnreachable { peer: to })
                && *final(turn) == *old(turn),
    {
        if ok {
            turn.messages_sent = turn.messages_sent.saturating_add(1);
        } else {
            self.step(Input::ReportUnreachable { peer: to });
        }
    }
}

/// Appending keeps the segments a log has.
proof fn lemma_append_keeps_segments(log: LogView, entries: Seq<EntryView>)
    requires
        log.segments.len() > 0,
    ensures
        log.appended(entries).0.segments.len() > 0,
{
    if entries.len() > 0 {
        match crate::log::journal::batches(entries, log.opts.max_record_bytes) {
            Ok(records) => {
                lemma_batches_keep_segments(log, records);
            },
            Err(_) => {},
        }
    }
}

proof fn lemma_batches_keep_segments(log: LogView, records: Seq<Seq<EntryView>>)
    requires
        log.segments.len() > 0,
    ensures
        log.staged_batches(records).0.segments.len() > 0,
    decreases records.len(),
{
    if records.len() > 0 {
        match log.staged(crate::log::record::RecordView::Entries(records[0])) {
            Ok(next) => {
                lemma_batches_keep_segments(
                    LogView { last_index: records[0].last().index, ..next },
                    records.skip(1),
                );
            },
            Err(_) => {},
        }
    }
}

// ----------------------------------------------------------------- applying

/// What moves the applied index and nothing else.
pub open spec fn no_change() -> ProposalView {
    ProposalView { stamped_ms: 0, session: None, body: ProposalBodyView::KeepAlive }
}

/// What a committed entry asks of the state machine. A no-op and a configuration
/// change move the applied index and nothing else; they still go through the
/// store, or the log would hand them back forever.
pub open spec fn proposal_of(entry: EntryView) -> Option<ProposalView> {
    match entry.payload {
        EntryPayloadView::Noop => Some(no_change()),
        EntryPayloadView::ConfChange(_) => Some(no_change()),
        EntryPayloadView::Normal(data) => decoded::<Proposal>(data),
    }
}

/// What the views of some proposals are, each under its index.
pub open spec fn proposal_views(proposals: Seq<(Index, Proposal)>) -> Seq<(Index, ProposalView)> {
    proposals.map_values(|p: (Index, Proposal)| (p.0, p.1@))
}

/// What committed entries ask of the state machine, up to one that does not
/// decode.
pub fn proposals(entries: &[Entry]) -> (r: Result<Vec<(Index, Proposal)>, NodeError>)
    ensures
        match r {
            Ok(proposals) => {
                &&& proposals@.len() == entries@.len()
                &&& forall|i: int|
                    0 <= i < entries@.len() ==> {
                        &&& (#[trigger] proposals@[i]).0 == entries@[i].index
                        &&& proposal_of(entries@[i]@) == Some(proposals@[i].1@)
                    }
            },
            Err(NodeError::MalformedEntry { index, why }) => exists|i: int|
                {
                    &&& 0 <= i < entries@.len()
                    &&& (#[trigger] entries@[i]).index == index
                    &&& proposal_of(entries@[i]@) is None
                    &&& entries@[i]@.payload is Normal
                    &&& says_why_not::<Proposal>(entries@[i]@.payload->Normal_0, why@)
                    &&& forall|j: int|
                        0 <= j < i ==> proposal_of(#[trigger] entries@[j]@) is Some
                },
            Err(_) => false,
        },
{
    let mut proposals: Vec<(Index, Proposal)> = Vec::new();
    let mut i: usize = 0;
    while i < entries.len()
        invariant
            i <= entries@.len(),
            proposals@.len() == i,
            forall|j: int|
                0 <= j < i ==> {
                    &&& (#[trigger] proposals@[j]).0 == entries@[j].index
                    &&& proposal_of(entries@[j]@) == Some(proposals@[j].1@)
                },
        decreases entries@.len() - i,
    {
        let entry = &entries[i];
        let proposal = match &entry.payload {
            EntryPayload::Normal(data) => match decode::<Proposal>(data.as_slice()) {
                Ok(proposal) => proposal,
                Err(e) => {
                    proof {
                        assert(entries@[i as int].index == entry.index);
                        assert forall|j: int| 0 <= j < i implies proposal_of(
                            #[trigger] entries@[j]@,
                        ) is Some by {
                            assert(proposals@[j].0 == entries@[j].index);
                        }
                    }
                    return Err(
                        NodeError::MalformedEntry { index: entry.index, why: e.message() },
                    );
                },
            },
            _ => Proposal { stamped_ms: 0, session: None, body: ProposalBody::KeepAlive },
        };
        proposals.push((entry.index, proposal));
        i += 1;
    }
    Ok(proposals)
}

/// The answers that applied entries give: one for each that a client proposed,
/// under the session pair or the nonce it carried, and not by its position. A
/// leadership change can drop a proposal and renumber what follows it.
pub open spec fn answers_to(
    entries: Seq<EntryView>,
    proposals: Seq<(Index, ProposalView)>,
    responses: Seq<ResponseView>,
) -> Seq<AnswerView>
    decreases entries.len(),
{
    if entries.len() == 0 || entries.len() != proposals.len() || entries.len() != responses.len() {
        Seq::empty()
    } else {
        let before = answers_to(
            entries.drop_last(),
            proposals.drop_last(),
            responses.drop_last(),
        );
        if entries.last().payload is Normal {
            let proposal = proposals.last().1;
            before.push(
                AnswerView {
                    index: entries.last().index,
                    session: proposal.session,
                    registration: match proposal.body {
                        ProposalBodyView::Register { nonce } => Some(nonce),
                        _ => None,
                    },
                    response: responses.last(),
                },
            )
        } else {
            before
        }
    }
}

impl Node {
    /// The state machine applied a batch: keep the answers, and say how far it
    /// got.
    pub fn apply(
        &mut self,
        entries: &[Entry],
        proposals: &[(Index, Proposal)],
        responses: Vec<Response>,
        turn: &mut Turn,
    ) -> (r: Option<Index>)
        requires
            entries@.len() == proposals@.len() == responses@.len(),
        ensures
            final(self)@ == (NodeView {
                answers: old(self)@.answers + answers_to(
                    models(entries@),
                    proposal_views(proposals@),
                    models(responses@),
                ),
                ..old(self)@
            }),
            *final(turn) == (Turn {
                entries_applied: counted(old(turn).entries_applied, entries@.len()),
                ..*old(turn)
            }),
            r == (if entries@.len() > 0 {
                Some(entries@.last().index)
            } else {
                None
            }),
    {
        let ghost es = models(entries@);
        let ghost ps = proposal_views(proposals@);
        let ghost rs = models(responses@);
        let ghost held = self@.answers;
        proof {
            assert(held + answers_to(es.take(0), ps.take(0), rs.take(0)) =~= held);
        }
        let mut i: usize = 0;
        for response in it: responses
            invariant
                rs == models(it.seq()),
                i == it.index(),
                entries@.len() == proposals@.len() == rs.len(),
                es == models(entries@),
                ps == proposal_views(proposals@),
                held == old(self)@.answers,
                self@ == (NodeView {
                    answers: held + answers_to(
                        es.take(it.index() as int),
                        ps.take(it.index() as int),
                        rs.take(it.index() as int),
                    ),
                    ..old(self)@
                }),
        {
            let ghost k = it.index() as int;
            proof {
                assert(es.take(k + 1).drop_last() =~= es.take(k));
                assert(ps.take(k + 1).drop_last() =~= ps.take(k));
                assert(rs.take(k + 1).drop_last() =~= rs.take(k));
                assert(es.take(k + 1).last() == entries@[k]@);
                assert(ps.take(k + 1).last() == (proposals@[k].0, proposals@[k].1@));
                assert(rs.take(k + 1).last() == response@);
            }
            if let EntryPayload::Normal(_) = &entries[i].payload {
                let registration = match &proposals[i].1.body {
                    ProposalBody::Register { nonce } => Some(*nonce),
                    _ => None,
                };
                let answer = Answer {
                    index: entries[i].index,
                    session: proposals[i].1.session,
                    registration,
                    response,
                };
                let ghost before = self.answers@;
                let ghost one = answer@;
                self.answers.push(answer);
                proof {
                    assert(answer_views(self.answers@) =~= answer_views(before).push(one));
                    let earlier = answers_to(es.take(k), ps.take(k), rs.take(k));
                    assert((held + earlier).push(one) =~= held + earlier.push(one));
                }
            }
            i += 1;
        }
        proof {
            assert(es.take(es.len() as int) =~= es);
            assert(ps.take(ps.len() as int) =~= ps);
            assert(rs.take(rs.len() as int) =~= rs);
        }
        turn.entries_applied = turn.entries_applied.saturating_add(entries.len() as u64);
        if entries.len() > 0 {
            Some(entries[entries.len() - 1].index)
        } else {
            None
        }
    }
}

// ---------------------------------------------------------------- reporting

impl Node {
    /// Report what got done of a `Ready`: what was confirmed and refused is kept
    /// for the clients, an offered snapshot is handed to the host where the
    /// leader that offers it is known, and the watermarks go back to the core.
    pub fn finish(
        &mut self,
        ready: Ready,
        leader: Option<NodeId>,
        applied: Option<Index>,
        turn: &mut Turn,
    ) -> (r: Advance)
        ensures
            final(self)@ == (NodeView {
                reads: old(self)@.reads + ready.read_states@,
                refusals: old(self)@.refusals + ready.proposals_dropped@,
                snapshot_events: match (ready.snapshot_to_install, leader) {
                    (Some(meta), Some(from)) => old(self)@.snapshot_events.push(
                        SnapshotEventView::InstallOffered {
                            ready_number: ready.number,
                            from,
                            meta: meta@,
                        },
                    ),
                    _ => old(self)@.snapshot_events,
                },
                ..old(self)@
            }),
            *final(turn) == (Turn {
                proposals_dropped: counted(
                    old(turn).proposals_dropped,
                    ready.proposals_dropped@.len(),
                ),
                ..*old(turn)
            }),
            r == (Advance {
                ready_number: ready.number,
                persisted: last_of(models(ready.entries@)),
                applied,
                snapshot_installed: None,
            }),
    {
        let mut ready = ready;
        let dropped: u64 = ready.proposals_dropped.len() as u64;
        self.reads.append(&mut ready.read_states);
        self.refusals.append(&mut ready.proposals_dropped);
        turn.proposals_dropped = turn.proposals_dropped.saturating_add(dropped);
        let n: usize = ready.entries.len();
        let persisted = if n > 0 {
            Some((ready.entries[n - 1].index, ready.entries[n - 1].term))
        } else {
            None
        };
        proof {
            if n > 0 {
                assert(models(ready.entries@).last() == ready.entries@.last()@);
            }
        }
        if let Some(meta) = ready.snapshot_to_install {
            if let Some(from) = leader {
                self.tell(
                    SnapshotEvent::InstallOffered { ready_number: ready.number, from, meta },
                );
            }
        }
        Advance { ready_number: ready.number, persisted, applied, snapshot_installed: None }
    }

    /// A turn is over.
    pub fn finish_turn(&mut self, turn: Turn)
        ensures
            final(self)@ == (NodeView {
                progress: old(self)@.progress.after(turn),
                ..old(self)@
            }),
    {
        self.progress.add_turn(turn);
    }

    /// The state store now contains the snapshot and the log floor is durable:
    /// what the core is told.
    pub fn snapshot_installed(ready_number: u64, meta: SnapshotMeta) -> (r: Advance)
        ensures
            r == (Advance {
                ready_number,
                persisted: None,
                applied: None,
                snapshot_installed: Some(meta),
            }),
    {
        Advance { ready_number, persisted: None, applied: None, snapshot_installed: Some(meta) }
    }
}

// -------------------------------------------------------------- checkpoints

/// A log whose floor was durably moved to a snapshot.
pub open spec fn floored(log: LogView, meta: SnapshotMetaView) -> Result<LogView, ErrorView> {
    match log.with_snapshot(meta) {
        Ok(next) => Ok(next.synced()),
        Err(e) => Err(e),
    }
}

impl Node {
    /// First half of an install. This must precede replacing the state store; a
    /// crash between the two is recoverable in this direction.
    pub fn persist_snapshot_floor(&mut self, meta: &SnapshotMeta) -> (r: Result<(), NodeError>)
        requires
            old(self)@.log.segments.len() > 0,
        ensures
            match r {
                Ok(()) => {
                    &&& floored(old(self)@.log, meta@) is Ok
                    &&& final(self)@ == (NodeView {
                        log: floored(old(self)@.log, meta@)->Ok_0,
                        ..old(self)@
                    })
                },
                Err(NodeError::Log(e)) => {
                    &&& floored(old(self)@.log, meta@) == Err::<LogView, ErrorView>(e@)
                    &&& final(self)@ == old(self)@
                },
                Err(_) => false,
            },
    {
        if let Err(e) = self.log.install_snapshot(meta) {
            return Err(NodeError::Log(e));
        }
        self.log.sync();
        Ok(())
    }

    /// The checkpoint bytes already exist. Durably move the log floor, drop what
    /// it covers, then tell the core it may release the covered prefix.
    pub fn checkpoint_taken(&mut self, meta: SnapshotMeta) -> (r: Result<(), NodeError>)
        requires
            old(self)@.log.segments.len() > 0,
        ensures
            match r {
                Ok(()) => {
                    &&& floored(old(self)@.log, meta@) is Ok
                    &&& floored(old(self)@.log, meta@)->Ok_0.compacted(meta.index).1 is Ok
                    &&& final(self)@ == (NodeView {
                        log: floored(old(self)@.log, meta@)->Ok_0.compacted(meta.index).0,
                        ..old(self)@
                    }).stepping(InputView::SnapshotTaken { meta: meta@ })
                },
                Err(NodeError::Log(e)) => match floored(old(self)@.log, meta@) {
                    Err(refused) => e@ == refused && final(self)@ == old(self)@,
                    Ok(log) => {
                        &&& log.compacted(meta.index).1 == Err::<nat, ErrorView>(e@)
                        &&& final(self)@ == (NodeView {
                            log: log.compacted(meta.index).0,
                            ..old(self)@
                        })
                    },
                },
                Err(_) => false,
            },
    {
        if let Err(e) = self.persist_snapshot_floor(&meta) {
            return Err(e);
        }
        if let Err(e) = self.log.compact_to(meta.index) {
            return Err(NodeError::Log(e));
        }
        self.step(Input::SnapshotTaken { meta });
        Ok(())
    }
}

impl Node {
    /// Metadata for a checkpoint of exactly what the state machine has applied,
    /// where the core knows the term of that index.
    pub fn checkpoint_meta(applied: Index, term: Option<Term>, conf: &ConfState) -> (r: Option<
        SnapshotMeta,
    >)
        ensures
            match (term, r) {
                (Some(term), Some(meta)) => meta@ == (SnapshotMetaView {
                    index: applied,
                    term,
                    conf: conf@,
                }),
                (None, None) => true,
                _ => false,
            },
    {
        match term {
            Some(term) => Some(SnapshotMeta { index: applied, term, conf: conf.clone() }),
            None => None,
        }
    }
}

/// How far a peer has matched, by the first report of it.
pub open spec fn matched_of(progress: Seq<(NodeId, Index)>, node: NodeId) -> Option<Index>
    decreases progress.len(),
{
    if progress.len() == 0 {
        None
    } else if progress[0].0 == node {
        Some(progress[0].1)
    } else {
        matched_of(progress.skip(1), node)
    }
}

impl Node {
    /// Whether a node is a learner that holds everything that is committed.
    pub fn learner_caught_up(
        learners: &[NodeId],
        progress: &[(NodeId, Index)],
        commit: Index,
        node: NodeId,
    ) -> (r: bool)
        ensures
            r == (learners@.contains(node) && matched_of(progress@, node) is Some && matched_of(
                progress@,
                node,
            )->0 >= commit),
    {
        let mut is_learner = false;
        let mut i: usize = 0;
        while i < learners.len()
            invariant
                i <= learners@.len(),
                is_learner == learners@.take(i as int).contains(node),
            decreases learners@.len() - i,
        {
            proof {
                let next = learners@.take(i + 1);
                let here = learners@.take(i as int);
                assert(next =~= here.push(learners@[i as int]));
                if here.contains(node) {
                    let k = choose|k: int| 0 <= k < here.len() && here[k] == node;
                    assert(next[k] == node);
                }
                if learners@[i as int] == node {
                    assert(next[i as int] == node);
                }
                if next.contains(node) && !here.contains(node) {
                    let k = choose|k: int| 0 <= k < next.len() && next[k] == node;
                    if k < i {
                        assert(here[k] == node);
                    }
                }
            }
            if learners[i] == node {
                is_learner = true;
            }
            i += 1;
        }
        proof {
            assert(learners@.take(learners@.len() as int) =~= learners@);
        }
        if !is_learner {
            return false;
        }
        let mut j: usize = 0;
        proof {
            assert(progress@.skip(0) =~= progress@);
        }
        while j < progress.len()
            invariant
                j <= progress@.len(),
                matched_of(progress@, node) == matched_of(progress@.skip(j as int), node),
                learners@.contains(node),
            decreases progress@.len() - j,
        {
            proof {
                assert(progress@.skip(j as int)[0] == progress@[j as int]);
                assert(progress@.skip(j as int).skip(1) =~= progress@.skip(j + 1));
            }
            if progress[j].0 == node {
                return progress[j].1 >= commit;
            }
            j += 1;
        }
        false
    }
}

impl Node {
    /// A message for a peer, as a frame.
    pub fn send_peer(message: &Peer) -> (r: Result<Vec<u8>, NodeError>)
        ensures
            match r {
                Ok(frame) => {
                    &&& frame@ == Peer::encoding(message@)
                    &&& frame@.len() <= MAX_PAYLOAD_BYTES
                },
                Err(NodeError::Transport(text)) => {
                    &&& Peer::encoding(message@).len() > MAX_PAYLOAD_BYTES
                    &&& text@ == too_large_text(Peer::encoding(message@).len())
                },
                Err(_) => false,
            },
    {
        match encode(message) {
            Ok(frame) => Ok(frame),
            Err(e) => Err(NodeError::Transport(e.message())),
        }
    }
}

// ------------------------------------------------------------------- taking

impl Node {
    pub fn progress(&self) -> (r: Progress)
        ensures
            r == self@.progress,
    {
        self.progress
    }

    pub fn log(&self) -> (r: &Log)
        ensures
            r@ == self@.log,
    {
        &self.log
    }

    /// What the log asks of its directory outside a `Ready`.
    pub fn take_effects(&mut self) -> (r: Vec<Effect>)
        ensures
            effect_views(r@) == old(self)@.log.effects,
            final(self)@ == (NodeView {
                log: LogView { effects: Seq::empty(), ..old(self)@.log },
                ..old(self)@
            }),
    {
        self.log.take_effects()
    }

    /// What to step into the core since the last call, oldest first.
    pub fn take_inputs(&mut self) -> (r: Vec<Input>)
        ensures
            input_views(r@) == old(self)@.inputs,
            final(self)@ == (NodeView { inputs: Seq::empty(), ..old(self)@ }),
    {
        let mut r: Vec<Input> = Vec::new();
        core::mem::swap(&mut r, &mut self.inputs);
        proof {
            assert(input_views(self.inputs@) =~= Seq::empty());
        }
        r
    }

    pub fn take_snapshot_events(&mut self) -> (r: Vec<SnapshotEvent>)
        ensures
            event_views(r@) == old(self)@.snapshot_events,
            final(self)@ == (NodeView { snapshot_events: Seq::empty(), ..old(self)@ }),
    {
        let mut r: Vec<SnapshotEvent> = Vec::new();
        core::mem::swap(&mut r, &mut self.snapshot_events);
        proof {
            assert(event_views(self.snapshot_events@) =~= Seq::empty());
        }
        r
    }

    /// Take the responses produced since the last call.
    pub fn take_answers(&mut self) -> (r: Vec<Answer>)
        ensures
            answer_views(r@) == old(self)@.answers,
            final(self)@ == (NodeView { answers: Seq::empty(), ..old(self)@ }),
    {
        let mut r: Vec<Answer> = Vec::new();
        core::mem::swap(&mut r, &mut self.answers);
        proof {
            assert(answer_views(self.answers@) =~= Seq::empty());
        }
        r
    }

    /// Reads the core has confirmed since the last call: the context the caller
    /// gave, and the index its answer must reflect.
    pub fn take_reads(&mut self) -> (r: Vec<(u64, Index)>)
        ensures
            r@ == old(self)@.reads,
            final(self)@ == (NodeView { reads: Seq::empty(), ..old(self)@ }),
    {
        let mut r: Vec<(u64, Index)> = Vec::new();
        core::mem::swap(&mut r, &mut self.reads);
        r
    }

    /// Take the refusals produced since the last call.
    pub fn take_refusals(&mut self) -> (r: Vec<(u64, DropReason)>)
        ensures
            r@ == old(self)@.refusals,
            final(self)@ == (NodeView { refusals: Seq::empty(), ..old(self)@ }),
    {
        let mut r: Vec<(u64, DropReason)> = Vec::new();
        core::mem::swap(&mut r, &mut self.refusals);
        r
    }
}

// -------------------------------------------------------------------- laws

/// By the time anything is sent, everything the log was given is durable: no
/// send comes before any write or sync of the log, and nothing that was written
/// is left without a sync.
pub proof fn law_nothing_is_sent_before_it_is_durable(
    log: LogView,
    entries: Seq<EntryView>,
    hs: Option<HardState>,
    messages: Seq<MessageView>,
)
    requires
        persisted(log, entries, hs).1 is None,
    ensures
        ({
            let after = persisted(log, entries, hs).0;
            let steps = disk_steps(after.effects) + send_steps(messages);
            &&& !after.dirty
            &&& after.durable >= after.next_token
            &&& forall|i: int, j: int|
                0 <= i < steps.len() && 0 <= j < steps.len() && (#[trigger] steps[i]) is Send && (
                #[trigger] steps[j]) is Disk ==> j < i
        }),
{
    lemma_sends_write_nothing(messages);
}

/// Handing messages over does nothing to the log's directory.
proof fn lemma_sends_write_nothing(messages: Seq<MessageView>)
    ensures
        forall|i: int|
            0 <= i < send_steps(messages).len() ==> !((#[trigger] send_steps(messages)[i]) is Disk),
    decreases messages.len(),
{
    if messages.len() > 0 {
        lemma_sends_write_nothing(messages.drop_last());
    }
}

/// Every message is handed over, in order, where all can be sent. Where one cannot,
/// every message before it is handed over, and none after it.
pub proof fn law_messages_go_out_up_to_one_that_cannot(messages: Seq<MessageView>)
    ensures
        all_sendable(messages) ==> send_steps(messages) == messages.map_values(
            |m: MessageView| StepView::Send { to: m.to, frame: raft_frame(m) },
        ),
        forall|k: int|
            #![trigger messages[k]]
            {
                &&& 0 <= k < messages.len()
                &&& all_sendable(messages.take(k))
                &&& raft_frame(messages[k]).len() > MAX_PAYLOAD_BYTES
            } ==> send_steps(messages) == messages.take(k).map_values(
                |m: MessageView| StepView::Send { to: m.to, frame: raft_frame(m) },
            ).push(StepView::Fail(too_large_text(raft_frame(messages[k]).len()))),
{
    if all_sendable(messages) {
        lemma_sends_of_sendable(messages);
    }
    assert forall|k: int|
        #![trigger messages[k]]
        {
            &&& 0 <= k < messages.len()
            &&& all_sendable(messages.take(k))
            &&& raft_frame(messages[k]).len() > MAX_PAYLOAD_BYTES
        } implies send_steps(messages) == messages.take(k).map_values(
        |m: MessageView| StepView::Send { to: m.to, frame: raft_frame(m) },
    ).push(StepView::Fail(too_large_text(raft_frame(messages[k]).len()))) by {
        let more = messages.take(k + 1);
        lemma_sends_of_sendable(messages.take(k));
        assert(more.drop_last() =~= messages.take(k));
        assert(more[k] == messages[k]);
        assert(more.last() == messages[k]);
        lemma_sends_stop(messages, k + 1);
    }
}

/// Where all messages can be sent, each of them is handed over.
proof fn lemma_sends_of_sendable(messages: Seq<MessageView>)
    requires
        all_sendable(messages),
    ensures
        send_steps(messages) == messages.map_values(
            |m: MessageView| StepView::Send { to: m.to, frame: raft_frame(m) },
        ),
    decreases messages.len(),
{
    let f = |m: MessageView| StepView::Send { to: m.to, frame: raft_frame(m) };
    if messages.len() == 0 {
        assert(messages.map_values(f) =~= Seq::empty());
    } else {
        let head = messages.drop_last();
        assert forall|i: int| 0 <= i < head.len() implies raft_frame(#[trigger] head[i]).len()
            <= MAX_PAYLOAD_BYTES by {
            assert(head[i] == messages[i]);
        }
        assert(messages[messages.len() - 1] == messages.last());
        lemma_sends_of_sendable(head);
        assert(head.map_values(f).push(f(messages.last())) =~= messages.map_values(f));
    }
}

/// However many entries a `Ready` holds, making it durable is one append, and
/// none where it holds none.
pub proof fn law_a_ready_is_one_append(
    log: LogView,
    entries: Seq<EntryView>,
    hs: Option<HardState>,
)
    requires
        persisted(log, entries, hs).1 is None,
    ensures
        persisted(log, entries, hs).0.appends == (if entries.len() > 0 {
            counted(log.appends, 1)
        } else {
            log.appends
        }),
{
    let room = made_room(log, entries)->Ok_0;
    assert(room.appends == log.appends);
}

/// Every proposal that was queued is stepped into the core or refused, in the
/// order it came, before the core is asked what is ready.
pub proof fn law_a_drained_queue_loses_nothing(node: NodeView, queue: Seq<(u64, ProposalView)>)
    requires
        forall|i: int|
            0 <= i < queue.len() ==> Proposal::encoding((#[trigger] queue[i]).1).len()
                <= MAX_PAYLOAD_BYTES,
    ensures
        node.proposing_all(queue) == (NodeView {
            inputs: node.inputs + queue.map_values(
                |q: (u64, ProposalView)|
                    InputView::Propose { ctx: q.0, data: Proposal::encoding(q.1) },
            ),
            ..node
        }),
    decreases queue.len(),
{
    let f = |q: (u64, ProposalView)|
        InputView::Propose { ctx: q.0, data: Proposal::encoding(q.1) };
    if queue.len() == 0 {
        assert(node.inputs + queue.map_values(f) =~= node.inputs);
    } else {
        let head = queue.drop_last();
        assert(forall|i: int| 0 <= i < head.len() ==> #[trigger] head[i] == queue[i]);
        law_a_drained_queue_loses_nothing(node, head);
        assert(queue[queue.len() - 1] == queue.last());
        assert((node.inputs + head.map_values(f)).push(f(queue.last())) =~= node.inputs
            + queue.map_values(f));
    }
}

} // verus!
