//! A client with more than one request outstanding at a time.
//!
//! It submits, it polls, and the cluster decides the order the answers come back
//! in.
//!
//! ## One session per slot, and why it is not an implementation detail
//!
//! Every in-flight slot holds its own `(client, seq)` session, and that is what
//! makes retrying safe. The exactly-once machinery caches *one* response per
//! session, so a retry of a session's latest sequence number is answered from the
//! cache and anything below it is refused with no answer at all. With a session
//! per slot there is never more than one request outstanding under any one
//! session, so a retry is always a retry of that session's highest sequence
//! number — the one case the cache is built to answer.
//!
//! Submissions come back as labels; answers come back as `(label, outcome)` in
//! whatever order they finish.
//!
//! The pipeline decides; whoever runs it holds the sockets and the clock. Every
//! instant is a number of nanoseconds since some start.

use vstd::prelude::*;
use vstd::string::*;

use crate::api::{
    ApiError, ApiErrorView, ClientId, Command, Consistency, Envelope, Query, Request, RequestId,
    RequestView, Response, ResponseView, SeqNo,
};
use crate::client::{
    endpoint_of, position_of, result_view, ClientError, ClientErrorView, Retry,
};
use crate::raft::NodeId;
use crate::text::{decimal, push_decimal};
use crate::time::{capped, Duration};
use crate::wire::Wire;

verus! {

/// Why a pipeline could not take a request.
#[derive(Debug, PartialEq, Eq)]
pub enum PipelineError {
    /// Every slot is occupied. Poll for an answer and try again; this is
    /// backpressure, not a failure.
    Full(usize),
    /// No session could be opened on any node within the deadline.
    NoSession(String),
}

/// What a pipeline error says.
pub open spec fn pipeline_error_text(e: PipelineError) -> Seq<char> {
    match e {
        PipelineError::Full(depth) => "all "@ + decimal(depth as nat) + " slots are in flight"@,
        PipelineError::NoSession(why) => "no session: "@ + why@,
    }
}

impl PipelineError {
    /// What went wrong, for a person.
    pub fn message(&self) -> (r: String)
        ensures
            r@ == pipeline_error_text(*self),
    {
        let mut out = String::new();
        match self {
            PipelineError::Full(depth) => {
                out.append("all ");
                push_decimal(&mut out, *depth as u64);
                out.append(" slots are in flight");
            },
            PipelineError::NoSession(why) => {
                out.append("no session: ");
                out.append(why.as_str());
            },
        }
        proof {
            assert(out@ =~= pipeline_error_text(*self));
        }
        out
    }
}

/// One finished request.
#[derive(Debug)]
pub struct Completion {
    pub id: RequestId,
    pub result: Result<Response, ClientError>,
}

/// One slot's identity.
#[derive(Debug, Clone, Copy, PartialEq, Eq, Structural)]
pub struct Session {
    pub nonce: u64,
    pub client: Option<ClientId>,
    pub seq: SeqNo,
    /// Whether this slot is holding a request.
    pub busy: bool,
}

/// A request that has gone out and not come back.
#[derive(Debug)]
pub struct Outstanding {
    id: RequestId,
    slot: usize,
    /// Kept verbatim so a resend is the *same* request — the same session pair,
    /// so the state machine recognises it as a retry rather than as a second
    /// command.
    request: Request,
    since: u64,
    /// Registrations are the pipeline's own business and are never handed to the
    /// caller.
    internal: bool,
}

/// What a request that is out stands for.
pub struct OutstandingView {
    pub id: RequestId,
    pub slot: int,
    pub request: RequestView,
    pub since: u64,
    pub internal: bool,
}

impl View for Outstanding {
    type V = OutstandingView;

    closed spec fn view(&self) -> OutstandingView {
        OutstandingView {
            id: self.id,
            slot: self.slot as int,
            request: self.request@,
            since: self.since,
            internal: self.internal,
        }
    }
}

/// A request to put on the wire under a label.
#[derive(Debug)]
pub struct Sending {
    pub id: RequestId,
    pub request: Request,
}

/// What requests to put on the wire stand for.
pub open spec fn sendings(all: Seq<Sending>) -> Seq<(RequestId, RequestView)> {
    all.map_values(|s: Sending| (s.id, s.request@))
}

/// A connection to a cluster with several requests in flight on it.
pub struct Pipeline {
    /// Which node each endpoint is, as far as it has been learned.
    nodes: Vec<Option<NodeId>>,
    next: usize,
    sessions: Vec<Session>,
    /// In the order of their labels.
    outstanding: Vec<Outstanding>,
    next_id: RequestId,
    retry: Retry,
    /// How long one request may stay outstanding before the caller is told it
    /// will not be answered. Not the same thing as the retry deadline: a pipeline
    /// resends on a redirect for as long as this allows.
    request_timeout: Duration,
}

/// What a pipeline stands for.
pub struct PipelineView {
    pub nodes: Seq<Option<NodeId>>,
    pub next: usize,
    pub sessions: Seq<Session>,
    pub outstanding: Seq<OutstandingView>,
    pub next_id: RequestId,
    pub retry: Retry,
    pub request_timeout: nat,
}

impl View for Pipeline {
    type V = PipelineView;

    closed spec fn view(&self) -> PipelineView {
        PipelineView {
            nodes: self.nodes@,
            next: self.next,
            sessions: self.sessions@,
            outstanding: self.outstanding@.map_values(|o: Outstanding| o@),
            next_id: self.next_id,
            retry: self.retry,
            request_timeout: self.request_timeout@,
        }
    }
}

/// Whether a slot can take a request.
pub open spec fn is_free(session: Session) -> bool {
    !session.busy && session.client is Some
}

/// The first slot that can take a request.
pub open spec fn first_free(sessions: Seq<Session>) -> Option<int>
    decreases sessions.len(),
{
    if sessions.len() == 0 {
        None
    } else {
        match first_free(sessions.drop_last()) {
            Some(i) => Some(i),
            None => if is_free(sessions.last()) {
                Some(sessions.len() - 1)
            } else {
                None
            },
        }
    }
}

/// Where a request that is out stands, by its label.
pub open spec fn place_of(outstanding: Seq<OutstandingView>, id: RequestId) -> Option<int>
    decreases outstanding.len(),
{
    if outstanding.len() == 0 {
        None
    } else {
        match place_of(outstanding.drop_last(), id) {
            Some(i) => Some(i),
            None => if outstanding.last().id == id {
                Some(outstanding.len() - 1)
            } else {
                None
            },
        }
    }
}

/// How many sessions are open.
pub open spec fn opened_among(sessions: Seq<Session>) -> nat
    decreases sessions.len(),
{
    if sessions.len() == 0 {
        0
    } else {
        opened_among(sessions.drop_last()) + (if sessions.last().client is Some {
            1nat
        } else {
            0
        })
    }
}

impl PipelineView {
    /// What holds of every pipeline: each request that is out has a slot of its
    /// own, which is busy because of it; a command carries its slot's identity
    /// and that identity's highest sequence number; and labels only grow.
    pub open spec fn wf(self) -> bool {
        &&& forall|i: int|
            0 <= i < self.outstanding.len() ==> {
                let o = #[trigger] self.outstanding[i];
                &&& 0 <= o.slot < self.sessions.len()
                &&& self.sessions[o.slot].busy
                &&& o.id < self.next_id
                &&& o.request matches RequestView::Command { client, seq, .. } ==> {
                    &&& self.sessions[o.slot].client == Some(client)
                    &&& self.sessions[o.slot].seq == seq
                }
            }
        &&& forall|i: int, j: int|
            0 <= i < j < self.outstanding.len() ==> (#[trigger] self.outstanding[i]).slot != (
            #[trigger] self.outstanding[j]).slot && self.outstanding[i].id
                < self.outstanding[j].id
        &&& forall|s: int|
            0 <= s < self.sessions.len() && (#[trigger] self.sessions[s]).busy ==> self.holds(s)
    }

    /// Whether a request that is out holds a slot.
    pub open spec fn holds(self, slot: int) -> bool {
        exists|i: int|
            0 <= i < self.outstanding.len() && (#[trigger] self.outstanding[i]).slot == slot
    }

    /// A request put on the wire for a slot.
    pub open spec fn dispatched(
        self,
        slot: int,
        session: Session,
        request: RequestView,
        internal: bool,
        now: u64,
    ) -> PipelineView {
        PipelineView {
            sessions: self.sessions.update(slot, Session { busy: true, ..session }),
            outstanding: self.outstanding.push(
                OutstandingView { id: self.next_id, slot, request, since: now, internal },
            ),
            next_id: (self.next_id + 1) as u64,
            ..self
        }
    }

    /// A registration put on the wire for a slot.
    pub open spec fn registering(self, slot: int, now: u64) -> PipelineView {
        self.dispatched(
            slot,
            self.sessions[slot],
            RequestView::Register { nonce: self.sessions[slot].nonce },
            true,
            now,
        )
    }

    /// One request retired, its slot freed.
    pub open spec fn retired(self, place: int) -> PipelineView {
        let slot = self.outstanding[place].slot;
        PipelineView {
            sessions: self.sessions.update(
                slot,
                Session { busy: false, ..self.sessions[slot] },
            ),
            outstanding: self.outstanding.remove(place),
            ..self
        }
    }

    /// One request retired by its label, where it is out.
    pub open spec fn finished(self, id: RequestId) -> PipelineView {
        match place_of(self.outstanding, id) {
            Some(place) => self.retired(place),
            None => self,
        }
    }

    /// Whether the caller is owed an answer to a request.
    pub open spec fn owed(self, id: RequestId) -> bool {
        place_of(self.outstanding, id) matches Some(place) && !self.outstanding[place].internal
    }

    /// Another node, followed where a hint can be and moved on to otherwise.
    pub open spec fn moved(self, hint: Option<NodeId>) -> PipelineView {
        let index = self.next as int % self.nodes.len() as int;
        let followed = match hint {
            Some(id) => position_of(self.nodes, id),
            None => None,
        };
        PipelineView {
            next: match followed {
                Some(i) => i as usize,
                None => (index + 1) as usize,
            },
            ..self
        }
    }

    /// A slot with another identity, or with none.
    pub open spec fn identified(self, slot: int, client: Option<ClientId>) -> PipelineView {
        PipelineView {
            sessions: self.sessions.update(
                slot,
                Session { client, seq: 0, ..self.sessions[slot] },
            ),
            ..self
        }
    }

    /// Everything that is out, as it went out.
    pub open spec fn resends(self) -> Seq<(RequestId, RequestView)> {
        self.outstanding.map_values(|o: OutstandingView| (o.id, o.request))
    }

    /// Whether a request has been out too long, or everything is given up on.
    pub open spec fn is_stale(self, o: OutstandingView, now: u64, all: bool) -> bool {
        all || (now >= o.since && now - o.since >= self.request_timeout)
    }

    /// What has been out too long, from some place on, given up on; and the
    /// labels the caller is told of.
    pub open spec fn given_up(self, place: int, now: u64, all: bool) -> (
        PipelineView,
        Seq<RequestId>,
    )
        decreases self.outstanding.len() - place,
    {
        if place < 0 || place >= self.outstanding.len() {
            (self, Seq::empty())
        } else {
            let o = self.outstanding[place];
            if self.is_stale(o, now, all) {
                let (after, ids) = self.retired(place).given_up(place, now, all);
                (
                    after,
                    if o.internal {
                        ids
                    } else {
                        seq![o.id] + ids
                    },
                )
            } else {
                self.given_up(place + 1, now, all)
            }
        }
    }
}

/// What a request that is out tells the caller, and what else it takes.
pub struct Reaction {
    pub completion: Option<Completion>,
    /// The endpoint whose connection is dropped.
    pub dropped: Option<usize>,
    /// What goes on the wire again, or for the first time.
    pub send: Vec<Sending>,
}

/// What reading an endpoint gave.
pub enum Heard {
    Nothing,
    /// The connection failed.
    Failed,
    Answer(Envelope<Response>),
}

/// What opening the sessions takes next.
#[derive(Debug)]
pub enum OpenStep {
    /// Every slot has a session.
    Opened,
    /// Collect answers for a moment.
    Poll,
    Failed(PipelineError),
}

impl Pipeline {
    pub open spec fn wf(&self) -> bool {
        &&& self@.wf()
        &&& self@.sessions.len() >= 1
    }

    /// A pipeline of so many sessions, none of them open.
    ///
    /// The nonces are `base_nonce` and the ones after it, and every one of them
    /// must be unique across every client that will ever talk to this cluster.
    /// Two clients sharing a nonce share a session, and the second one's sequence
    /// numbers replay the first one's — so its writes are answered out of the
    /// exactly-once cache and never applied.
    pub fn new(endpoints: usize, base_nonce: u64, depth: usize) -> (r: Self)
        ensures
            r.wf(),
            r@.nodes == Seq::new(endpoints as nat, |i: int| None::<NodeId>),
            r@.next == 0,
            r@.sessions.len() == (if depth == 0 {
                1
            } else {
                depth as nat
            }),
            forall|i: int|
                0 <= i < r@.sessions.len() ==> #[trigger] r@.sessions[i] == (Session {
                    nonce: base_nonce.wrapping_add(i as u64),
                    client: None,
                    seq: 0,
                    busy: false,
                }),
            r@.outstanding.len() == 0,
            r@.next_id == 1,
            r@.retry.deadline@ == 10_000_000_000,
            r@.retry.backoff@ == 5_000_000,
            r@.retry.backoff_factor == 2,
            r@.retry.max_backoff@ == 200_000_000,
            r@.request_timeout == 10_000_000_000,
    {
        let mut nodes: Vec<Option<NodeId>> = Vec::new();
        while nodes.len() < endpoints
            invariant
                nodes@.len() <= endpoints,
                forall|i: int| 0 <= i < nodes@.len() ==> #[trigger] nodes@[i] is None,
            decreases endpoints - nodes@.len(),
        {
            nodes.push(None);
        }
        let count: usize = if depth == 0 {
            1
        } else {
            depth
        };
        let mut sessions: Vec<Session> = Vec::new();
        while sessions.len() < count
            invariant
                sessions@.len() <= count,
                forall|i: int|
                    0 <= i < sessions@.len() ==> #[trigger] sessions@[i] == (Session {
                        nonce: base_nonce.wrapping_add(i as u64),
                        client: None,
                        seq: 0,
                        busy: false,
                    }),
            decreases count - sessions@.len(),
        {
            let i: usize = sessions.len();
            sessions.push(
                Session {
                    nonce: base_nonce.wrapping_add(i as u64),
                    client: None,
                    seq: 0,
                    busy: false,
                },
            );
        }
        let r = Pipeline {
            nodes,
            next: 0,
            sessions,
            outstanding: Vec::new(),
            next_id: 1,
            retry: Retry::default(),
            request_timeout: Duration::from_secs(10),
        };
        proof {
            assert(r@.nodes =~= Seq::new(endpoints as nat, |i: int| None::<NodeId>));
            assert(r@.outstanding =~= Seq::empty());
        }
        r
    }

    pub fn with_retry(self, retry: Retry) -> (r: Self)
        requires
            self.wf(),
        ensures
            r.wf(),
            r@ == (PipelineView { retry, request_timeout: retry.deadline@, ..self@ }),
    {
        Pipeline {
            nodes: self.nodes,
            next: self.next,
            sessions: self.sessions,
            outstanding: self.outstanding,
            next_id: self.next_id,
            retry,
            request_timeout: retry.deadline,
        }
    }

    /// How many requests may be outstanding at once.
    pub fn depth(&self) -> (r: usize)
        ensures
            r == self@.sessions.len(),
    {
        self.sessions.len()
    }

    /// How many are outstanding now, the pipeline's own registrations included.
    pub fn inflight(&self) -> (r: usize)
        ensures
            r == self@.outstanding.len(),
    {
        self.outstanding.len()
    }

    /// A node said which one it is.
    pub fn learned(&mut self, index: usize, id: NodeId)
        requires
            old(self).wf(),
            index < old(self)@.nodes.len(),
        ensures
            final(self).wf(),
            final(self)@ == (PipelineView {
                nodes: old(self)@.nodes.update(index as int, Some(id)),
                ..old(self)@
            }),
    {
        self.nodes.set(index, Some(id));
    }

    /// Which slot can take a request.
    fn free_slot(&self) -> (r: Option<usize>)
        ensures
            r is Some <==> first_free(self@.sessions) is Some,
            r matches Some(slot) ==> slot as int == first_free(self@.sessions)->0 && slot
                < self@.sessions.len() && is_free(self@.sessions[slot as int]),
    {
        let mut i: usize = 0;
        proof {
            assert(self.sessions@.take(0) =~= Seq::empty());
        }
        while i < self.sessions.len()
            invariant
                i <= self.sessions@.len(),
                first_free(self.sessions@.take(i as int)) is None,
            decreases self.sessions@.len() - i,
        {
            proof {
                assert(self.sessions@.take(i + 1).drop_last() =~= self.sessions@.take(i as int));
            }
            if !self.sessions[i].busy && self.sessions[i].client.is_some() {
                proof {
                    lemma_first_free_of_a_prefix(self.sessions@, i + 1);
                }
                return Some(i);
            }
            i += 1;
        }
        proof {
            assert(self.sessions@.take(i as int) =~= self.sessions@);
        }
        None
    }

    /// Whether a submission would be refused as full.
    pub fn is_full(&self) -> (r: bool)
        ensures
            r == (first_free(self@.sessions) is None),
    {
        self.free_slot().is_none()
    }

    /// Remember a request and hand it back for the wire.
    fn dispatch(
        &mut self,
        slot: usize,
        session: Session,
        request: Request,
        internal: bool,
        now: u64,
    ) -> (r: Sending)
        requires
            slot < old(self)@.sessions.len(),
            old(self)@.next_id < u64::MAX,
        ensures
            final(self)@ == old(self)@.dispatched(
                slot as int,
                session,
                request@,
                internal,
                now,
            ),
            r.id == old(self)@.next_id,
            r.request@ == request@,
    {
        let id: RequestId = self.next_id;
        self.next_id = self.next_id + 1;
        self.sessions.set(slot, Session { busy: true, ..session });
        let copy: Request = request.clone();
        let ghost before = self@.outstanding;
        self.outstanding.push(Outstanding { id, slot, request, since: now, internal });
        proof {
            assert(self@.outstanding =~= before.push(
                OutstandingView {
                    id,
                    slot: slot as int,
                    request: request@,
                    since: now,
                    internal,
                },
            ));
        }
        Sending { id, request: copy }
    }

    /// Send a command. The label comes back now; the answer comes back later.
    ///
    /// The sequence number is allocated once, before the first attempt, so every
    /// resend of this request carries the pair the state machine will recognise.
    pub fn submit(&mut self, command: Command, now: u64) -> (r: Result<Sending, PipelineError>)
        requires
            old(self).wf(),
            old(self)@.next_id < u64::MAX,
            forall|i: int|
                0 <= i < old(self)@.sessions.len() ==> (#[trigger] old(self)@.sessions[i]).seq
                    < u64::MAX,
        ensures
            final(self).wf(),
            match first_free(old(self)@.sessions) {
                None => {
                    &&& r == Err::<Sending, PipelineError>(
                        PipelineError::Full(old(self)@.sessions.len() as usize),
                    )
                    &&& final(self)@ == old(self)@
                },
                Some(slot) => {
                    let session = old(self)@.sessions[slot];
                    let request = RequestView::Command {
                        client: session.client->0,
                        seq: (session.seq + 1) as u64,
                        command: command@,
                    };
                    &&& r matches Ok(sending)
                    &&& sending.id == old(self)@.next_id
                    &&& sending.request@ == request
                    &&& final(self)@ == old(self)@.dispatched(
                        slot,
                        Session { seq: (session.seq + 1) as u64, ..session },
                        request,
                        false,
                        now,
                    )
                },
            },
    {
        let slot: usize = match self.free_slot() {
            Some(slot) => slot,
            None => {
                return Err(PipelineError::Full(self.sessions.len()));
            },
        };
        let session: Session = self.sessions[slot];
        let client: ClientId = match session.client {
            Some(client) => client,
            None => {
                return Err(PipelineError::Full(self.sessions.len()));
            },
        };
        let seq: SeqNo = session.seq + 1;
        let request = Request::Command { client, seq, command };
        proof {
            lemma_dispatched_wf(
                self@,
                slot as int,
                Session { seq, ..session },
                request@,
                false,
                now,
            );
        }
        Ok(self.dispatch(slot, Session { seq, ..session }, request, false, now))
    }

    /// Send a linearizable query. A read carries no sequence number, so it
    /// occupies a slot but does not consume one.
    pub fn submit_query(&mut self, query: Query, now: u64) -> (r: Result<Sending, PipelineError>)
        requires
            old(self).wf(),
            old(self)@.next_id < u64::MAX,
        ensures
            final(self).wf(),
            match first_free(old(self)@.sessions) {
                None => {
                    &&& r == Err::<Sending, PipelineError>(
                        PipelineError::Full(old(self)@.sessions.len() as usize),
                    )
                    &&& final(self)@ == old(self)@
                },
                Some(slot) => {
                    let request = RequestView::Query {
                        consistency: Consistency::Linearizable,
                        query: query@,
                    };
                    &&& r matches Ok(sending)
                    &&& sending.id == old(self)@.next_id
                    &&& sending.request@ == request
                    &&& final(self)@ == old(self)@.dispatched(
                        slot,
                        old(self)@.sessions[slot],
                        request,
                        false,
                        now,
                    )
                },
            },
    {
        let slot: usize = match self.free_slot() {
            Some(slot) => slot,
            None => {
                return Err(PipelineError::Full(self.sessions.len()));
            },
        };
        let session: Session = self.sessions[slot];
        let request = Request::Query { consistency: Consistency::Linearizable, query };
        proof {
            lemma_dispatched_wf(self@, slot as int, session, request@, false, now);
        }
        Ok(self.dispatch(slot, session, request, false, now))
    }

    /// Ask for a slot's session.
    pub fn register(&mut self, slot: usize, now: u64) -> (r: Sending)
        requires
            old(self).wf(),
            slot < old(self)@.sessions.len(),
            !old(self)@.sessions[slot as int].busy,
            old(self)@.next_id < u64::MAX,
        ensures
            final(self).wf(),
            final(self)@ == old(self)@.registering(slot as int, now),
            r.id == old(self)@.next_id,
            r.request@ == (RequestView::Register {
                nonce: old(self)@.sessions[slot as int].nonce,
            }),
    {
        let session: Session = self.sessions[slot];
        let request = Request::Register { nonce: session.nonce };
        proof {
            lemma_dispatched_wf(self@, slot as int, session, request@, true, now);
        }
        self.dispatch(slot, session, request, true, now)
    }

    /// The endpoint requests go to now.
    pub fn target(&self) -> (r: Option<usize>)
        ensures
            self@.nodes.len() == 0 ==> r is None,
            self@.nodes.len() > 0 ==> r is Some && r->0 == self@.next as int
                % self@.nodes.len() as int && r->0 < self@.nodes.len(),
    {
        if self.nodes.len() == 0 {
            None
        } else {
            Some(self.next % self.nodes.len())
        }
    }

    /// An endpoint would not take a request: the next one is tried.
    pub fn moved_past(&mut self, index: usize)
        requires
            old(self).wf(),
            index < old(self)@.nodes.len(),
        ensures
            final(self).wf(),
            final(self)@ == (PipelineView { next: (index + 1) as usize, ..old(self)@ }),
    {
        let count: usize = self.nodes.len();
        assert(index < count);
        self.next = index + 1;
    }

    /// Move to another node and put everything outstanding on it again.
    ///
    /// Every resend is the same request under the same label and, for a command,
    /// the same `(client, seq)`.
    pub fn recover(&mut self, hint: Option<NodeId>) -> (r: Vec<Sending>)
        requires
            old(self).wf(),
        ensures
            final(self).wf(),
            old(self)@.nodes.len() == 0 ==> final(self)@ == old(self)@ && r@.len() == 0,
            old(self)@.nodes.len() > 0 ==> {
                &&& final(self)@ == old(self)@.moved(hint)
                &&& sendings(r@) == old(self)@.resends()
            },
    {
        let mut pending: Vec<Sending> = Vec::new();
        let count: usize = self.nodes.len();
        if count == 0 {
            return pending;
        }
        let index: usize = self.next % count;
        let followed: Option<usize> = match hint {
            Some(id) => endpoint_of(self.nodes.as_slice(), id),
            None => None,
        };
        self.next = match followed {
            Some(i) => i,
            None => index + 1,
        };
        let mut i: usize = 0;
        while i < self.outstanding.len()
            invariant
                i <= self.outstanding@.len(),
                sendings(pending@) == self@.resends().take(i as int),
            decreases self.outstanding@.len() - i,
        {
            let ghost before = sendings(pending@);
            pending.push(
                Sending {
                    id: self.outstanding[i].id,
                    request: self.outstanding[i].request.clone(),
                },
            );
            proof {
                assert(self@.outstanding[i as int] == self.outstanding@[i as int]@);
                let sent = self@.resends()[i as int];
                assert(sendings(pending@) =~= before.push(sent));
                assert(self@.resends().take(i + 1) =~= self@.resends().take(i as int).push(sent));
            }
            i += 1;
        }
        proof {
            assert(self@.resends().take(i as int) =~= self@.resends());
            assert(self@.outstanding =~= old(self)@.outstanding);
        }
        pending
    }

    /// Where a request that is out stands.
    fn find(&self, id: RequestId) -> (r: Option<usize>)
        ensures
            r is Some <==> place_of(self@.outstanding, id) is Some,
            r matches Some(place) ==> place as int == place_of(self@.outstanding, id)->0 && place
                < self@.outstanding.len() && self@.outstanding[place as int].id == id,
    {
        let mut i: usize = 0;
        let ghost all = self@.outstanding;
        proof {
            assert(all.take(0) =~= Seq::empty());
        }
        while i < self.outstanding.len()
            invariant
                i <= self.outstanding@.len(),
                all == self@.outstanding,
                all.len() == self.outstanding@.len(),
                place_of(all.take(i as int), id) is None,
            decreases self.outstanding@.len() - i,
        {
            proof {
                assert(all.take(i + 1).drop_last() =~= all.take(i as int));
                assert(all[i as int] == self.outstanding@[i as int]@);
            }
            if self.outstanding[i].id == id {
                proof {
                    lemma_place_of_a_prefix(all, i + 1, id);
                }
                return Some(i);
            }
            i += 1;
        }
        proof {
            assert(all.take(i as int) =~= all);
        }
        None
    }

    /// Retire the request at a place, freeing its slot.
    fn retire(&mut self, place: usize) -> (r: Outstanding)
        requires
            old(self).wf(),
            place < old(self)@.outstanding.len(),
        ensures
            final(self).wf(),
            final(self)@ == old(self)@.retired(place as int),
            r@ == old(self)@.outstanding[place as int],
    {
        proof {
            lemma_retired_wf(self@, place as int);
            assert(self@.outstanding[place as int] == self.outstanding@[place as int]@);
        }
        let ghost before = self@.outstanding;
        let o: Outstanding = self.outstanding.remove(place);
        let session: Session = self.sessions[o.slot];
        self.sessions.set(o.slot, Session { busy: false, ..session });
        proof {
            assert(self@.outstanding =~= before.remove(place as int));
        }
        o
    }

    /// Retire one outstanding request, freeing its slot.
    ///
    /// Returns the completion only when the caller is owed one: the pipeline's
    /// own registrations are not the caller's business.
    pub fn finish(&mut self, id: RequestId, result: Result<Response, ClientError>) -> (r: Option<
        Completion,
    >)
        requires
            old(self).wf(),
        ensures
            final(self).wf(),
            final(self)@ == old(self)@.finished(id),
            r is Some <==> old(self)@.owed(id),
            r matches Some(completion) ==> completion.id == id && completion.result == result,
    {
        match self.find(id) {
            None => None,
            Some(place) => {
                let o: Outstanding = self.retire(place);
                if o.internal {
                    None
                } else {
                    Some(Completion { id, result })
                }
            },
        }
    }

    /// Give up on what has been out too long, or on everything.
    fn give_up(&mut self, now: u64, all: bool) -> (done: Vec<Completion>)
        requires
            old(self).wf(),
        ensures
            final(self).wf(),
            final(self)@ == old(self)@.given_up(0, now, all).0,
            labels(done@) == old(self)@.given_up(0, now, all).1,
            all_timed_out(done@),
    {
        let mut done: Vec<Completion> = Vec::new();
        let mut i: usize = 0;
        let limit: u64 = self.request_timeout.as_nanos();
        proof {
            assert(labels(done@) + self@.given_up(0, now, all).1 =~= old(self)@.given_up(
                0,
                now,
                all,
            ).1);
        }
        while i < self.outstanding.len()
            invariant
                self.wf(),
                i <= self.outstanding@.len(),
                self@.outstanding.len() == self.outstanding@.len(),
                limit == self@.request_timeout,
                self@.given_up(i as int, now, all).0 == old(self)@.given_up(0, now, all).0,
                labels(done@) + self@.given_up(i as int, now, all).1 == old(self)@.given_up(
                    0,
                    now,
                    all,
                ).1,
                all_timed_out(done@),
            decreases self.outstanding@.len() - i,
        {
            proof {
                assert(self@.outstanding[i as int] == self.outstanding@[i as int]@);
            }
            let since: u64 = self.outstanding[i].since;
            if all || (now >= since && now - since >= limit) {
                let ghost before = labels(done@);
                let ghost held = self@;
                let o: Outstanding = self.retire(i);
                if !o.internal {
                    done.push(Completion { id: o.id, result: Err(ClientError::Timeout) });
                    proof {
                        assert(labels(done@) =~= before.push(o.id));
                    }
                }
                proof {
                    assert(labels(done@) + self@.given_up(i as int, now, all).1 =~= before
                        + held.given_up(i as int, now, all).1);
                }
            } else {
                i += 1;
            }
        }
        proof {
            assert(labels(done@) + Seq::<RequestId>::empty() =~= labels(done@));
        }
        done
    }

    /// Give up on anything that has been outstanding too long.
    pub fn expire(&mut self, now: u64) -> (done: Vec<Completion>)
        requires
            old(self).wf(),
        ensures
            final(self).wf(),
            final(self)@ == old(self)@.given_up(0, now, false).0,
            labels(done@) == old(self)@.given_up(0, now, false).1,
            all_timed_out(done@),
    {
        self.give_up(now, false)
    }

    /// Give up on everything outstanding: what a drain does with what is still
    /// held when its deadline passes.
    pub fn drain(&mut self) -> (done: Vec<Completion>)
        requires
            old(self).wf(),
        ensures
            final(self).wf(),
            final(self)@ == old(self)@.given_up(0, 0, true).0,
            labels(done@) == old(self)@.given_up(0, 0, true).1,
            all_timed_out(done@),
    {
        self.give_up(0, true)
    }
}

/// Whether everything finished by not being answered.
pub open spec fn all_timed_out(done: Seq<Completion>) -> bool {
    forall|i: int|
        0 <= i < done.len() ==> result_view((#[trigger] done[i]).result) == Err::<
            ResponseView,
            ClientErrorView,
        >(ClientErrorView::Timeout)
}

/// The labels of some completions.
pub open spec fn labels(done: Seq<Completion>) -> Seq<RequestId> {
    done.map_values(|c: Completion| c.id)
}

// ----------------------------------------------------------------- invariants

proof fn lemma_first_free_of_a_prefix(sessions: Seq<Session>, n: int)
    requires
        0 <= n <= sessions.len(),
        first_free(sessions.take(n)) is Some,
    ensures
        first_free(sessions) == first_free(sessions.take(n)),
    decreases sessions.len() - n,
{
    if n == sessions.len() {
        assert(sessions.take(n) =~= sessions);
    } else {
        assert(sessions.take(n + 1).drop_last() =~= sessions.take(n));
        lemma_first_free_of_a_prefix(sessions, n + 1);
    }
}

proof fn lemma_place_of_a_prefix(all: Seq<OutstandingView>, n: int, id: RequestId)
    requires
        0 <= n <= all.len(),
        place_of(all.take(n), id) is Some,
    ensures
        place_of(all, id) == place_of(all.take(n), id),
    decreases all.len() - n,
{
    if n == all.len() {
        assert(all.take(n) =~= all);
    } else {
        assert(all.take(n + 1).drop_last() =~= all.take(n));
        lemma_place_of_a_prefix(all, n + 1, id);
    }
}

/// Putting a request on the wire for a slot that is not busy keeps the
/// invariant.
proof fn lemma_dispatched_wf(
    p: PipelineView,
    slot: int,
    session: Session,
    request: RequestView,
    internal: bool,
    now: u64,
)
    requires
        p.wf(),
        0 <= slot < p.sessions.len(),
        !p.sessions[slot].busy,
        p.next_id < u64::MAX,
        request matches RequestView::Command { client, seq, .. } ==> session.client == Some(client)
            && session.seq == seq,
    ensures
        p.dispatched(slot, session, request, internal, now).wf(),
{
    let after = p.dispatched(slot, session, request, internal, now);
    let n = p.outstanding.len() as int;
    assert(after.outstanding[n].slot == slot);
    assert forall|i: int| 0 <= i < n implies (#[trigger] after.outstanding[i]).slot != slot by {
        assert(after.outstanding[i] == p.outstanding[i]);
        assert(p.sessions[p.outstanding[i].slot].busy);
    }
    assert forall|s: int|
        0 <= s < after.sessions.len() && (#[trigger] after.sessions[s]).busy implies after.holds(
        s,
    ) by {
        if s != slot {
            assert(p.sessions[s].busy);
            assert(p.holds(s));
            let i = choose|i: int|
                0 <= i < p.outstanding.len() && (#[trigger] p.outstanding[i]).slot == s;
            assert(after.outstanding[i].slot == s);
        }
    }
    assert forall|i: int, j: int| 0 <= i < j < after.outstanding.len() implies (
    #[trigger] after.outstanding[i]).slot != (#[trigger] after.outstanding[j]).slot
        && after.outstanding[i].id < after.outstanding[j].id by {
        assert(after.outstanding[i] == p.outstanding[i]);
        if j < n {
            assert(after.outstanding[j] == p.outstanding[j]);
        }
    }
    assert forall|i: int| 0 <= i < after.outstanding.len() implies {
        let o = #[trigger] after.outstanding[i];
        &&& 0 <= o.slot < after.sessions.len()
        &&& after.sessions[o.slot].busy
        &&& o.id < after.next_id
        &&& o.request matches RequestView::Command { client, seq, .. } ==> {
            &&& after.sessions[o.slot].client == Some(client)
            &&& after.sessions[o.slot].seq == seq
        }
    } by {
        if i < n {
            assert(after.outstanding[i] == p.outstanding[i]);
        }
    }
}

/// Retiring a request keeps the invariant.
proof fn lemma_retired_wf(p: PipelineView, place: int)
    requires
        p.wf(),
        0 <= place < p.outstanding.len(),
    ensures
        p.retired(place).wf(),
        !p.retired(place).sessions[p.outstanding[place].slot].busy,
{
    let after = p.retired(place);
    let slot = p.outstanding[place].slot;
    assert forall|i: int| 0 <= i < after.outstanding.len() implies {
        let o = #[trigger] after.outstanding[i];
        &&& 0 <= o.slot < after.sessions.len()
        &&& after.sessions[o.slot].busy
        &&& o.id < after.next_id
        &&& o.request matches RequestView::Command { client, seq, .. } ==> {
            &&& after.sessions[o.slot].client == Some(client)
            &&& after.sessions[o.slot].seq == seq
        }
    } by {
        let k = if i < place {
            i
        } else {
            i + 1
        };
        assert(after.outstanding[i] == p.outstanding[k]);
        if k < place {
            assert(p.outstanding[k].slot != p.outstanding[place].slot);
        } else {
            assert(p.outstanding[place].slot != p.outstanding[k].slot);
        }
    }
    assert forall|i: int, j: int| 0 <= i < j < after.outstanding.len() implies (
    #[trigger] after.outstanding[i]).slot != (#[trigger] after.outstanding[j]).slot
        && after.outstanding[i].id < after.outstanding[j].id by {
        let a = if i < place {
            i
        } else {
            i + 1
        };
        let b = if j < place {
            j
        } else {
            j + 1
        };
        assert(after.outstanding[i] == p.outstanding[a]);
        assert(after.outstanding[j] == p.outstanding[b]);
    }
    assert forall|s: int|
        0 <= s < after.sessions.len() && (#[trigger] after.sessions[s]).busy implies after.holds(
        s,
    ) by {
        assert(s != slot);
        assert(p.sessions[s].busy);
        assert(p.holds(s));
        let i = choose|i: int|
            0 <= i < p.outstanding.len() && (#[trigger] p.outstanding[i]).slot == s;
        let k = if i < place {
            i
        } else {
            i - 1
        };
        assert(after.outstanding[k] == p.outstanding[i]);
    }
}

// ------------------------------------------------------------------- reading

/// What an answer means: what the pipeline is after it, the result the caller is
/// told of, if any, and whether everything outstanding is put on another node.
pub struct Meant {
    pub after: PipelineView,
    pub told: Option<Result<ResponseView, ClientErrorView>>,
    pub moving: bool,
}

impl PipelineView {
    /// The registration that goes out where the session of a request is gone.
    pub open spec fn reopening(self, id: RequestId) -> Seq<(RequestId, RequestView)> {
        match place_of(self.outstanding, id) {
            Some(place) => seq![
                (
                    self.next_id,
                    RequestView::Register {
                        nonce: self.sessions[self.outstanding[place].slot].nonce,
                    },
                ),
            ],
            None => Seq::empty(),
        }
    }

    /// What an answer under a label means.
    ///
    /// A node that is not the leader cannot answer anything, so everything
    /// outstanding follows its hint. A session that is gone takes its request with
    /// it, and the slot asks for a new identity.
    pub open spec fn meant(self, id: RequestId, body: ResponseView, now: u64) -> Meant {
        match body {
            ResponseView::NotLeader { leader } => Meant {
                after: self.moved(leader),
                told: None,
                moving: true,
            },
            ResponseView::Error(ApiErrorView::Unavailable) => Meant {
                after: self.moved(None),
                told: None,
                moving: true,
            },
            ResponseView::Error(ApiErrorView::SessionExpired) => Meant {
                after: match place_of(self.outstanding, id) {
                    Some(place) => {
                        let slot = self.outstanding[place].slot;
                        self.finished(id).identified(slot, None).registering(slot, now)
                    },
                    None => self,
                },
                told: if self.owed(id) {
                    Some(Err(ClientErrorView::Refused(ApiErrorView::SessionExpired)))
                } else {
                    None
                },
                moving: false,
            },
            ResponseView::Registered { client } => Meant {
                after: match place_of(self.outstanding, id) {
                    Some(place) => self.identified(
                        self.outstanding[place].slot,
                        Some(client),
                    ).finished(id),
                    None => self,
                },
                told: None,
                moving: false,
            },
            ResponseView::Error(e) => Meant {
                after: self.finished(id),
                told: if self.owed(id) {
                    Some(Err(ClientErrorView::Refused(e)))
                } else {
                    None
                },
                moving: false,
            },
            other => Meant {
                after: self.finished(id),
                told: if self.owed(id) {
                    Some(Ok(other))
                } else {
                    None
                },
                moving: false,
            },
        }
    }
}

/// A slot that holds no request may change its identity.
proof fn lemma_identified_wf(p: PipelineView, slot: int, client: Option<ClientId>)
    requires
        p.wf(),
        0 <= slot < p.sessions.len(),
        !p.sessions[slot].busy,
    ensures
        p.identified(slot, client).wf(),
{
    let after = p.identified(slot, client);
    assert forall|i: int| 0 <= i < after.outstanding.len() implies {
        let o = #[trigger] after.outstanding[i];
        &&& 0 <= o.slot < after.sessions.len()
        &&& after.sessions[o.slot].busy
        &&& o.id < after.next_id
        &&& o.request matches RequestView::Command { client, seq, .. } ==> {
            &&& after.sessions[o.slot].client == Some(client)
            &&& after.sessions[o.slot].seq == seq
        }
    } by {
        assert(after.outstanding[i] == p.outstanding[i]);
        assert(p.outstanding[i].slot != slot);
    }
    assert forall|s: int|
        0 <= s < after.sessions.len() && (#[trigger] after.sessions[s]).busy implies after.holds(
        s,
    ) by {
        assert(p.sessions[s].busy);
        assert(p.holds(s));
        let i = choose|i: int|
            0 <= i < p.outstanding.len() && (#[trigger] p.outstanding[i]).slot == s;
        assert(after.outstanding[i].slot == s);
    }
}

impl Pipeline {
    /// The slot a request that is out holds.
    fn slot_of(&self, id: RequestId) -> (r: Option<usize>)
        requires
            self.wf(),
        ensures
            r is Some <==> place_of(self@.outstanding, id) is Some,
            r matches Some(slot) ==> slot < self@.sessions.len() && slot as int
                == self@.outstanding[place_of(self@.outstanding, id)->0].slot,
    {
        match self.find(id) {
            Some(place) => {
                proof {
                    assert(self@.outstanding[place as int] == self.outstanding@[place as int]@);
                }
                Some(self.outstanding[place].slot)
            },
            None => None,
        }
    }

    /// Give a slot that holds no request another identity, or none.
    fn identify(&mut self, slot: usize, client: Option<ClientId>)
        requires
            old(self).wf(),
            slot < old(self)@.sessions.len(),
            !old(self)@.sessions[slot as int].busy,
        ensures
            final(self).wf(),
            final(self)@ == old(self)@.identified(slot as int, client),
    {
        proof {
            lemma_identified_wf(self@, slot as int, client);
        }
        let session: Session = self.sessions[slot];
        self.sessions.set(slot, Session { client, seq: 0, ..session });
    }

    /// A session expired: its request is unanswerable, and the slot cannot be
    /// used again until it has a new identity.
    fn expired(&mut self, id: RequestId, now: u64) -> (r: (Option<Completion>, Vec<Sending>))
        requires
            old(self).wf(),
            old(self)@.next_id < u64::MAX,
        ensures
            ({
                let meant = old(self)@.meant(
                    id,
                    ResponseView::Error(ApiErrorView::SessionExpired),
                    now,
                );
                &&& final(self).wf()
                &&& final(self)@ == meant.after
                &&& r.0 is Some <==> meant.told is Some
                &&& r.0 matches Some(completion) ==> completion.id == id && result_view(
                    completion.result,
                ) == meant.told->0
                &&& sendings(r.1@) == old(self)@.reopening(id)
            }),
    {
        let mut send: Vec<Sending> = Vec::new();
        let slot: Option<usize> = self.slot_of(id);
        let ghost begin = self@;
        proof {
            if place_of(begin.outstanding, id) is Some {
                let place = place_of(begin.outstanding, id)->0;
                lemma_place_in_range(begin.outstanding, id);
                lemma_retired_wf(begin, place);
            }
        }
        let completion: Option<Completion> = self.finish(
            id,
            Err(ClientError::Refused(ApiError::SessionExpired)),
        );
        match slot {
            Some(slot) => {
                self.identify(slot, None);
                let sending: Sending = self.register(slot, now);
                send.push(sending);
                proof {
                    assert(sendings(send@) =~= seq![(sending.id, sending.request@)]);
                }
            },
            None => {
                proof {
                    assert(sendings(send@) =~= Seq::empty());
                }
            },
        }
        (completion, send)
    }

    /// A session was opened: the slot has its identity.
    fn answered(&mut self, id: RequestId, client: ClientId)
        requires
            old(self).wf(),
        ensures
            final(self).wf(),
            final(self)@ == old(self)@.meant(id, ResponseView::Registered { client }, 0).after,
    {
        let slot: Option<usize> = self.slot_of(id);
        let ghost begin = self@;
        match slot {
            Some(slot) => {
                proof {
                    let place = place_of(begin.outstanding, id)->0;
                    lemma_place_in_range(begin.outstanding, id);
                    lemma_retired_wf(begin, place);
                    lemma_identified_then_finished(begin, place, id, client);
                }
                let retired: Option<Completion> = self.finish(id, Ok(Response::Registered { client }));
                self.identify(slot, Some(client));
            },
            None => {},
        }
    }

    /// Read one answer and decide what it means.
    ///
    /// The result says what the caller is told, which connection is dropped, and
    /// what goes on the wire.
    pub fn read_one(&mut self, heard: Heard, now: u64) -> (r: Reaction)
        requires
            old(self).wf(),
            old(self)@.nodes.len() > 0,
            old(self)@.next_id < u64::MAX,
        ensures
            final(self).wf(),
            match heard {
                Heard::Nothing => {
                    &&& final(self)@ == old(self)@
                    &&& r.completion is None
                    &&& r.dropped is None
                    &&& r.send@.len() == 0
                },
                Heard::Failed => {
                    &&& final(self)@ == old(self)@.moved(None)
                    &&& r.completion is None
                    &&& r.dropped == Some((old(self)@.next % old(self)@.nodes.len() as usize) as usize)
                    &&& sendings(r.send@) == old(self)@.resends()
                },
                Heard::Answer(envelope) => {
                    let meant = old(self)@.meant(envelope.id, envelope.body@, now);
                    &&& final(self)@ == meant.after
                    &&& (r.completion is Some <==> meant.told is Some)
                    &&& r.completion matches Some(completion) ==> completion.id == envelope.id
                        && result_view(completion.result) == meant.told->0
                    &&& (r.dropped is Some <==> meant.moving)
                    &&& meant.moving ==> r.dropped == Some(
                        (old(self)@.next % old(self)@.nodes.len() as usize) as usize,
                    ) && sendings(r.send@) == old(self)@.resends()
                    &&& !meant.moving ==> sendings(r.send@) == (if envelope.body@
                        == ResponseView::Error(ApiErrorView::SessionExpired) {
                        old(self)@.reopening(envelope.id)
                    } else {
                        Seq::empty()
                    })
                },
            },
    {
        let index: usize = self.next % self.nodes.len();
        let none: Vec<Sending> = Vec::new();
        assert(sendings(none@) =~= Seq::empty());
        match heard {
            Heard::Nothing => Reaction { completion: None, dropped: None, send: none },
            Heard::Failed => {
                let send: Vec<Sending> = self.recover(None);
                Reaction { completion: None, dropped: Some(index), send }
            },
            Heard::Answer(envelope) => {
                let id: RequestId = envelope.id;
                match envelope.body {
                    Response::NotLeader { leader } => {
                        let send: Vec<Sending> = self.recover(leader);
                        Reaction { completion: None, dropped: Some(index), send }
                    },
                    Response::Error(ApiError::Unavailable) => {
                        let send: Vec<Sending> = self.recover(None);
                        Reaction { completion: None, dropped: Some(index), send }
                    },
                    Response::Error(ApiError::SessionExpired) => {
                        let (completion, send) = self.expired(id, now);
                        Reaction { completion, dropped: None, send }
                    },
                    Response::Registered { client } => {
                        self.answered(id, client);
                        Reaction { completion: None, dropped: None, send: none }
                    },
                    Response::Error(e) => {
                        let completion = self.finish(id, Err(ClientError::Refused(e)));
                        Reaction { completion, dropped: None, send: none }
                    },
                    other => {
                        let completion = self.finish(id, Ok(other));
                        Reaction { completion, dropped: None, send: none }
                    },
                }
            },
        }
    }
}

proof fn lemma_place_in_range(all: Seq<OutstandingView>, id: RequestId)
    requires
        place_of(all, id) is Some,
    ensures
        0 <= place_of(all, id)->0 < all.len(),
        all[place_of(all, id)->0].id == id,
    decreases all.len(),
{
    if place_of(all.drop_last(), id) is Some {
        lemma_place_in_range(all.drop_last(), id);
    }
}

/// A slot may be identified before or after its request is retired.
proof fn lemma_identified_then_finished(
    p: PipelineView,
    place: int,
    id: RequestId,
    client: ClientId,
)
    requires
        p.wf(),
        place_of(p.outstanding, id) == Some(place),
        0 <= place < p.outstanding.len(),
    ensures
        p.identified(p.outstanding[place].slot, Some(client)).finished(id) == p.finished(
            id,
        ).identified(p.outstanding[place].slot, Some(client)),
{
    let slot = p.outstanding[place].slot;
    let a = p.identified(slot, Some(client)).finished(id);
    let b = p.finished(id).identified(slot, Some(client));
    assert(a.sessions =~= b.sessions);
    assert(a.outstanding =~= b.outstanding);
}

// ------------------------------------------------------------------- opening

/// Where the opening of the sessions stands.
#[derive(Debug, Clone, Copy, PartialEq, Eq, Structural)]
pub struct Opening {
    pub deadline: u64,
    pub wait: u64,
}

/// Whether every session is open.
pub open spec fn all_open(sessions: Seq<Session>) -> bool {
    forall|i: int| 0 <= i < sessions.len() ==> (#[trigger] sessions[i]).client is Some
}

/// What is said of sessions that were not opened in time.
pub open spec fn not_opened_text(opened: nat, depth: nat) -> Seq<char> {
    decimal(opened) + " of "@ + decimal(depth) + " sessions opened before the deadline"@
}

/// Registrations for the first so many slots that hold nothing and have no
/// identity.
pub open spec fn registering_all(p: PipelineView, n: nat, now: u64) -> PipelineView
    decreases n,
{
    if n == 0 {
        p
    } else {
        let before = registering_all(p, (n - 1) as nat, now);
        let slot = n - 1;
        if before.sessions[slot].client is None && !before.sessions[slot].busy {
            before.registering(slot, now)
        } else {
            before
        }
    }
}

proof fn lemma_registering_all(p: PipelineView, n: nat, now: u64)
    requires
        n <= p.sessions.len(),
        p.next_id + n < u64::MAX,
    ensures
        registering_all(p, n, now).sessions.len() == p.sessions.len(),
        p.next_id <= registering_all(p, n, now).next_id <= p.next_id + n,
        registering_all(p, n, now).outstanding.len() == p.outstanding.len() + (registering_all(
            p,
            n,
            now,
        ).next_id - p.next_id),
        forall|i: int|
            0 <= i < p.outstanding.len() ==> registering_all(p, n, now).outstanding[i]
                == p.outstanding[i],
    decreases n,
{
    if n > 0 {
        lemma_registering_all(p, (n - 1) as nat, now);
    }
}

impl Pipeline {
    /// Begin to open the sessions: all of their registrations are in flight at
    /// once, so the cost of a deep pipeline is one round trip.
    pub fn open(&mut self, now: u64) -> (r: Result<(Opening, Vec<Sending>), PipelineError>)
        requires
            old(self).wf(),
            old(self)@.next_id + old(self)@.sessions.len() < u64::MAX,
        ensures
            final(self).wf(),
            old(self)@.nodes.len() == 0 ==> {
                &&& final(self)@ == old(self)@
                &&& r matches Err(e)
                &&& e matches PipelineError::NoSession(why)
                &&& why@ == "no node addresses"@
            },
            old(self)@.nodes.len() > 0 ==> {
                &&& final(self)@ == registering_all(
                    old(self)@,
                    old(self)@.sessions.len(),
                    now,
                )
                &&& r matches Ok((opening, send))
                &&& opening.deadline == capped(now as nat + old(self)@.retry.deadline@)
                &&& opening.wait == old(self)@.retry.backoff@
                &&& sendings(send@) == final(self)@.resends().skip(
                    old(self)@.outstanding.len() as int,
                )
            },
    {
        if self.nodes.len() == 0 {
            return Err(PipelineError::NoSession("no node addresses".to_owned()));
        }
        let opening = Opening {
            deadline: now.saturating_add(self.retry.deadline.as_nanos()),
            wait: self.retry.backoff.as_nanos(),
        };
        let send: Vec<Sending> = self.register_all(now);
        Ok((opening, send))
    }

    /// Ask for the session of every slot that has none and holds nothing.
    pub fn register_all(&mut self, now: u64) -> (send: Vec<Sending>)
        requires
            old(self).wf(),
            old(self)@.next_id + old(self)@.sessions.len() < u64::MAX,
        ensures
            final(self).wf(),
            final(self)@ == registering_all(old(self)@, old(self)@.sessions.len(), now),
            sendings(send@) == final(self)@.resends().skip(old(self)@.outstanding.len() as int),
    {
        let mut send: Vec<Sending> = Vec::new();
        let mut slot: usize = 0;
        let ghost begin = self@;
        let ghost n = begin.outstanding.len() as int;
        proof {
            assert(sendings(send@) =~= self@.resends().skip(n));
        }
        while slot < self.sessions.len()
            invariant
                slot <= self@.sessions.len(),
                self.sessions@ == self@.sessions,
                begin == old(self)@,
                n == begin.outstanding.len(),
                self@.sessions.len() == begin.sessions.len(),
                begin.next_id + begin.sessions.len() < u64::MAX,
                self.wf(),
                self@ == registering_all(begin, slot as nat, now),
                sendings(send@) == self@.resends().skip(n),
            decreases self@.sessions.len() - slot,
        {
            proof {
                lemma_registering_all(begin, slot as nat, now);
                lemma_registering_all(begin, (slot + 1) as nat, now);
            }
            if self.sessions[slot].client.is_none() && !self.sessions[slot].busy {
                let ghost before = self@;
                let ghost sent = sendings(send@);
                let sending: Sending = self.register(slot, now);
                send.push(sending);
                proof {
                    let one = (sending.id, sending.request@);
                    assert(sendings(send@) =~= sent.push(one));
                    assert(self@.resends() =~= before.resends().push(one));
                    assert(self@.resends().skip(n) =~= before.resends().skip(n).push(one));
                }
            }
            slot += 1;
        }
        send
    }

    /// Whether the sessions are open, have to be waited for, or will not be.
    pub fn opening(&self, opening: &Opening, now: u64) -> (r: OpenStep)
        ensures
            now < opening.deadline && all_open(self@.sessions) ==> r is Opened,
            now < opening.deadline && !all_open(self@.sessions) ==> r is Poll,
            now >= opening.deadline ==> {
                &&& r matches OpenStep::Failed(e)
                &&& e matches PipelineError::NoSession(why)
                &&& why@ == not_opened_text(opened_among(self@.sessions), self@.sessions.len())
            },
    {
        let mut opened: usize = 0;
        let mut i: usize = 0;
        proof {
            assert(self.sessions@.take(0) =~= Seq::empty());
        }
        while i < self.sessions.len()
            invariant
                i <= self.sessions@.len(),
                self.sessions@ == self@.sessions,
                opened <= i,
                opened == opened_among(self.sessions@.take(i as int)),
                opened == i <==> all_open(self.sessions@.take(i as int)),
            decreases self.sessions@.len() - i,
        {
            proof {
                let before = self.sessions@.take(i as int);
                let after = self.sessions@.take(i + 1);
                assert(after.drop_last() =~= before);
                if all_open(after) {
                    assert forall|k: int| 0 <= k < before.len() implies (
                    #[trigger] before[k]).client is Some by {
                        assert(after[k] == before[k]);
                    }
                    assert(after[i as int].client is Some);
                }
                if all_open(before) && self.sessions@[i as int].client is Some {
                    assert forall|k: int| 0 <= k < after.len() implies (
                    #[trigger] after[k]).client is Some by {
                        if k < i {
                            assert(after[k] == before[k]);
                        }
                    }
                }
            }
            if self.sessions[i].client.is_some() {
                opened += 1;
            }
            i += 1;
        }
        proof {
            assert(self.sessions@.take(i as int) =~= self.sessions@);
        }
        if now >= opening.deadline {
            let mut out = String::new();
            push_decimal(&mut out, opened as u64);
            out.append(" of ");
            push_decimal(&mut out, self.sessions.len() as u64);
            out.append(" sessions opened before the deadline");
            proof {
                assert(out@ =~= not_opened_text(
                    opened_among(self@.sessions),
                    self@.sessions.len(),
                ));
            }
            return OpenStep::Failed(PipelineError::NoSession(out));
        }
        if opened == self.sessions.len() {
            OpenStep::Opened
        } else {
            OpenStep::Poll
        }
    }

    /// How long to wait before asking again, where every registration was
    /// answered and some slot still has no identity: a cluster that is
    /// mid-election is not spun on.
    pub fn back_off(&self, opening: &mut Opening, before: usize) -> (r: Option<u64>)
        ensures
            self@.outstanding.len() == 0 && before > 0 ==> {
                &&& r == Some(self@.retry.pause(old(opening).wait as nat) as u64)
                &&& *final(opening) == (Opening {
                    deadline: old(opening).deadline,
                    wait: self@.retry.longer(old(opening).wait as nat) as u64,
                })
            },
            !(self@.outstanding.len() == 0 && before > 0) ==> r is None && *final(opening) == *old(
                opening,
            ),
    {
        if self.outstanding.len() == 0 && before > 0 {
            let (pause, longer) = self.retry.back_off(opening.wait);
            opening.wait = longer;
            Some(pause)
        } else {
            None
        }
    }
}

// --------------------------------------------------------------------- laws

/// No two outstanding requests share a session, and a command that is out carries
/// the highest sequence number of its session: so a retry is always one the
/// exactly-once cache can answer.
pub proof fn law_no_two_outstanding_requests_share_a_session(p: PipelineView, i: int, j: int)
    requires
        p.wf(),
        0 <= i < j < p.outstanding.len(),
    ensures
        p.outstanding[i].slot != p.outstanding[j].slot,
        p.outstanding[i].request matches RequestView::Command { client, seq, .. } ==> p.sessions[p.outstanding[i].slot].client
            == Some(client) && p.sessions[p.outstanding[i].slot].seq == seq,
{
}

/// A redirect changes where requests go, and nothing about them: every resend is
/// the same request under the same label.
pub proof fn law_a_redirect_resends_what_was_sent(p: PipelineView, hint: Option<NodeId>)
    ensures
        p.moved(hint).outstanding == p.outstanding,
        p.moved(hint).sessions == p.sessions,
        p.moved(hint).resends() == p.resends(),
        p.moved(hint).next_id == p.next_id,
{
}

/// Finishing a request frees its slot, and the sequence number stays spent: the
/// next request on that session takes the next one.
pub proof fn law_finishing_frees_the_slot(p: PipelineView, id: RequestId)
    requires
        p.wf(),
        place_of(p.outstanding, id) is Some,
    ensures
        ({
            let place = place_of(p.outstanding, id)->0;
            let slot = p.outstanding[place].slot;
            &&& !p.finished(id).sessions[slot].busy
            &&& p.finished(id).sessions[slot].seq == p.sessions[slot].seq
            &&& p.finished(id).sessions[slot].client == p.sessions[slot].client
            &&& p.finished(id).outstanding.len() == p.outstanding.len() - 1
        }),
{
    lemma_place_in_range(p.outstanding, id);
}

/// Everything that is given up on leaves nothing outstanding.
pub proof fn law_a_drained_pipeline_is_empty(p: PipelineView, now: u64)
    ensures
        p.given_up(0, now, true).0.outstanding.len() == 0,
    decreases p.outstanding.len(),
{
    if p.outstanding.len() > 0 {
        law_a_drained_pipeline_is_empty(p.retired(0), now);
    }
}

} // verus!
