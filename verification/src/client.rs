//! Talking to a Keel cluster.
//!
//! Three things a client has to get right, and all three are here because getting
//! them wrong is invisible until it matters:
//!
//! **A retry is the same request, not a new one.** A command carries
//! `(client, seq)` and a retry carries the *same* pair, so the state machine
//! recognises it and returns the response it already produced.
//!
//! **A `NotLeader` is a redirect, not a failure.** The hint may be stale or
//! absent; it is somewhere to try next rather than truth.
//!
//! **Registration is retryable.** The nonce is fixed for the lifetime of the
//! client, so a registration whose response was lost returns the same identity
//! rather than allocating a second one.
//!
//! The client decides; whoever runs it holds the sockets and the clock. Every
//! instant is a number of nanoseconds since some start.

pub mod history;
pub mod kv;
pub mod pipeline;
pub mod promises;
pub mod records;
pub mod show;
pub mod transport;

use vstd::prelude::*;
use vstd::string::*;

use crate::api::{
    api_error_text, ApiError, ApiErrorView, ClientId, Command, CommandView, Consistency, Query,
    QueryView, Request, RequestId, RequestView, Response, ResponseView, SeqNo,
};
use crate::client::history::{Entry, History, Op, Outcome};
use crate::client::show::{push_response, shown_response};
use crate::raft::NodeId;
use crate::time::{capped, Duration};
use crate::wire::Wire;

verus! {

#[derive(Debug, PartialEq, Eq)]
pub enum ClientError {
    /// No node answered within the deadline.
    Timeout,
    /// The cluster refused.
    Refused(ApiError),
    /// The connection failed, and this is what the system said.
    Io(String),
    /// A node answered with something this request cannot mean.
    Unexpected(Response),
}

/// What a client error stands for.
pub enum ClientErrorView {
    Timeout,
    Refused(ApiErrorView),
    Io(Seq<char>),
    Unexpected(ResponseView),
}

impl View for ClientError {
    type V = ClientErrorView;

    open spec fn view(&self) -> ClientErrorView {
        match self {
            ClientError::Timeout => ClientErrorView::Timeout,
            ClientError::Refused(e) => ClientErrorView::Refused(e@),
            ClientError::Io(why) => ClientErrorView::Io(why@),
            ClientError::Unexpected(response) => ClientErrorView::Unexpected(response@),
        }
    }
}

/// What a client error says.
pub open spec fn client_error_text(e: ClientErrorView) -> Seq<char> {
    match e {
        ClientErrorView::Timeout => "no node answered within the deadline"@,
        ClientErrorView::Refused(e) => "the cluster refused: "@ + api_error_text(e),
        ClientErrorView::Io(why) => "the connection failed: "@ + why,
        ClientErrorView::Unexpected(response) => "a node answered with something this request cannot mean: "@
            + shown_response(response),
    }
}

impl ClientError {
    /// What went wrong, for a person.
    pub fn message(&self) -> (r: String)
        ensures
            r@ == client_error_text(self@),
    {
        let mut out = String::new();
        match self {
            ClientError::Timeout => {
                out.append("no node answered within the deadline");
            },
            ClientError::Refused(e) => {
                out.append("the cluster refused: ");
                out.append(e.message().as_str());
            },
            ClientError::Io(why) => {
                out.append("the connection failed: ");
                out.append(why.as_str());
            },
            ClientError::Unexpected(response) => {
                out.append("a node answered with something this request cannot mean: ");
                push_response(&mut out, response);
            },
        }
        proof {
            assert(out@ =~= client_error_text(self@));
        }
        out
    }
}

/// What a result stands for.
pub open spec fn result_view(r: Result<Response, ClientError>) -> Result<
    ResponseView,
    ClientErrorView,
> {
    match r {
        Ok(response) => Ok(response@),
        Err(e) => Err(e@),
    }
}

/// How hard to try.
#[derive(Debug, Clone, Copy, PartialEq, Eq, Structural)]
pub struct Retry {
    /// Give up after this long. A client that retried forever would turn an
    /// unavailable cluster into a hung caller, which is harder to diagnose than
    /// an error.
    pub deadline: Duration,
    /// Wait this long after the first refusal.
    pub backoff: Duration,
    /// And multiply the wait by this each time, so a cluster mid-election is not
    /// hammered by every client at once.
    pub backoff_factor: u32,
    /// Never wait longer than this between attempts.
    pub max_backoff: Duration,
}

impl Default for Retry {
    fn default() -> (r: Self)
        ensures
            r.deadline@ == 10_000_000_000,
            r.backoff@ == 5_000_000,
            r.backoff_factor == 2,
            r.max_backoff@ == 200_000_000,
    {
        Retry {
            deadline: Duration::from_secs(10),
            backoff: Duration::from_millis(5),
            backoff_factor: 2,
            max_backoff: Duration::from_millis(200),
        }
    }
}

/// The smaller one of two lengths of time.
pub open spec fn shorter(a: nat, b: nat) -> nat {
    if a < b {
        a
    } else {
        b
    }
}

impl Retry {
    /// How long is waited, where a wait of this length is due.
    pub open spec fn pause(self, wait: nat) -> nat {
        shorter(wait, self.max_backoff@)
    }

    /// How long the wait after that is.
    pub open spec fn longer(self, wait: nat) -> nat {
        shorter(capped(wait * self.backoff_factor as nat), self.max_backoff@)
    }

    /// How long is waited now, and how long the wait after that is.
    pub fn back_off(&self, wait: u64) -> (r: (u64, u64))
        ensures
            r.0 == self.pause(wait as nat),
            r.1 == self.longer(wait as nat),
    {
        let most: u64 = self.max_backoff.as_nanos();
        proof {
            assert(wait as nat * self.backoff_factor as nat <= u64::MAX * u32::MAX)
                by (nonlinear_arith)
                requires
                    wait <= u64::MAX,
                    self.backoff_factor <= u32::MAX,
            ;
        }
        let product: u128 = wait as u128 * self.backoff_factor as u128;
        let next: u64 = if product > u64::MAX as u128 {
            u64::MAX
        } else {
            product as u64
        };
        (
            if wait < most {
                wait
            } else {
                most
            },
            if next < most {
                next
            } else {
                most
            },
        )
    }
}

/// Waits never grow past the longest one.
pub proof fn law_waits_are_bounded(retry: Retry, wait: nat)
    ensures
        retry.pause(wait) <= retry.max_backoff@,
        retry.longer(wait) <= retry.max_backoff@,
{
}

// ----------------------------------------------------------------- the client

/// A connection to a cluster.
pub struct Client {
    /// Which node each endpoint is, as far as it has been learned.
    nodes: Vec<Option<NodeId>>,
    /// Which endpoint to try first. Moved by a redirect and by a failure, so a
    /// steady-state client talks to the leader without asking.
    next: usize,
    session: Option<ClientId>,
    nonce: u64,
    seq: SeqNo,
    /// The label the next request goes out under. One request is outstanding at a
    /// time here, so this exists only so an answer to an abandoned attempt cannot
    /// be read as the answer to the current one.
    next_id: RequestId,
    retry: Retry,
    history: Option<History>,
}

/// What a client stands for.
pub struct ClientView {
    pub nodes: Seq<Option<NodeId>>,
    pub next: usize,
    pub session: Option<ClientId>,
    pub nonce: u64,
    pub seq: SeqNo,
    pub next_id: RequestId,
    pub retry: Retry,
    pub history: Option<Seq<Entry>>,
}

impl View for Client {
    type V = ClientView;

    closed spec fn view(&self) -> ClientView {
        ClientView {
            nodes: self.nodes@,
            next: self.next,
            session: self.session,
            nonce: self.nonce,
            seq: self.seq,
            next_id: self.next_id,
            retry: self.retry,
            history: match self.history {
                Some(history) => Some(history@),
                None => None,
            },
        }
    }
}

/// The first of some endpoints that is known to be a node.
pub open spec fn position_of(nodes: Seq<Option<NodeId>>, id: NodeId) -> Option<int>
    decreases nodes.len(),
{
    if nodes.len() == 0 {
        None
    } else {
        match position_of(nodes.drop_last(), id) {
            Some(i) => Some(i),
            None => if nodes.last() == Some(id) {
                Some(nodes.len() - 1)
            } else {
                None
            },
        }
    }
}

/// Which endpoint, if any, is a node.
///
/// A client is configured with addresses and the cluster answers with node ids,
/// so a hint is only followable once a node has told this client which id it is.
pub fn endpoint_of(nodes: &[Option<NodeId>], id: NodeId) -> (r: Option<usize>)
    ensures
        r is Some <==> position_of(nodes@, id) is Some,
        r matches Some(i) ==> i < nodes@.len() && i as int == position_of(nodes@, id)->0,
{
    let mut i: usize = 0;
    proof {
        assert(nodes@.take(0) =~= Seq::empty());
    }
    while i < nodes.len()
        invariant
            i <= nodes@.len(),
            position_of(nodes@.take(i as int), id) is None,
        decreases nodes@.len() - i,
    {
        proof {
            assert(nodes@.take(i + 1).drop_last() =~= nodes@.take(i as int));
        }
        let here: bool = match nodes[i] {
            Some(known) => known == id,
            None => false,
        };
        if here {
            proof {
                lemma_position_of_a_prefix(nodes@, i + 1, id);
            }
            return Some(i);
        }
        i += 1;
    }
    proof {
        assert(nodes@.take(i as int) =~= nodes@);
    }
    None
}

proof fn lemma_position_of_a_prefix(nodes: Seq<Option<NodeId>>, n: int, id: NodeId)
    requires
        0 <= n <= nodes.len(),
        position_of(nodes.take(n), id) is Some,
    ensures
        position_of(nodes, id) == position_of(nodes.take(n), id),
    decreases nodes.len() - n,
{
    if n == nodes.len() {
        assert(nodes.take(n) =~= nodes);
    } else {
        assert(nodes.take(n + 1).drop_last() =~= nodes.take(n));
        lemma_position_of_a_prefix(nodes, n + 1, id);
    }
}

/// Where a request that is being tried stands.
pub struct Trip {
    deadline: u64,
    wait: u64,
    /// How many endpoints are left to try in this pass; nothing at the top of
    /// one.
    left: Option<usize>,
    last: Option<ClientError>,
}

/// What a trip stands for.
pub struct TripView {
    pub deadline: u64,
    pub wait: u64,
    pub left: Option<usize>,
    pub last: Option<ClientErrorView>,
}

impl View for Trip {
    type V = TripView;

    closed spec fn view(&self) -> TripView {
        TripView {
            deadline: self.deadline,
            wait: self.wait,
            left: self.left,
            last: match self.last {
                Some(e) => Some(e@),
                None => None,
            },
        }
    }
}

/// What to do next.
#[derive(Debug)]
pub enum Step {
    /// Send the request to this endpoint, under this label.
    Send { index: usize, id: RequestId },
    /// Wait this many nanoseconds.
    Sleep { nanos: u64 },
    /// Give up.
    Fail(ClientError),
}

/// What a step stands for.
pub enum StepView {
    Send { index: int, id: RequestId },
    Sleep { nanos: nat },
    Fail(ClientErrorView),
}

impl View for Step {
    type V = StepView;

    open spec fn view(&self) -> StepView {
        match self {
            Step::Send { index, id } => StepView::Send { index: *index as int, id: *id },
            Step::Sleep { nanos } => StepView::Sleep { nanos: *nanos as nat },
            Step::Fail(e) => StepView::Fail(e@),
        }
    }
}

impl ClientView {
    /// A client that has said nothing.
    pub open spec fn fresh(endpoints: nat, nonce: u64, retry: Retry) -> ClientView {
        ClientView {
            nodes: Seq::new(endpoints, |i: int| None),
            next: 0,
            session: None,
            nonce,
            seq: 0,
            next_id: 1,
            retry,
            history: None,
        }
    }

    /// The endpoint tried next.
    pub open spec fn turn(self) -> int {
        self.next as int % self.nodes.len() as int
    }

    /// What to do next about a request. Every endpoint is tried once in a pass;
    /// the deadline is looked at between passes.
    pub open spec fn step(self, trip: TripView, now: u64) -> (ClientView, TripView, StepView) {
        let left = match trip.left {
            Some(left) => left,
            None => self.nodes.len() as usize,
        };
        if trip.left is None && now >= trip.deadline {
            (
                self,
                trip,
                StepView::Fail(
                    match trip.last {
                        Some(e) => e,
                        None => ClientErrorView::Timeout,
                    },
                ),
            )
        } else if left == 0 || self.nodes.len() == 0 {
            (
                self,
                TripView {
                    wait: self.retry.longer(trip.wait as nat) as u64,
                    left: None,
                    ..trip
                },
                StepView::Sleep { nanos: self.retry.pause(trip.wait as nat) },
            )
        } else {
            (
                ClientView { next_id: (self.next_id + 1) as u64, ..self },
                TripView { left: Some((left - 1) as usize), ..trip },
                StepView::Send { index: self.turn(), id: self.next_id },
            )
        }
    }

    /// What an endpoint's answer means: the answer to the request, or that it has
    /// to be tried elsewhere.
    pub open spec fn heard(
        self,
        trip: TripView,
        index: int,
        result: Result<ResponseView, ClientErrorView>,
    ) -> (ClientView, TripView, Option<Result<ResponseView, ClientErrorView>>) {
        let onward = ClientView { next: (index + 1) as usize, ..self };
        match result {
            Ok(ResponseView::NotLeader { leader }) => {
                let hinted = match leader {
                    Some(id) => position_of(self.nodes, id),
                    None => None,
                };
                match hinted {
                    Some(i) => (ClientView { next: i as usize, ..self }, trip, None),
                    None => (onward, trip, None),
                }
            },
            Ok(ResponseView::Error(ApiErrorView::Unavailable)) => (onward, trip, None),
            Ok(ResponseView::Error(ApiErrorView::SessionExpired)) => (
                ClientView { session: None, ..self },
                trip,
                Some(Err(ClientErrorView::Refused(ApiErrorView::SessionExpired))),
            ),
            Ok(ResponseView::Error(e)) => (self, trip, Some(Err(ClientErrorView::Refused(e)))),
            Ok(response) => (self, trip, Some(Ok(response))),
            Err(e) => (onward, TripView { last: Some(e), ..trip }, None),
        }
    }
}

/// What a checker may make of a result. A refusal is a definite "did not happen";
/// a timeout is "may or may not have happened".
pub open spec fn outcome_for(result: Result<ResponseView, ClientErrorView>, outcome: Outcome) -> bool {
    match result {
        Ok(response) => outcome is Answered && outcome->Answered_0@ == response,
        Err(ClientErrorView::Refused(_)) => outcome is Refused,
        Err(_) => outcome is Unknown,
    }
}

/// What a checker may make of a result.
pub fn outcome_of(result: &Result<Response, ClientError>) -> (r: Outcome)
    ensures
        outcome_for(result_view(*result), r),
{
    match result {
        Ok(response) => Outcome::Answered(response.clone()),
        Err(ClientError::Refused(_)) => Outcome::Refused,
        Err(_) => Outcome::Unknown,
    }
}

impl Client {
    /// A client of a cluster with so many endpoints. Nothing is dialled until the
    /// first request.
    pub fn new(endpoints: usize, nonce: u64) -> (r: Self)
        ensures
            exists|retry: Retry| r@ == #[trigger] ClientView::fresh(endpoints as nat, nonce, retry)
                && retry.deadline@ == 10_000_000_000 && retry.backoff@ == 5_000_000
                && retry.backoff_factor == 2 && retry.max_backoff@ == 200_000_000,
    {
        let mut nodes: Vec<Option<NodeId>> = Vec::new();
        while nodes.len() < endpoints
            invariant
                nodes@.len() <= endpoints,
                forall|i: int| 0 <= i < nodes@.len() ==> #[trigger] nodes@[i] is None,
            decreases endpoints - nodes@.len(),
        {
            nodes.push(None);
        }
        let retry: Retry = Retry::default();
        let r = Client {
            nodes,
            next: 0,
            session: None,
            nonce,
            seq: 0,
            next_id: 1,
            retry,
            history: None,
        };
        proof {
            assert(r@.nodes =~= ClientView::fresh(endpoints as nat, nonce, retry).nodes);
            assert(r@ == ClientView::fresh(endpoints as nat, nonce, retry));
        }
        r
    }

    pub fn with_retry(self, retry: Retry) -> (r: Self)
        ensures
            r@ == (ClientView { retry, ..self@ }),
    {
        Client {
            nodes: self.nodes,
            next: self.next,
            session: self.session,
            nonce: self.nonce,
            seq: self.seq,
            next_id: self.next_id,
            retry,
            history: self.history,
        }
    }

    /// Record every operation, for external linearizability checking.
    ///
    /// Several clients' histories are merged into one timeline by a checker, so
    /// the moments they are given have to be measured from one start.
    pub fn recording(self) -> (r: Self)
        ensures
            r@.history is Some,
            r@.history->0.len() == 0,
            r@ == (ClientView { history: r@.history, ..self@ }),
    {
        Client {
            nodes: self.nodes,
            next: self.next,
            session: self.session,
            nonce: self.nonce,
            seq: self.seq,
            next_id: self.next_id,
            retry: self.retry,
            history: Some(History::new()),
        }
    }

    pub fn history(&self) -> (r: Option<&History>)
        ensures
            r is Some <==> self@.history is Some,
            r matches Some(history) ==> history@ == self@.history->0,
    {
        match &self.history {
            Some(history) => Some(history),
            None => None,
        }
    }

    pub fn take_history(&mut self) -> (r: Option<History>)
        ensures
            r is Some <==> old(self)@.history is Some,
            r matches Some(history) ==> history@ == old(self)@.history->0,
            final(self)@ == (ClientView { history: None, ..old(self)@ }),
    {
        self.history.take()
    }

    pub fn session(&self) -> (r: Option<ClientId>)
        ensures
            r == self@.session,
    {
        self.session
    }

    /// A node said which one it is.
    pub fn learned(&mut self, index: usize, id: NodeId)
        requires
            index < old(self)@.nodes.len(),
        ensures
            final(self)@ == (ClientView {
                nodes: old(self)@.nodes.update(index as int, Some(id)),
                ..old(self)@
            }),
    {
        self.nodes.set(index, Some(id));
    }

    /// The session that is open, or the request that opens one: the same nonce
    /// every time, deliberately, so that a registration whose response was lost
    /// comes back with the identity it already handed out.
    pub fn register(&self) -> (r: Result<ClientId, Request>)
        ensures
            match self@.session {
                Some(client) => r == Ok::<ClientId, Request>(client),
                None => r matches Err(request) && request@ == (RequestView::Register {
                    nonce: self@.nonce,
                }),
            },
    {
        match self.session {
            Some(client) => Ok(client),
            None => Err(Request::Register { nonce: self.nonce }),
        }
    }

    /// What came of a registration.
    pub fn registered(&mut self, result: Result<Response, ClientError>) -> (r: Result<
        ClientId,
        ClientError,
    >)
        ensures
            match result_view(result) {
                Ok(ResponseView::Registered { client }) => {
                    &&& r == Ok::<ClientId, ClientError>(client)
                    &&& final(self)@ == (ClientView { session: Some(client), ..old(self)@ })
                },
                Ok(other) => {
                    &&& final(self)@ == old(self)@
                    &&& r matches Err(e)
                    &&& e@ == ClientErrorView::Unexpected(other)
                },
                Err(why) => {
                    &&& final(self)@ == old(self)@
                    &&& r matches Err(e)
                    &&& e@ == why
                },
            },
    {
        match result {
            Ok(Response::Registered { client }) => {
                self.session = Some(client);
                Ok(client)
            },
            Ok(other) => Err(ClientError::Unexpected(other)),
            Err(e) => Err(e),
        }
    }

    /// A command under this client's session. Its sequence number is allocated
    /// once, before the first attempt: every retry carries it.
    pub fn command(&mut self, client: ClientId, command: Command) -> (r: Request)
        requires
            old(self)@.seq < u64::MAX,
        ensures
            r@ == (RequestView::Command {
                client,
                seq: (old(self)@.seq + 1) as u64,
                command: command@,
            }),
            final(self)@ == (ClientView { seq: (old(self)@.seq + 1) as u64, ..old(self)@ }),
    {
        self.seq = self.seq + 1;
        Request::Command { client, seq: self.seq, command }
    }

    /// Begin to try a request.
    pub fn begin(&self, now: u64) -> (r: Trip)
        ensures
            r@ == (TripView {
                deadline: capped(now as nat + self@.retry.deadline@) as u64,
                wait: self@.retry.backoff@ as u64,
                left: None,
                last: None,
            }),
    {
        Trip {
            deadline: now.saturating_add(self.retry.deadline.as_nanos()),
            wait: self.retry.backoff.as_nanos(),
            left: None,
            last: None,
        }
    }

    /// What to do next about a request.
    pub fn round_trip(&mut self, trip: &mut Trip, now: u64) -> (r: Step)
        requires
            old(self)@.next_id < u64::MAX,
        ensures
            (final(self)@, final(trip)@, r@) == old(self)@.step(old(trip)@, now),
            r matches Step::Send { index, .. } ==> index < old(self)@.nodes.len(),
    {
        let left: usize = match trip.left {
            Some(left) => left,
            None => {
                if now >= trip.deadline {
                    let last = trip.last.take();
                    return match last {
                        Some(e) => {
                            let copy = duplicate_error(&e);
                            trip.last = Some(e);
                            Step::Fail(copy)
                        },
                        None => Step::Fail(ClientError::Timeout),
                    };
                }
                self.nodes.len()
            },
        };
        if left == 0 || self.nodes.len() == 0 {
            let (pause, longer) = self.retry.back_off(trip.wait);
            trip.wait = longer;
            trip.left = None;
            return Step::Sleep { nanos: pause };
        }
        let index: usize = self.next % self.nodes.len();
        let id: RequestId = self.next_id;
        self.next_id = self.next_id + 1;
        trip.left = Some(left - 1);
        Step::Send { index, id }
    }

    /// What an endpoint answered: the answer to the request, or nothing where it
    /// has to be tried elsewhere.
    pub fn heard(
        &mut self,
        trip: &mut Trip,
        index: usize,
        result: Result<Response, ClientError>,
    ) -> (r: Option<Result<Response, ClientError>>)
        requires
            index < old(self)@.nodes.len(),
        ensures
            ({
                let (client, after, answer) = old(self)@.heard(
                    old(trip)@,
                    index as int,
                    result_view(result),
                );
                &&& final(self)@ == client
                &&& final(trip)@ == after
                &&& r is Some <==> answer is Some
                &&& r is Some ==> result_view(r->Some_0) == answer->Some_0
            }),
    {
        let count: usize = self.nodes.len();
        assert(index < count);
        match result {
            Ok(Response::NotLeader { leader }) => {
                let hinted: Option<usize> = match leader {
                    Some(id) => endpoint_of(self.nodes.as_slice(), id),
                    None => None,
                };
                self.next = match hinted {
                    Some(i) => i,
                    None => index + 1,
                };
                None
            },
            Ok(Response::Error(ApiError::Unavailable)) => {
                self.next = index + 1;
                None
            },
            Ok(Response::Error(ApiError::SessionExpired)) => {
                self.session = None;
                Some(Err(ClientError::Refused(ApiError::SessionExpired)))
            },
            Ok(Response::Error(e)) => Some(Err(ClientError::Refused(e))),
            Ok(response) => Some(Ok(response)),
            Err(e) => {
                trip.last = Some(e);
                self.next = index + 1;
                None
            },
        }
    }

    /// Record that an operation began, where operations are recorded.
    pub fn record_start(&mut self, op: Op, now: Duration) -> (r: Option<usize>)
        ensures
            match old(self)@.history {
                Some(entries) => {
                    &&& r == Some(entries.len() as usize)
                    &&& final(self)@ == (ClientView {
                        history: Some(
                            entries.push(
                                Entry {
                                    op,
                                    invoked: now,
                                    completed: None,
                                    outcome: Outcome::Pending,
                                },
                            ),
                        ),
                        ..old(self)@
                    })
                },
                None => r is None && final(self)@ == old(self)@,
            },
    {
        match self.history.take() {
            Some(mut history) => {
                let index: usize = history.invoke(op, now);
                self.history = Some(history);
                Some(index)
            },
            None => None,
        }
    }

    /// Record what came of it.
    pub fn record_end(&mut self, started: Option<usize>, outcome: Outcome, now: Duration)
        ensures
            match (old(self)@.history, started) {
                (Some(entries), Some(index)) => final(self)@ == (ClientView {
                    history: Some(
                        if index < entries.len() {
                            entries.update(
                                index as int,
                                Entry {
                                    op: entries[index as int].op,
                                    invoked: entries[index as int].invoked,
                                    completed: Some(now),
                                    outcome,
                                },
                            )
                        } else {
                            entries
                        },
                    ),
                    ..old(self)@
                }),
                _ => final(self)@ == old(self)@,
            },
    {
        match self.history.take() {
            Some(mut history) => {
                match started {
                    Some(index) => {
                        history.complete(index, outcome, now);
                    },
                    None => {},
                }
                self.history = Some(history);
            },
            None => {},
        }
    }
}

/// A second error that stands for the same.
pub fn duplicate_error(e: &ClientError) -> (r: ClientError)
    ensures
        r@ == e@,
{
    match e {
        ClientError::Timeout => ClientError::Timeout,
        ClientError::Refused(e) => ClientError::Refused(e.clone()),
        ClientError::Io(why) => ClientError::Io(why.clone()),
        ClientError::Unexpected(response) => ClientError::Unexpected(response.clone()),
    }
}

// --------------------------------------------------------------- operations

/// Some bytes, again.
pub fn copied(bytes: &[u8]) -> (r: Vec<u8>)
    ensures
        r@ == bytes@,
{
    let mut r: Vec<u8> = Vec::new();
    r.extend_from_slice(bytes);
    proof {
        assert(r@ =~= bytes@);
    }
    r
}

/// Bytes that may be absent, again.
fn copied_optional(bytes: Option<&[u8]>) -> (r: Option<Vec<u8>>)
    ensures
        r is Some <==> bytes is Some,
        r matches Some(copy) ==> copy@ == bytes->0@,
{
    match bytes {
        Some(bytes) => Some(copied(bytes)),
        None => None,
    }
}

/// What bytes that may be absent stand for.
pub open spec fn optional_view(bytes: Option<&[u8]>) -> Option<Seq<u8>> {
    match bytes {
        Some(bytes) => Some(bytes@),
        None => None,
    }
}

pub fn put(key: &[u8], value: &[u8]) -> (r: (Op, Command))
    ensures
        r.0 matches Op::Put(k, v) && k@ == key@ && v@ == value@,
        r.1@ == (CommandView::Put { key: key@, value: value@ }),
{
    (
        Op::Put(copied(key), copied(value)),
        Command::Put { key: copied(key), value: copied(value) },
    )
}

pub fn delete(key: &[u8]) -> (r: (Op, Command))
    ensures
        r.0 matches Op::Delete(k) && k@ == key@,
        r.1@ == (CommandView::Delete { key: key@ }),
{
    (Op::Delete(copied(key)), Command::Delete { key: copied(key) })
}

/// Compare and swap.
pub fn cas(key: &[u8], expect: Option<&[u8]>, value: Option<&[u8]>) -> (r: (Op, Command))
    ensures
        r.0 matches Op::Cas(k, e, v) && k@ == key@ && e.model() == optional_view(expect)
            && v.model() == optional_view(value),
        r.1@ == (CommandView::Cas {
            key: key@,
            expect: optional_view(expect),
            value: optional_view(value),
        }),
{
    (
        Op::Cas(copied(key), copied_optional(expect), copied_optional(value)),
        Command::Cas {
            key: copied(key),
            expect: copied_optional(expect),
            value: copied_optional(value),
        },
    )
}

/// Add to the counter at a key.
pub fn incr(key: &[u8], by: i64) -> (r: (Op, Command))
    ensures
        r.0 matches Op::Incr(k, n) && k@ == key@ && n == by,
        r.1@ == (CommandView::Incr { key: key@, by }),
{
    (Op::Incr(copied(key), by), Command::Incr { key: copied(key), by })
}

pub fn get(key: &[u8]) -> (r: (Op, Request))
    ensures
        r.0 matches Op::Get(k) && k@ == key@,
        r.1@ == (RequestView::Query {
            consistency: Consistency::Linearizable,
            query: QueryView::Get { key: key@ },
        }),
{
    (
        Op::Get(copied(key)),
        Request::Query {
            consistency: Consistency::Linearizable,
            query: Query::Get { key: copied(key) },
        },
    )
}

pub fn scan(start: Option<&[u8]>, end: Option<&[u8]>, limit: u32) -> (r: Request)
    ensures
        r@ == (RequestView::Query {
            consistency: Consistency::Linearizable,
            query: QueryView::Scan {
                start: optional_view(start),
                end: optional_view(end),
                limit,
            },
        }),
{
    Request::Query {
        consistency: Consistency::Linearizable,
        query: Query::Scan { start: copied_optional(start), end: copied_optional(end), limit },
    }
}

/// What came of a `put` or a `delete`.
pub fn applied(result: Result<Response, ClientError>) -> (r: Result<(), ClientError>)
    ensures
        match result_view(result) {
            Ok(ResponseView::Applied) => r is Ok,
            Ok(other) => r matches Err(e) && e@ == ClientErrorView::Unexpected(other),
            Err(why) => r matches Err(e) && e@ == why,
        },
{
    match result {
        Ok(Response::Applied) => Ok(()),
        Ok(other) => Err(ClientError::Unexpected(other)),
        Err(e) => Err(e),
    }
}

/// What came of a compare and swap: nothing where it took effect, and what was
/// there instead where it did not.
pub fn swapped(result: Result<Response, ClientError>) -> (r: Result<
    Option<Option<Vec<u8>>>,
    ClientError,
>)
    ensures
        match result_view(result) {
            Ok(ResponseView::Applied) => r matches Ok(found) && found is None,
            Ok(ResponseView::CasMismatch { actual }) => r matches Ok(found) && found is Some
                && found->Some_0.model() == actual,
            Ok(other) => r matches Err(e) && e@ == ClientErrorView::Unexpected(other),
            Err(why) => r matches Err(e) && e@ == why,
        },
{
    match result {
        Ok(Response::Applied) => Ok(None),
        Ok(Response::CasMismatch { actual }) => Ok(Some(actual)),
        Ok(other) => Err(ClientError::Unexpected(other)),
        Err(e) => Err(e),
    }
}

/// What a counter reads after an increment.
pub fn counted(result: Result<Response, ClientError>) -> (r: Result<i64, ClientError>)
    ensures
        match result_view(result) {
            Ok(ResponseView::Counter(value)) => r matches Ok(n) && n == value,
            Ok(other) => r matches Err(e) && e@ == ClientErrorView::Unexpected(other),
            Err(why) => r matches Err(e) && e@ == why,
        },
{
    match result {
        Ok(Response::Counter(value)) => Ok(value),
        Ok(other) => Err(ClientError::Unexpected(other)),
        Err(e) => Err(e),
    }
}

/// What a `get` found.
pub fn found(result: Result<Response, ClientError>) -> (r: Result<Option<Vec<u8>>, ClientError>)
    ensures
        match result_view(result) {
            Ok(ResponseView::Value(value)) => r matches Ok(v) && v.model() == value,
            Ok(other) => r matches Err(e) && e@ == ClientErrorView::Unexpected(other),
            Err(why) => r matches Err(e) && e@ == why,
        },
{
    match result {
        Ok(Response::Value(value)) => Ok(value),
        Ok(other) => Err(ClientError::Unexpected(other)),
        Err(e) => Err(e),
    }
}

/// What a scan found.
pub fn scanned(result: Result<Response, ClientError>) -> (r: Result<
    Vec<(Vec<u8>, Vec<u8>)>,
    ClientError,
>)
    ensures
        match result_view(result) {
            Ok(ResponseView::Scanned(rows)) => r matches Ok(found) && found.model() == rows,
            Ok(other) => r matches Err(e) && e@ == ClientErrorView::Unexpected(other),
            Err(why) => r matches Err(e) && e@ == why,
        },
{
    match result {
        Ok(Response::Scanned(rows)) => Ok(rows),
        Ok(other) => Err(ClientError::Unexpected(other)),
        Err(e) => Err(e),
    }
}

/// A client has no more endpoints than it can count.
pub proof fn lemma_endpoints_fit(client: Client)
    ensures
        client@.nodes.len() <= usize::MAX,
{
    vstd::std_specs::vec::axiom_spec_len(&client.nodes);
}

// --------------------------------------------------------------------- laws

/// A retry is the same request: whatever an endpoint answers, and whatever is
/// done about it, no sequence number is spent and the nonce stays.
pub proof fn law_a_retry_is_the_same_request(
    client: ClientView,
    trip: TripView,
    now: u64,
    index: int,
    result: Result<ResponseView, ClientErrorView>,
)
    ensures
        client.step(trip, now).0.seq == client.seq,
        client.step(trip, now).0.nonce == client.nonce,
        client.step(trip, now).0.session == client.session,
        client.heard(trip, index, result).0.seq == client.seq,
        client.heard(trip, index, result).0.nonce == client.nonce,
{
}

/// A `NotLeader` and an unavailable node are redirects: neither is an answer.
pub proof fn law_a_redirect_is_not_a_failure(
    client: ClientView,
    trip: TripView,
    index: int,
    leader: Option<NodeId>,
)
    ensures
        client.heard(trip, index, Ok(ResponseView::NotLeader { leader })).2 is None,
        client.heard(trip, index, Ok(ResponseView::Error(ApiErrorView::Unavailable))).2 is None,
        client.heard(trip, index, Ok(ResponseView::NotLeader { leader })).1 == trip,
{
}

/// Every attempt goes out under a label of its own.
pub proof fn law_every_attempt_has_its_own_label(client: ClientView, trip: TripView, now: u64)
    requires
        client.next_id < u64::MAX,
    ensures
        client.step(trip, now).2 matches StepView::Send { id, .. } ==> id == client.next_id
            && client.step(trip, now).0.next_id > id,
{
}

} // verus!
