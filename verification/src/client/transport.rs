//! One connection to one node.
//!
//! Length-prefixed frames, the same as everything else on this wire, except that
//! a client's is request/response rather than a stream.
//!
//! Reading is buffered, and that is not an optimisation. Answers arrive whenever
//! they become true, so a reader has to be able to wait a bounded time and come
//! back with *nothing*. Bytes go into a buffer, frames come out of it, and a read
//! that returns early leaves a partial frame sitting there until the rest of it
//! arrives.

use vstd::prelude::*;
use vstd::string::*;

use crate::api::{
    decode, decoded, encode, says_why_not, too_large_text, Envelope, Request, RequestId, Response,
    MAX_PAYLOAD_BYTES,
};
use crate::client::{ClientError, ClientErrorView};
use crate::le::{from_le32, le32, lemma_le32_read_back, push_le32, read_le32};
use crate::net::frame::framed;
use crate::raft::NodeId;
use crate::text::{decimal, push_decimal};
use crate::wire::Wire;

verus! {

/// The largest response this client will read.
///
/// Checked against the length prefix before anything is reserved: a length is
/// four bytes a hostile or broken peer controls, and a reader that reserves first
/// has already taken the process down by the time it validates.
pub const MAX_RESPONSE_BYTES: usize = 16_777_216;

/// How much already-consumed prefix is tolerated before the buffer is compacted.
///
/// Compacting on every frame would move the remainder for each answer; never
/// compacting would grow the buffer without bound on a long-lived connection.
pub const COMPACT_AFTER: usize = 4_096;

/// One node this client can talk to.
#[derive(Debug)]
pub struct Endpoint {
    /// Whether there is a connection.
    connected: bool,
    /// Learned from the first answer that names it. Until then a redirect hint
    /// pointing at this node cannot be followed.
    node_id: Option<NodeId>,
    /// Bytes read and not yet parsed into a frame.
    inbox: Vec<u8>,
    /// How much of `inbox` has already been handed out.
    consumed: usize,
}

/// What an endpoint stands for.
pub struct EndpointView {
    pub connected: bool,
    pub node_id: Option<NodeId>,
    /// What has arrived and was not yet taken as part of a frame.
    pub waiting: Seq<u8>,
}

impl View for Endpoint {
    type V = EndpointView;

    closed spec fn view(&self) -> EndpointView {
        EndpointView {
            connected: self.connected,
            node_id: self.node_id,
            waiting: self.inbox@.skip(self.consumed as int),
        }
    }
}

impl EndpointView {
    /// Without a connection, nor anything half-read on it.
    pub open spec fn cut_off(self) -> EndpointView {
        EndpointView { connected: false, waiting: Seq::empty(), ..self }
    }
}

/// What the start of some bytes is.
pub enum Front {
    /// Not a whole frame yet.
    Part,
    /// A frame longer than any this client reads.
    TooLong { len: nat },
    /// A whole frame, and what comes after it.
    Whole { payload: Seq<u8>, rest: Seq<u8> },
}

/// What the start of some bytes is.
pub open spec fn front_of(s: Seq<u8>) -> Front {
    if s.len() < 4 {
        Front::Part
    } else {
        let len = from_le32(s.take(4)) as nat;
        if len > MAX_RESPONSE_BYTES {
            Front::TooLong { len }
        } else if s.len() < 4 + len {
            Front::Part
        } else {
            Front::Whole { payload: s.subrange(4, 4 + len as int), rest: s.skip(4 + len as int) }
        }
    }
}

/// What is said of a frame that is too long.
pub open spec fn too_long_text(len: nat) -> Seq<char> {
    "a node answered with a "@ + decimal(len) + "-byte response, above the "@ + decimal(
        MAX_RESPONSE_BYTES as nat,
    ) + "-byte limit"@
}

/// What came of a read.
pub enum Read {
    /// These bytes.
    Bytes(Vec<u8>),
    /// The peer hung up. Anything still waiting is a partial frame, and there
    /// will be no rest of it.
    Closed,
    /// Nothing yet.
    Nothing,
    /// It failed, and this is what the system said.
    Failed(String),
}

impl Endpoint {
    /// What was handed out is part of what arrived, and less of it is kept than
    /// is worth a copy: the buffer does not grow with what has passed through it.
    pub closed spec fn wf(&self) -> bool {
        self.consumed <= self.inbox@.len() && self.consumed < COMPACT_AFTER
    }

    /// Whether what was handed out is to be forgotten: nothing else is left, or
    /// it is worth the copy.
    spec fn is_due(&self) -> bool {
        self.consumed == self.inbox@.len() || self.consumed >= COMPACT_AFTER
    }

    pub fn new() -> (r: Self)
        ensures
            r.wf(),
            r@.connected == false,
            r@.node_id is None,
            r@.waiting.len() == 0,
    {
        Endpoint { connected: false, node_id: None, inbox: Vec::new(), consumed: 0 }
    }

    pub fn node_id(&self) -> (r: Option<NodeId>)
        ensures
            r == self@.node_id,
    {
        self.node_id
    }

    pub fn set_node_id(&mut self, id: NodeId)
        requires
            old(self).wf(),
        ensures
            final(self).wf(),
            final(self)@ == (EndpointView { node_id: Some(id), ..old(self)@ }),
    {
        self.node_id = Some(id);
    }

    pub fn is_connected(&self) -> (r: bool)
        ensures
            r == self@.connected,
    {
        self.connected
    }

    /// Drop the connection and everything half-read on it.
    ///
    /// The buffer goes with the socket, always. A frame that was partly read from
    /// one connection is not the head of a frame on the next one, and keeping it
    /// would splice two answers together.
    pub fn disconnect(&mut self)
        ensures
            final(self).wf(),
            final(self)@ == old(self)@.cut_off(),
    {
        self.connected = false;
        self.inbox.clear();
        self.consumed = 0;
        proof {
            assert(self@.waiting =~= Seq::empty());
        }
    }

    /// A connection was made: nothing has arrived on it.
    pub fn connect(&mut self)
        ensures
            final(self).wf(),
            final(self)@ == (EndpointView { connected: true, ..old(self)@.cut_off() }),
    {
        self.connected = true;
        self.inbox.clear();
        self.consumed = 0;
        proof {
            assert(self@.waiting =~= Seq::empty());
        }
    }

    /// A request under a label, as bytes for the wire.
    pub fn send(id: RequestId, request: &Request) -> (r: Result<Vec<u8>, ClientError>)
        ensures
            ({
                let payload = <Envelope<Request> as Wire>::encoding((id, request.model()));
                &&& r is Ok <==> payload.len() <= MAX_PAYLOAD_BYTES
                &&& r matches Ok(bytes) ==> bytes@ == framed(payload) && decoded::<
                    Envelope<Request>,
                >(payload) == Some((id, request.model()))
                &&& r matches Err(e) ==> e@ == ClientErrorView::Io(too_large_text(payload.len()))
            }),
    {
        let envelope: Envelope<Request> = Envelope::new(id, request.duplicate());
        match encode(&envelope) {
            Ok(payload) => {
                let mut out: Vec<u8> = Vec::new();
                push_le32(&mut out, payload.len() as u32);
                out.extend_from_slice(payload.as_slice());
                proof {
                    assert(out@ =~= framed(payload@));
                }
                Ok(out)
            },
            Err(e) => Err(ClientError::Io(e.message())),
        }
    }

    /// What came of a read.
    pub fn fill(&mut self, read: Read) -> (r: Result<(), ClientError>)
        requires
            old(self).wf(),
        ensures
            final(self).wf(),
            match read {
                Read::Bytes(bytes) => {
                    &&& r is Ok
                    &&& final(self)@ == (EndpointView {
                        waiting: old(self)@.waiting + bytes@,
                        ..old(self)@
                    })
                },
                Read::Nothing => r is Ok && final(self)@ == old(self)@,
                Read::Closed => {
                    &&& final(self)@ == old(self)@.cut_off()
                    &&& r matches Err(e)
                    &&& e@ == ClientErrorView::Io("the node closed the connection"@)
                },
                Read::Failed(why) => {
                    &&& final(self)@ == old(self)@.cut_off()
                    &&& r matches Err(e)
                    &&& e@ == ClientErrorView::Io(why@)
                },
            },
    {
        match read {
            Read::Bytes(bytes) => {
                let ghost before = self.inbox@;
                self.inbox.extend_from_slice(bytes.as_slice());
                proof {
                    assert(self.inbox@ =~= before + bytes@);
                    assert(self@.waiting =~= before.skip(self.consumed as int) + bytes@);
                }
                Ok(())
            },
            Read::Nothing => Ok(()),
            Read::Closed => {
                self.disconnect();
                Err(ClientError::Io("the node closed the connection".to_owned()))
            },
            Read::Failed(why) => {
                self.disconnect();
                Err(ClientError::Io(why))
            },
        }
    }

    /// Forget what was handed out, where nothing else is left or that is worth
    /// the copy; what is waiting stays, alone in the buffer.
    fn compact(&mut self)
        requires
            old(self).consumed <= old(self).inbox@.len(),
        ensures
            final(self).wf(),
            final(self)@ == old(self)@,
            old(self).is_due() ==> final(self).consumed == 0 && final(self).inbox@
                == old(self)@.waiting,
            !old(self).is_due() ==> final(self).consumed == old(self).consumed
                && final(self).inbox@ == old(self).inbox@,
    {
        let ghost before = self@.waiting;
        if self.consumed == self.inbox.len() {
            self.inbox.clear();
            self.consumed = 0;
        } else if self.consumed >= COMPACT_AFTER {
            let rest: Vec<u8> = self.inbox.split_off(self.consumed);
            proof {
                assert(rest@ =~= before);
            }
            self.inbox = rest;
            self.consumed = 0;
        }
        proof {
            assert(self@.waiting =~= before);
        }
    }

    /// Take one whole frame out of the buffer, if there is one.
    ///
    /// A frame that will not decode leaves the stream at a boundary this client
    /// can no longer trust, and so does one that is too long: the connection goes.
    pub fn take_frame(&mut self) -> (r: Result<Option<Envelope<Response>>, ClientError>)
        requires
            old(self).wf(),
        ensures
            final(self).wf(),
            match front_of(old(self)@.waiting) {
                Front::Part => {
                    &&& r matches Ok(frame)
                    &&& frame is None
                    &&& final(self)@ == old(self)@
                },
                Front::TooLong { len } => {
                    &&& final(self)@ == old(self)@.cut_off()
                    &&& r matches Err(e)
                    &&& e@ == ClientErrorView::Io(too_long_text(len))
                },
                Front::Whole { payload, rest } => match decoded::<Envelope<Response>>(payload) {
                    Some(m) => {
                        &&& final(self)@ == (EndpointView { waiting: rest, ..old(self)@ })
                        &&& r matches Ok(frame)
                        &&& frame is Some
                        &&& frame->Some_0.model() == m
                    },
                    None => {
                        &&& final(self)@ == old(self)@.cut_off()
                        &&& r matches Err(e)
                        &&& e@ is Io
                        &&& says_why_not::<Envelope<Response>>(payload, e@->Io_0)
                    },
                },
            },
    {
        let available: usize = self.inbox.len() - self.consumed;
        let ghost waiting = self@.waiting;
        if available < 4 {
            return Ok(None);
        }
        let at: usize = self.consumed;
        let len: usize = read_le32(self.inbox.as_slice(), at) as usize;
        proof {
            assert(self.inbox@.subrange(at as int, at + 4) =~= waiting.take(4));
        }
        if len > MAX_RESPONSE_BYTES {
            self.disconnect();
            let mut out = String::new();
            out.append("a node answered with a ");
            push_decimal(&mut out, len as u64);
            out.append("-byte response, above the ");
            push_decimal(&mut out, MAX_RESPONSE_BYTES as u64);
            out.append("-byte limit");
            proof {
                assert(out@ =~= too_long_text(len as nat));
            }
            return Err(ClientError::Io(out));
        }
        if available - 4 < len {
            return Ok(None);
        }
        let payload: &[u8] = vstd::slice::slice_subrange(
            self.inbox.as_slice(),
            at + 4,
            at + 4 + len,
        );
        proof {
            assert(payload@ =~= waiting.subrange(4, 4 + len as int));
        }
        let frame = decode::<Envelope<Response>>(payload);
        self.consumed = at + 4 + len;
        proof {
            assert(self@.waiting =~= waiting.skip(4 + len as int));
        }
        self.compact();
        match frame {
            Ok(envelope) => Ok(Some(envelope)),
            Err(e) => {
                self.disconnect();
                Err(ClientError::Io(e.message()))
            },
        }
    }
}

/// The answer to one request, if this frame is it. An answer under another label
/// is one this caller has already given up on.
pub fn answer_to(id: RequestId, frame: Envelope<Response>) -> (r: Option<Response>)
    ensures
        r is Some <==> frame.id == id,
        r matches Some(response) ==> response == frame.body,
{
    if frame.id == id {
        Some(frame.body)
    } else {
        None
    }
}

/// How long one attempt waits for its answer, in nanoseconds.
pub const PATIENCE: u64 = 2_000_000_000;

/// One request on its way to its answer.
///
/// One retry on a dead connection, and only one: a peer that closes on every
/// attempt is down, and a client that kept redialling it would spend its whole
/// deadline on the same node.
#[derive(Debug)]
pub struct Exchange {
    id: RequestId,
    retried: bool,
    deadline: u64,
}

/// What an [`Exchange`] stands for.
pub struct ExchangeView {
    pub id: RequestId,
    /// Whether the one retry is spent.
    pub retried: bool,
    /// When the attempt under way is given up.
    pub deadline: u64,
}

impl View for Exchange {
    type V = ExchangeView;

    closed spec fn view(&self) -> ExchangeView {
        ExchangeView { id: self.id, retried: self.retried, deadline: self.deadline }
    }
}

/// What an exchange has its caller do.
#[derive(Debug)]
pub enum Exchanging {
    /// Drop the connection, and send the request again on a new one.
    Redial,
    /// Poll for an answer, for no longer than this.
    Wait { nanos: u64 },
    /// The answer, or why there is none.
    Done(Result<Response, ClientError>),
}

/// What an exchange decides, with the answer and the error told apart from the
/// rest.
pub enum ExchangingView {
    Redial,
    Wait { nanos: u64 },
    Answered,
    Failed(ClientErrorView),
}

impl View for Exchanging {
    type V = ExchangingView;

    open spec fn view(&self) -> ExchangingView {
        match self {
            Exchanging::Redial => ExchangingView::Redial,
            Exchanging::Wait { nanos } => ExchangingView::Wait { nanos: *nanos },
            Exchanging::Done(Ok(_)) => ExchangingView::Answered,
            Exchanging::Done(Err(e)) => ExchangingView::Failed(e@),
        }
    }
}

impl ExchangeView {
    /// An attempt failed.
    pub open spec fn failed(self, why: ClientErrorView) -> (ExchangeView, ExchangingView) {
        if self.retried {
            (self, ExchangingView::Failed(why))
        } else {
            (ExchangeView { retried: true, ..self }, ExchangingView::Redial)
        }
    }

    /// There is no answer yet.
    pub open spec fn waiting(self, now: u64) -> (ExchangeView, ExchangingView) {
        if now < self.deadline {
            (self, ExchangingView::Wait { nanos: (self.deadline - now) as u64 })
        } else {
            self.failed(ClientErrorView::Timeout)
        }
    }

    /// The request was put on the wire.
    pub open spec fn begun(self, now: u64) -> ExchangeView {
        ExchangeView {
            deadline: if now + PATIENCE > u64::MAX {
                u64::MAX
            } else {
                (now + PATIENCE) as u64
            },
            ..self
        }
    }
}

impl Exchange {
    /// A request that goes out under a label.
    pub fn new(id: RequestId) -> (r: Self)
        ensures
            r@ == (ExchangeView { id, retried: false, deadline: 0 }),
    {
        Exchange { id, retried: false, deadline: 0 }
    }

    fn failed(&mut self, why: ClientError) -> (r: Exchanging)
        ensures
            (final(self)@, r@) == old(self)@.failed(why@),
            r matches Exchanging::Done(done) ==> done == Err::<Response, ClientError>(why),
    {
        if self.retried {
            Exchanging::Done(Err(why))
        } else {
            self.retried = true;
            Exchanging::Redial
        }
    }

    fn waiting(&mut self, now: u64) -> (r: Exchanging)
        ensures
            (final(self)@, r@) == old(self)@.waiting(now),
    {
        if now < self.deadline {
            Exchanging::Wait { nanos: self.deadline - now }
        } else {
            self.failed(ClientError::Timeout)
        }
    }

    /// The request was sent at `now`, or was not.
    pub fn sent(&mut self, result: Result<(), ClientError>, now: u64) -> (r: Exchanging)
        ensures
            match result {
                Ok(()) => (final(self)@, r@) == old(self)@.begun(now).waiting(now),
                Err(e) => (final(self)@, r@) == old(self)@.failed(e@),
            },
    {
        match result {
            Ok(()) => {
                self.deadline = now.saturating_add(PATIENCE);
                self.waiting(now)
            },
            Err(e) => self.failed(e),
        }
    }

    /// What a poll brought by `now`. An answer under another label is one this
    /// caller has already given up on.
    pub fn polled(
        &mut self,
        result: Result<Option<Envelope<Response>>, ClientError>,
        now: u64,
    ) -> (r: Exchanging)
        ensures
            match result {
                Err(e) => (final(self)@, r@) == old(self)@.failed(e@),
                Ok(Some(frame)) => if frame.id == old(self)@.id {
                    &&& final(self)@ == old(self)@
                    &&& r == Exchanging::Done(Ok(frame.body))
                } else {
                    (final(self)@, r@) == old(self)@.waiting(now)
                },
                Ok(None) => (final(self)@, r@) == old(self)@.waiting(now),
            },
    {
        match result {
            Err(e) => self.failed(e),
            Ok(None) => self.waiting(now),
            Ok(Some(frame)) => match answer_to(self.id, frame) {
                Some(response) => Exchanging::Done(Ok(response)),
                None => self.waiting(now),
            },
        }
    }
}

/// One retry, and only one: an exchange that has redialled does not redial
/// again, whatever comes of the second attempt.
pub proof fn law_an_exchange_redials_once(e: ExchangeView, why: ClientErrorView, now: u64)
    ensures
        e.failed(why).1 is Redial ==> e.failed(why).0.retried,
        e.waiting(now).1 is Redial ==> e.waiting(now).0.retried,
        e.retried ==> e.failed(why).1 == ExchangingView::Failed(why),
        e.retried ==> e.waiting(now).0.retried && !(e.waiting(now).1 is Redial),
        e.retried ==> e.begun(now).retried,
{
}

/// An exchange does not wait past its deadline.
pub proof fn law_an_exchange_keeps_to_its_deadline(e: ExchangeView, now: u64)
    ensures
        e.waiting(now).1 matches ExchangingView::Wait { nanos } ==> nanos > 0 && now + nanos
            == e.deadline,
{
}

/// An answer that was written is read back whole, and what follows it in the
/// stream is what is left to read.
pub proof fn law_an_answer_is_read_back(payload: Seq<u8>, rest: Seq<u8>)
    requires
        payload.len() <= MAX_RESPONSE_BYTES,
    ensures
        front_of(framed(payload) + rest) == (Front::Whole { payload, rest }),
{
    let s = framed(payload) + rest;
    lemma_le32_read_back(payload.len() as u32);
    assert(s.take(4) =~= le32(payload.len() as u32));
    assert(s.subrange(4, 4 + payload.len() as int) =~= payload);
    assert(s.skip(4 + payload.len() as int) =~= rest);
}

/// A frame that arrives in pieces is not read as a whole one before the last of
/// them: part of a frame is nothing yet.
pub proof fn law_part_of_an_answer_is_nothing_yet(payload: Seq<u8>, cut: int)
    requires
        payload.len() <= MAX_RESPONSE_BYTES,
        0 <= cut < framed(payload).len(),
    ensures
        front_of(framed(payload).take(cut)) == Front::Part,
{
    let whole = framed(payload);
    let s = whole.take(cut);
    if s.len() >= 4 {
        lemma_le32_read_back(payload.len() as u32);
        assert(s.take(4) =~= le32(payload.len() as u32));
    }
}

} // verus!
