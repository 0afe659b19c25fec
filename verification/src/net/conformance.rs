//! One set of assertions, run against every [`Transport`].
//!
//! Two implementations of one trait with two sets of tests are two behaviours
//! sharing a name, and the difference shows up as a bug in whichever one a
//! simulator is not using.

use vstd::prelude::*;

use crate::net::loopback::{Loopback, LoopbackPair, LoopbackView};
use crate::net::{NodeId, Received, Transport, TransportError};
use crate::text::{plain_bytes, to_plain_bytes};

verus! {

/// How many times [`pump`] flushes and polls before giving up.
///
/// An in-memory transport delivers on the first turn. A TCP one may need
/// several, because a frame larger than the socket's send buffer cannot leave
/// until the receiver has taken some of it. A thousand turns is far past either
/// and still finite, so a broken transport fails the suite rather than hanging
/// it.
pub const TURNS: u32 = 1_000;

/// Something that makes connected endpoints, and is the wire between them.
pub trait Link {
    type End: Transport;

    /// Two endpoints that reach each other, and that nothing else was said on.
    fn connect(&mut self) -> (Self::End, Self::End);

    /// Bring what one endpoint flushed to the other. Nothing to do where an
    /// operating system carries it.
    fn carry(&mut self, from: &mut Self::End, to: &mut Self::End);
}

/// What a transport is held to.
#[derive(Debug, Clone, Copy, PartialEq, Eq, Structural)]
pub enum Assertion {
    AFlushedFrameArrivesWhole,
    AnEmptyFrameIsStillAFrame,
    FramesToOnePeerKeepTheirOrder,
    RecvDoesNotBlockWhenNothingHasArrived,
    BothDirectionsAreIndependent,
    AFrameIsAttributedToTheNodeThatSentIt,
    LocalReportsTheNodeTheTransportSpeaksAs,
    AnUnknownPeerIsRefused,
    AFrameFarLargerThanASocketBufferSurvives,
}

/// How a transport fell short.
#[derive(Debug)]
pub enum Violation {
    SendFailed(TransportError),
    FlushFailed(TransportError),
    RecvFailed(TransportError),
    NeverArrived,
    /// A frame arrived that is not the one that was sent.
    Altered(Vec<u8>),
    /// Something arrived where nothing was sent.
    NotIdle(Received),
    Misattributed { got: NodeId, sender: NodeId },
    /// Both ends of a link reported the same node.
    SameNode(NodeId),
    /// A send to a peer without a route was accepted.
    StrangerAccepted(NodeId),
    /// A send to a peer without a route was refused for another reason.
    StrangerRefusedOtherwise(TransportError),
}

/// The first assertion that a transport failed, and how.
#[derive(Debug)]
pub struct Failure {
    pub assertion: Assertion,
    pub violation: Violation,
}

/// Whether what arrived is what was sent.
pub fn judge_frame(got: Option<Received>, sent: &[u8]) -> (r: Result<Received, Violation>)
    ensures
        match r {
            Ok(received) => got == Some(received) && received.frame@ == sent@,
            Err(Violation::NeverArrived) => got is None,
            Err(Violation::Altered(bytes)) => {
                &&& got is Some
                &&& got->0.frame == bytes
                &&& bytes@ != sent@
            },
            Err(_) => false,
        },
{
    match got {
        Some(received) => {
            if same_bytes(received.frame.as_slice(), sent) {
                Ok(received)
            } else {
                Err(Violation::Altered(received.frame))
            }
        },
        None => Err(Violation::NeverArrived),
    }
}

/// Whether a frame is attributed to its sender.
pub fn judge_sender(got: &Received, sender: NodeId) -> (r: Result<(), Violation>)
    ensures
        match r {
            Ok(()) => got.from == sender,
            Err(Violation::Misattributed { got: other, sender: right }) => {
                &&& other == got.from
                &&& right == sender
                &&& other != right
            },
            Err(_) => false,
        },
{
    if got.from == sender {
        Ok(())
    } else {
        Err(Violation::Misattributed { got: got.from, sender })
    }
}

/// Whether an endpoint that nothing was sent to says so at once.
pub fn judge_idle(got: Result<Option<Received>, TransportError>) -> (r: Result<(), Violation>)
    ensures
        match r {
            Ok(()) => got is Ok && got->Ok_0 is None,
            Err(Violation::NotIdle(received)) => got is Ok && got->Ok_0 == Some(received),
            Err(Violation::RecvFailed(e)) => got is Err && got->Err_0 == e,
            Err(_) => false,
        },
{
    match got {
        Ok(None) => Ok(()),
        Ok(Some(received)) => Err(Violation::NotIdle(received)),
        Err(e) => Err(Violation::RecvFailed(e)),
    }
}

/// Whether a send to a peer without a route was refused as one.
pub fn judge_stranger(got: Result<(), TransportError>, stranger: NodeId) -> (r: Result<
    (),
    Violation,
>)
    ensures
        match r {
            Ok(()) => got is Err && got->Err_0 == TransportError::UnknownPeer(stranger),
            Err(Violation::StrangerAccepted(id)) => got is Ok && id == stranger,
            Err(Violation::StrangerRefusedOtherwise(e)) => {
                &&& got is Err
                &&& got->Err_0 == e
                &&& e != TransportError::UnknownPeer(stranger)
            },
            Err(_) => false,
        },
{
    match got {
        Ok(()) => Err(Violation::StrangerAccepted(stranger)),
        Err(TransportError::UnknownPeer(id)) => {
            if id == stranger {
                Ok(())
            } else {
                Err(Violation::StrangerRefusedOtherwise(TransportError::UnknownPeer(id)))
            }
        },
        Err(e) => Err(Violation::StrangerRefusedOtherwise(e)),
    }
}

/// Whether two byte strings are the same.
fn same_bytes(a: &[u8], b: &[u8]) -> (r: bool)
    ensures
        r == (a@ == b@),
{
    if a.len() != b.len() {
        return false;
    }
    let mut i: usize = 0;
    while i < a.len()
        invariant
            i <= a@.len() == b@.len(),
            forall|j: int| 0 <= j < i ==> a@[j] == b@[j],
        decreases a@.len() - i,
    {
        if a[i] != b[i] {
            return false;
        }
        i += 1;
    }
    proof {
        assert(a@ =~= b@);
    }
    true
}

/// What is made of what the transport gave when it was polled.
pub open spec fn poll_verdict(got: Result<Option<Received>, TransportError>) -> Result<
    Option<Received>,
    Violation,
> {
    match got {
        Ok(got) => Ok(got),
        Err(e) => Err(Violation::RecvFailed(e)),
    }
}

/// One turn of [`pump`]: flush one end, carry what it flushed, and poll the other.
pub fn turn<L: Link>(link: &mut L, from: &mut L::End, to: &mut L::End) -> (r: Result<
    Option<Received>,
    Violation,
>)
    ensures
        exists|pushed: &mut L::End, done: Result<(), TransportError>|
            {
                &&& *pushed == *old(from)
                &&& #[trigger] call_ensures(<L::End as Transport>::flush, (pushed,), done)
                &&& match done {
                    Err(e) => {
                        &&& r == Err::<Option<Received>, Violation>(Violation::FlushFailed(e))
                        &&& *final(from) == *final(pushed)
                        &&& *final(to) == *old(to)
                        &&& *final(link) == *old(link)
                    },
                    Ok(()) => exists|wire: &mut L, near: &mut L::End, far: &mut L::End|
                        {
                            &&& *wire == *old(link) && *final(wire) == *final(link)
                            &&& *near == *final(pushed) && *final(near) == *final(from)
                            &&& *far == *old(to)
                            &&& #[trigger] call_ensures(L::carry, (wire, near, far), ())
                            &&& exists|
                                end: &mut L::End,
                                got: Result<Option<Received>, TransportError>,
                            |
                                {
                                    &&& *end == *final(far) && *final(end) == *final(to)
                                    &&& #[trigger] call_ensures(
                                        <L::End as Transport>::recv,
                                        (end,),
                                        got,
                                    )
                                    &&& r == poll_verdict(got)
                                }
                        },
                }
            },
        match r {
            Ok(got) => polled::<L::End>(got),
            Err(Violation::FlushFailed(e)) => flush_failed::<L::End>(e),
            Err(Violation::RecvFailed(e)) => recv_failed::<L::End>(e),
            Err(_) => false,
        },
{
    if let Err(e) = from.flush() {
        return Err(Violation::FlushFailed(e));
    }
    link.carry(from, to);
    match to.recv() {
        Ok(got) => Ok(got),
        Err(e) => Err(Violation::RecvFailed(e)),
    }
}

/// Whether [`turn`] gave this on these.
#[verifier::opaque]
pub open spec fn turned<L: Link>(
    wire: &mut L,
    near: &mut L::End,
    far: &mut L::End,
    got: Result<Option<Received>, Violation>,
) -> bool {
    call_ensures(turn::<L>, (wire, near, far), got)
}

/// Whether an end of a link gave this when it was polled.
pub open spec fn polled<E: Transport>(got: Option<Received>) -> bool {
    exists|end: &mut E| #[trigger]
        call_ensures(
            <E as Transport>::recv,
            (end,),
            Ok::<Option<Received>, TransportError>(got),
        )
}

/// Whether an end of a link failed like this when it was polled.
pub open spec fn recv_failed<E: Transport>(e: TransportError) -> bool {
    exists|end: &mut E| #[trigger]
        call_ensures(
            <E as Transport>::recv,
            (end,),
            Err::<Option<Received>, TransportError>(e),
        )
}

/// Whether an end of a link failed like this when it was flushed.
pub open spec fn flush_failed<E: Transport>(e: TransportError) -> bool {
    exists|end: &mut E| #[trigger]
        call_ensures(<E as Transport>::flush, (end,), Err::<(), TransportError>(e))
}

/// Whether to go on polling.
#[derive(Debug)]
pub enum Poll {
    Again,
    Over(Result<Option<Received>, Violation>),
}

/// What follows from a turn, after so many of them: another one, as long as
/// nothing came of it and there are turns left.
pub fn judge_turn(got: Result<Option<Received>, Violation>, turns: u32) -> (r: Poll)
    ensures
        r == (if got == Ok::<Option<Received>, Violation>(None) && turns < TURNS {
            Poll::Again
        } else {
            Poll::Over(got)
        }),
{
    match got {
        Ok(None) => {
            if turns < TURNS {
                Poll::Again
            } else {
                Poll::Over(Ok(None))
            }
        },
        got => Poll::Over(got),
    }
}

/// Whether [`pump`] gave this on these.
#[verifier::opaque]
pub open spec fn pumped<L: Link>(
    wire: &mut L,
    near: &mut L::End,
    far: &mut L::End,
    got: Result<Option<Received>, Violation>,
) -> bool {
    call_ensures(pump::<L>, (wire, near, far), got)
}

/// Drive both ends until one frame arrives at `to`, the way a host loop does.
///
/// Flushing on every turn is what the trait asks of a host: a single flush is
/// only promised to push as much as the operating system will take.
pub fn pump<L: Link>(link: &mut L, from: &mut L::End, to: &mut L::End) -> (r: Result<
    Option<Received>,
    Violation,
>)
    ensures
        exists|links: Seq<L>, froms: Seq<L::End>, tos: Seq<L::End>|
            #![trigger links.len(), froms.len(), tos.len()]
            {
                let n = links.len() - 1;
                &&& 1 <= n <= TURNS && froms.len() == n + 1 && tos.len() == n + 1
                &&& links[0] == *old(link) && froms[0] == *old(from) && tos[0] == *old(to)
                &&& links[n] == *final(link) && froms[n] == *final(from) && tos[n] == *final(to)
                &&& forall|i: int|
                    #![trigger links[i]]
                    0 <= i < n ==> exists|
                        wire: &mut L,
                        near: &mut L::End,
                        far: &mut L::End,
                        got: Result<Option<Received>, Violation>,
                    |
                        {
                            &&& *wire == links[i] && *final(wire) == links[i + 1]
                            &&& *near == froms[i] && *final(near) == froms[i + 1]
                            &&& *far == tos[i] && *final(far) == tos[i + 1]
                            &&& #[trigger] turned(wire, near, far, got)
                            &&& got == (if i < n - 1 {
                                Ok::<Option<Received>, Violation>(None)
                            } else {
                                r
                            })
                        }
                &&& r == Ok::<Option<Received>, Violation>(None) ==> n == TURNS
            },
        match r {
            Ok(got) => polled::<L::End>(got),
            Err(Violation::FlushFailed(e)) => flush_failed::<L::End>(e),
            Err(Violation::RecvFailed(e)) => recv_failed::<L::End>(e),
            Err(_) => false,
        },
{
    let ghost mut links: Seq<L> = seq![*link];
    let ghost mut froms: Seq<L::End> = seq![*from];
    let ghost mut tos: Seq<L::End> = seq![*to];
    let mut turns: u32 = 0;
    loop
        invariant
            turns < TURNS,
            links.len() == turns + 1 && froms.len() == turns + 1 && tos.len() == turns + 1,
            links[0] == *old(link) && froms[0] == *old(from) && tos[0] == *old(to),
            links[turns as int] == *link && froms[turns as int] == *from && tos[turns as int]
                == *to,
            forall|i: int|
                #![trigger links[i]]
                0 <= i < turns ==> exists|
                    wire: &mut L,
                    near: &mut L::End,
                    far: &mut L::End,
                    got: Result<Option<Received>, Violation>,
                |
                    {
                        &&& *wire == links[i] && *final(wire) == links[i + 1]
                        &&& *near == froms[i] && *final(near) == froms[i + 1]
                        &&& *far == tos[i] && *final(far) == tos[i + 1]
                        &&& #[trigger] turned(wire, near, far, got)
                        &&& got == Ok::<Option<Received>, Violation>(None)
                    },
        decreases TURNS - turns,
    {
        let ghost (wire, near, far) = (*link, *from, *to);
        let got = turn(link, from, to);
        turns += 1;
        proof {
            let (w, n, f) = choose|w: &mut L, n: &mut L::End, f: &mut L::End|
                {
                    &&& *w == wire && *final(w) == *link
                    &&& *n == near && *final(n) == *from
                    &&& *f == far && *final(f) == *to
                    &&& #[trigger] call_ensures(turn::<L>, (w, n, f), got)
                };
            reveal(turned);
            assert(turned(w, n, f, got));
            links = links.push(*link);
            froms = froms.push(*from);
            tos = tos.push(*to);
        }
        match judge_turn(got, turns) {
            Poll::Again => {},
            Poll::Over(r) => {
                proof {
                    assert(links.len() == turns + 1 && froms.len() == turns + 1 && tos.len() == turns + 1);
                }
                return r;
            },
        }
    }
}

// ------------------------------------------------------------ conversations

/// One frame of a conversation: which end says it, and what it says.
#[derive(Debug, PartialEq, Eq)]
pub struct Said {
    pub by_left: bool,
    pub frame: Vec<u8>,
}

/// What a [`Said`] stands for.
pub struct SaidView {
    pub by_left: bool,
    pub frame: Seq<u8>,
}

impl View for Said {
    type V = SaidView;

    open spec fn view(&self) -> SaidView {
        SaidView { by_left: self.by_left, frame: self.frame@ }
    }
}

/// What the frames of a conversation are.
pub open spec fn said_views(script: Seq<Said>) -> Seq<SaidView> {
    script.map_values(|s: Said| s@)
}

/// The payload of the large frame: a million bytes that repeat no sooner than a
/// splice would show.
pub open spec fn large_bytes() -> Seq<u8> {
    Seq::new(1_000_000, |i: int| (i % 251) as u8)
}

pub fn large_payload() -> (r: Vec<u8>)
    ensures
        r@ == large_bytes(),
{
    let mut r: Vec<u8> = Vec::new();
    let mut i: u32 = 0;
    while i < 1_000_000
        invariant
            i <= 1_000_000,
            r@.len() == i,
            forall|j: int| 0 <= j < r@.len() ==> #[trigger] r@[j] == (j % 251) as u8,
        decreases 1_000_000 - i,
    {
        r.push((i % 251) as u8);
        i += 1;
    }
    proof {
        assert(r@ =~= large_bytes());
    }
    r
}

/// What is said between two ends to put an assertion to the test: all of it is
/// sent before any of it is taken. Nothing is, where the assertion is not about
/// what arrives.
///
/// Raft survives reordering, but a transport that adds its own makes every log
/// stream harder to reason about than it needs to be, so one conversation is
/// many frames long. Another is a frame several times the size of a socket
/// buffer, which cannot cross in one write: a splice, a truncation, or an
/// off-by-one in a length check would show up on it.
pub open spec fn scripted(assertion: Assertion) -> Seq<SaidView> {
    match assertion {
        Assertion::AFlushedFrameArrivesWhole => seq![
            SaidView { by_left: true, frame: plain_bytes("a whole frame"@) },
        ],
        Assertion::AnEmptyFrameIsStillAFrame => seq![
            SaidView { by_left: true, frame: Seq::empty() },
        ],
        Assertion::FramesToOnePeerKeepTheirOrder => Seq::new(
            32,
            |i: int| SaidView { by_left: true, frame: seq![i as u8, i as u8, i as u8] },
        ),
        Assertion::BothDirectionsAreIndependent => seq![
            SaidView { by_left: true, frame: plain_bytes("to b"@) },
            SaidView { by_left: false, frame: plain_bytes("to a"@) },
        ],
        Assertion::AFrameIsAttributedToTheNodeThatSentIt => seq![
            SaidView { by_left: true, frame: plain_bytes("x"@) },
        ],
        Assertion::AFrameFarLargerThanASocketBufferSurvives => seq![
            SaidView { by_left: true, frame: large_bytes() },
        ],
        _ => Seq::empty(),
    }
}

fn one(frame: Vec<u8>) -> (r: Vec<Said>)
    ensures
        said_views(r@) == seq![SaidView { by_left: true, frame: frame@ }],
{
    let mut r: Vec<Said> = Vec::new();
    r.push(Said { by_left: true, frame });
    proof {
        assert(said_views(r@) =~= seq![SaidView { by_left: true, frame: frame@ }]);
    }
    r
}

/// What is said to put an assertion to the test.
pub fn script(assertion: Assertion) -> (r: Vec<Said>)
    ensures
        said_views(r@) == scripted(assertion),
{
    match assertion {
        Assertion::AFlushedFrameArrivesWhole => one(to_plain_bytes("a whole frame")),
        Assertion::AnEmptyFrameIsStillAFrame => one(Vec::new()),
        Assertion::FramesToOnePeerKeepTheirOrder => {
            let mut r: Vec<Said> = Vec::new();
            let mut i: u8 = 0;
            while i < 32
                invariant
                    i <= 32,
                    r@.len() == i,
                    forall|j: int|
                        0 <= j < i ==> (#[trigger] r@[j])@ == (SaidView {
                            by_left: true,
                            frame: seq![j as u8, j as u8, j as u8],
                        }),
                decreases 32 - i,
            {
                let frame: Vec<u8> = vec![i, i, i];
                proof {
                    assert(frame@ =~= seq![i, i, i]);
                }
                r.push(Said { by_left: true, frame });
                i += 1;
            }
            proof {
                assert(said_views(r@) =~= scripted(assertion));
            }
            r
        },
        Assertion::BothDirectionsAreIndependent => {
            let mut r = one(to_plain_bytes("to b"));
            let ghost before = r@;
            r.push(Said { by_left: false, frame: to_plain_bytes("to a") });
            proof {
                assert(said_views(before).len() == 1);
                assert(said_views(before)[0] == before[0]@);
                assert(said_views(r@) =~= scripted(assertion));
            }
            r
        },
        Assertion::AFrameIsAttributedToTheNodeThatSentIt => one(to_plain_bytes("x")),
        Assertion::AFrameFarLargerThanASocketBufferSurvives => one(large_payload()),
        _ => {
            let r: Vec<Said> = Vec::new();
            proof {
                assert(said_views(r@) =~= Seq::empty());
            }
            r
        },
    }
}

/// Whether an assertion is about who a frame came from, and not only about the
/// frame.
pub open spec fn names_the_sender(assertion: Assertion) -> bool {
    assertion == Assertion::AFrameIsAttributedToTheNodeThatSentIt
}

/// What is made of what arrived, where a frame was due.
pub open spec fn verdict(
    assertion: Assertion,
    got: Option<Received>,
    frame: Seq<u8>,
    sender: NodeId,
) -> Result<(), Violation> {
    match got {
        None => Err(Violation::NeverArrived),
        Some(received) => if received.frame@ != frame {
            Err(Violation::Altered(received.frame))
        } else if names_the_sender(assertion) && received.from != sender {
            Err(Violation::Misattributed { got: received.from, sender })
        } else {
            Ok(())
        },
    }
}

/// Whether what arrived answers one frame of a conversation.
pub fn judge(assertion: Assertion, got: Option<Received>, said: &Said, sender: NodeId) -> (r: Result<
    (),
    Violation,
>)
    ensures
        r is Ok <==> verdict(assertion, got, said.frame@, sender) is Ok,
        r is Err ==> r == verdict(assertion, got, said.frame@, sender),
{
    match judge_frame(got, said.frame.as_slice()) {
        Ok(received) => {
            if matches!(assertion, Assertion::AFrameIsAttributedToTheNodeThatSentIt) {
                judge_sender(&received, sender)
            } else {
                Ok(())
            }
        },
        Err(v) => Err(v),
    }
}

/// Whether a transport can fall short of an assertion in a way.
pub open spec fn can_fail(assertion: Assertion, violation: Violation) -> bool {
    match violation {
        Violation::SendFailed(_) => scripted(assertion).len() > 0,
        Violation::FlushFailed(_) => scripted(assertion).len() > 0,
        Violation::RecvFailed(_) => scripted(assertion).len() > 0 || assertion
            == Assertion::RecvDoesNotBlockWhenNothingHasArrived,
        Violation::NeverArrived => scripted(assertion).len() > 0,
        Violation::Altered(bytes) => exists|i: int|
            0 <= i < scripted(assertion).len() && (#[trigger] scripted(assertion)[i]).frame
                != bytes@,
        Violation::NotIdle(_) => assertion == Assertion::RecvDoesNotBlockWhenNothingHasArrived,
        Violation::Misattributed { got, sender } => names_the_sender(assertion) && got != sender,
        Violation::SameNode(_) => assertion == Assertion::LocalReportsTheNodeTheTransportSpeaksAs,
        Violation::StrangerAccepted(_) => assertion == Assertion::AnUnknownPeerIsRefused,
        Violation::StrangerRefusedOtherwise(_) => assertion == Assertion::AnUnknownPeerIsRefused,
    }
}

/// Whether an end of a link took a frame for a peer.
pub open spec fn taken<E: Transport>(frame: Seq<u8>, peer: NodeId) -> bool {
    exists|end: &mut E, bytes: &[u8], got: Result<(), TransportError>|
        {
            &&& #[trigger] call_ensures(<E as Transport>::send, (end, peer, bytes), got)
            &&& bytes@ == frame
            &&& got is Ok
        }
}

/// Whether a frame came out of an end of a link whole, and from its sender where
/// that is asked.
pub open spec fn arrived<E: Transport>(
    assertion: Assertion,
    frame: Seq<u8>,
    sender: NodeId,
) -> bool {
    exists|got: Received|
        {
            &&& #[trigger] polled::<E>(Some(got))
            &&& got.frame@ == frame
            &&& names_the_sender(assertion) ==> got.from == sender
        }
}

/// Whether two ends of a link speak as these nodes.
pub open spec fn speak_as<E: Transport>(left: NodeId, right: NodeId) -> bool {
    exists|a: &E, b: &E|
        #![trigger call_ensures(<E as Transport>::local, (a,), left), call_ensures(<E as Transport>::local, (b,), right)]
        call_ensures(<E as Transport>::local, (a,), left) && call_ensures(
            <E as Transport>::local,
            (b,),
            right,
        )
}

/// Whom one frame of a conversation is for.
pub open spec fn hearer(said: SaidView, left: NodeId, right: NodeId) -> NodeId {
    if said.by_left {
        right
    } else {
        left
    }
}

/// Who says one frame of a conversation.
pub open spec fn sayer(said: SaidView, left: NodeId, right: NodeId) -> NodeId {
    if said.by_left {
        left
    } else {
        right
    }
}

/// Whether the ends of links were seen to keep an assertion.
pub open spec fn held<E: Transport>(assertion: Assertion) -> bool {
    match assertion {
        Assertion::RecvDoesNotBlockWhenNothingHasArrived => polled::<E>(None),
        Assertion::LocalReportsTheNodeTheTransportSpeaksAs => exists|left: NodeId, right: NodeId|
            left != right && #[trigger] speak_as::<E>(left, right),
        Assertion::AnUnknownPeerIsRefused => exists|
            left: NodeId,
            right: NodeId,
            end: &mut E,
            peer: NodeId,
            bytes: &[u8],
            got: Result<(), TransportError>,
        |
            {
                &&& #[trigger] speak_as::<E>(left, right)
                &&& peer == stranger_to(left, right)
                &&& bytes@ == plain_bytes("nowhere"@)
                &&& #[trigger] call_ensures(<E as Transport>::send, (end, peer, bytes), got)
                &&& got == Err::<(), TransportError>(TransportError::UnknownPeer(peer))
            },
        _ => exists|left: NodeId, right: NodeId|
            {
                &&& #[trigger] speak_as::<E>(left, right)
                &&& forall|i: int|
                    0 <= i < scripted(assertion).len() ==> {
                        let said = #[trigger] scripted(assertion)[i];
                        &&& taken::<E>(said.frame, hearer(said, left, right))
                        &&& arrived::<E>(assertion, said.frame, sayer(said, left, right))
                    }
            },
    }
}

/// Have one end say one frame of a conversation to the other.
pub fn say<E: Transport>(a: &mut E, b: &mut E, left: NodeId, right: NodeId, said: &Said) -> (r:
    Result<(), TransportError>)
    ensures
        exists|end: &mut E, peer: NodeId, bytes: &[u8]|
            {
                &&& bytes@ == said.frame@
                &&& peer == hearer(said@, left, right)
                &&& #[trigger] call_ensures(<E as Transport>::send, (end, peer, bytes), r)
                &&& if said.by_left {
                    &&& *end == *old(a) && *final(end) == *final(a)
                    &&& *final(b) == *old(b)
                } else {
                    &&& *end == *old(b) && *final(end) == *final(b)
                    &&& *final(a) == *old(a)
                }
            },
        r is Ok ==> taken::<E>(said.frame@, hearer(said@, left, right)),
{
    if said.by_left {
        a.send(right, said.frame.as_slice())
    } else {
        b.send(left, said.frame.as_slice())
    }
}

/// Whether [`say`] gave this on these.
#[verifier::opaque]
pub open spec fn spoke<E: Transport>(
    a: &mut E,
    b: &mut E,
    left: NodeId,
    right: NodeId,
    said: Said,
    got: Result<(), TransportError>,
) -> bool {
    call_ensures(say::<E>, (a, b, left, right, &said), got)
}

/// Say all of a conversation, up to a frame that is refused.
pub fn say_all<E: Transport>(
    a: &mut E,
    b: &mut E,
    left: NodeId,
    right: NodeId,
    said: &[Said],
) -> (r: Result<(), Violation>)
    ensures
        exists|lefts: Seq<E>, rights: Seq<E>|
            #![trigger lefts.len(), rights.len()]
            {
                let n = lefts.len() - 1;
                &&& 0 <= n <= said@.len() && rights.len() == n + 1
                &&& lefts[0] == *old(a) && rights[0] == *old(b)
                &&& lefts[n] == *final(a) && rights[n] == *final(b)
                &&& forall|i: int|
                    #![trigger lefts[i]]
                    0 <= i < n ==> exists|
                        x: &mut E,
                        y: &mut E,
                        one: Said,
                        got: Result<(), TransportError>,
                    |
                        {
                            &&& *x == lefts[i] && *final(x) == lefts[i + 1]
                            &&& *y == rights[i] && *final(y) == rights[i + 1]
                            &&& one == said@[i]
                            &&& #[trigger] spoke(x, y, left, right, one, got)
                            &&& if i < n - 1 || r is Ok {
                                got is Ok
                            } else {
                                got is Err && r == Err::<(), Violation>(
                                    Violation::SendFailed(got->Err_0),
                                )
                            }
                        }
                &&& r is Ok ==> n == said@.len()
                &&& r is Err ==> n > 0
            },
        r matches Err(v) ==> v is SendFailed && said@.len() > 0,
        r is Ok ==> forall|i: int|
            0 <= i < said@.len() ==> taken::<E>(
                (#[trigger] said@[i]).frame@,
                hearer(said@[i]@, left, right),
            ),
{
    let ghost mut lefts: Seq<E> = seq![*a];
    let ghost mut rights: Seq<E> = seq![*b];
    let mut i: usize = 0;
    while i < said.len()
        invariant
            i <= said@.len(),
            lefts.len() == i + 1 && rights.len() == i + 1,
            lefts[0] == *old(a) && rights[0] == *old(b),
            lefts[i as int] == *a && rights[i as int] == *b,
            forall|j: int|
                #![trigger lefts[j]]
                0 <= j < i ==> exists|
                    x: &mut E,
                    y: &mut E,
                    one: Said,
                    got: Result<(), TransportError>,
                |
                    {
                        &&& *x == lefts[j] && *final(x) == lefts[j + 1]
                        &&& *y == rights[j] && *final(y) == rights[j + 1]
                        &&& one == said@[j]
                        &&& #[trigger] spoke(x, y, left, right, one, got)
                        &&& got is Ok
                    },
            forall|j: int|
                0 <= j < i ==> taken::<E>(
                    (#[trigger] said@[j]).frame@,
                    hearer(said@[j]@, left, right),
                ),
        decreases said@.len() - i,
    {
        let ghost (near, far) = (*a, *b);
        let one: &Said = &said[i];
        let got = say(a, b, left, right, one);
        proof {
            let (x, y) = choose|x: &mut E, y: &mut E|
                {
                    &&& *x == near && *final(x) == *a
                    &&& *y == far && *final(y) == *b
                    &&& #[trigger] call_ensures(say::<E>, (x, y, left, right, one), got)
                };
            reveal(spoke);
            assert(spoke(x, y, left, right, said@[i as int], got));
        }
        i += 1;
        proof {
            lefts = lefts.push(*a);
            rights = rights.push(*b);
        }
        if let Err(e) = got {
            proof {
                assert(lefts.len() == i + 1 && rights.len() == i + 1);
            }
            return Err(Violation::SendFailed(e));
        }
    }
    proof {
        assert(lefts.len() == i + 1 && rights.len() == i + 1);
    }
    Ok(())
}

/// Whether [`say_all`] gave this on these.
#[verifier::opaque]
pub open spec fn spoke_all<E: Transport>(
    a: &mut E,
    b: &mut E,
    left: NodeId,
    right: NodeId,
    said: &[Said],
    got: Result<(), Violation>,
) -> bool {
    call_ensures(say_all::<E>, (a, b, left, right, said), got)
}

/// What is made of what a pump gave, where a frame was due.
pub open spec fn heard_verdict(
    assertion: Assertion,
    got: Result<Option<Received>, Violation>,
    frame: Seq<u8>,
    sender: NodeId,
) -> Result<(), Violation> {
    match got {
        Ok(got) => verdict(assertion, got, frame, sender),
        Err(v) => Err(v),
    }
}

/// Pump until one frame of a conversation arrives, and judge it.
pub fn hear<L: Link>(
    link: &mut L,
    a: &mut L::End,
    b: &mut L::End,
    left: NodeId,
    right: NodeId,
    assertion: Assertion,
    said: &Said,
) -> (r: Result<(), Violation>)
    ensures
        exists|
            wire: &mut L,
            near: &mut L::End,
            far: &mut L::End,
            got: Result<Option<Received>, Violation>,
        |
            {
                &&& *wire == *old(link) && *final(wire) == *final(link)
                &&& if said.by_left {
                    &&& *near == *old(a) && *final(near) == *final(a)
                    &&& *far == *old(b) && *final(far) == *final(b)
                } else {
                    &&& *near == *old(b) && *final(near) == *final(b)
                    &&& *far == *old(a) && *final(far) == *final(a)
                }
                &&& #[trigger] pumped(wire, near, far, got)
                &&& r is Ok <==> heard_verdict(
                    assertion,
                    got,
                    said.frame@,
                    sayer(said@, left, right),
                ) is Ok
                &&& r is Err ==> r == heard_verdict(
                    assertion,
                    got,
                    said.frame@,
                    sayer(said@, left, right),
                )
            },
        r matches Err(v) ==> falls_short(assertion, said.frame@, v),
        r is Ok ==> arrived::<L::End>(assertion, said.frame@, sayer(said@, left, right)),
{
    let ghost (wire, near, far) = (*link, *a, *b);
    let got = if said.by_left {
        let got = pump(link, a, b);
        proof {
            let (w, n, f) = choose|w: &mut L, n: &mut L::End, f: &mut L::End|
                {
                    &&& *w == wire && *final(w) == *link
                    &&& *n == near && *final(n) == *a
                    &&& *f == far && *final(f) == *b
                    &&& #[trigger] call_ensures(pump::<L>, (w, n, f), got)
                };
            reveal(pumped);
            assert(pumped(w, n, f, got));
        }
        got
    } else {
        let got = pump(link, b, a);
        proof {
            let (w, n, f) = choose|w: &mut L, n: &mut L::End, f: &mut L::End|
                {
                    &&& *w == wire && *final(w) == *link
                    &&& *n == far && *final(n) == *b
                    &&& *f == near && *final(f) == *a
                    &&& #[trigger] call_ensures(pump::<L>, (w, n, f), got)
                };
            reveal(pumped);
            assert(pumped(w, n, f, got));
        }
        got
    };
    match got {
        Ok(got) => judge(
            assertion,
            got,
            said,
            if said.by_left {
                left
            } else {
                right
            },
        ),
        Err(v) => Err(v),
    }
}

/// Whether [`hear`] gave this on these.
#[verifier::opaque]
pub open spec fn heard<L: Link>(
    wire: &mut L,
    a: &mut L::End,
    b: &mut L::End,
    left: NodeId,
    right: NodeId,
    assertion: Assertion,
    said: Said,
    got: Result<(), Violation>,
) -> bool {
    call_ensures(hear::<L>, (wire, a, b, left, right, assertion, &said), got)
}

/// Whether a frame can fall short in a way, once it was said.
pub open spec fn falls_short(assertion: Assertion, frame: Seq<u8>, violation: Violation) -> bool {
    match violation {
        Violation::FlushFailed(_) => true,
        Violation::RecvFailed(_) => true,
        Violation::NeverArrived => true,
        Violation::Altered(bytes) => bytes@ != frame,
        Violation::Misattributed { got, sender } => names_the_sender(assertion) && got != sender,
        _ => false,
    }
}

/// Hear all of a conversation, up to a frame that falls short.
pub fn hear_all<L: Link>(
    link: &mut L,
    a: &mut L::End,
    b: &mut L::End,
    left: NodeId,
    right: NodeId,
    assertion: Assertion,
    said: &[Said],
) -> (r: Result<(), Violation>)
    ensures
        exists|links: Seq<L>, lefts: Seq<L::End>, rights: Seq<L::End>|
            #![trigger links.len(), lefts.len(), rights.len()]
            {
                let n = links.len() - 1;
                &&& 0 <= n <= said@.len() && lefts.len() == n + 1 && rights.len() == n + 1
                &&& links[0] == *old(link) && lefts[0] == *old(a) && rights[0] == *old(b)
                &&& links[n] == *final(link) && lefts[n] == *final(a) && rights[n] == *final(b)
                &&& forall|i: int|
                    #![trigger links[i]]
                    0 <= i < n ==> exists|
                        wire: &mut L,
                        x: &mut L::End,
                        y: &mut L::End,
                        one: Said,
                        got: Result<(), Violation>,
                    |
                        {
                            &&& *wire == links[i] && *final(wire) == links[i + 1]
                            &&& *x == lefts[i] && *final(x) == lefts[i + 1]
                            &&& *y == rights[i] && *final(y) == rights[i + 1]
                            &&& one == said@[i]
                            &&& #[trigger] heard(
                                wire,
                                x,
                                y,
                                left,
                                right,
                                assertion,
                                one,
                                got,
                            )
                            &&& if i < n - 1 || r is Ok {
                                got is Ok
                            } else {
                                got == r
                            }
                        }
                &&& r is Ok ==> n == said@.len()
                &&& r is Err ==> n > 0
            },
        r matches Err(v) ==> exists|i: int|
            0 <= i < said@.len() && falls_short(assertion, (#[trigger] said@[i]).frame@, v),
        r is Ok ==> forall|i: int|
            0 <= i < said@.len() ==> arrived::<L::End>(
                assertion,
                (#[trigger] said@[i]).frame@,
                sayer(said@[i]@, left, right),
            ),
{
    let ghost mut links: Seq<L> = seq![*link];
    let ghost mut lefts: Seq<L::End> = seq![*a];
    let ghost mut rights: Seq<L::End> = seq![*b];
    let mut i: usize = 0;
    while i < said.len()
        invariant
            i <= said@.len(),
            links.len() == i + 1 && lefts.len() == i + 1 && rights.len() == i + 1,
            links[0] == *old(link) && lefts[0] == *old(a) && rights[0] == *old(b),
            links[i as int] == *link && lefts[i as int] == *a && rights[i as int] == *b,
            forall|j: int|
                #![trigger links[j]]
                0 <= j < i ==> exists|
                    wire: &mut L,
                    x: &mut L::End,
                    y: &mut L::End,
                    one: Said,
                    got: Result<(), Violation>,
                |
                    {
                        &&& *wire == links[j] && *final(wire) == links[j + 1]
                        &&& *x == lefts[j] && *final(x) == lefts[j + 1]
                        &&& *y == rights[j] && *final(y) == rights[j + 1]
                        &&& one == said@[j]
                        &&& #[trigger] heard(
                            wire,
                            x,
                            y,
                            left,
                            right,
                            assertion,
                            one,
                            got,
                        )
                        &&& got is Ok
                    },
            forall|j: int|
                0 <= j < i ==> arrived::<L::End>(
                    assertion,
                    (#[trigger] said@[j]).frame@,
                    sayer(said@[j]@, left, right),
                ),
        decreases said@.len() - i,
    {
        let ghost (wire, near, far) = (*link, *a, *b);
        let one: &Said = &said[i];
        let got = hear(link, a, b, left, right, assertion, one);
        proof {
            let (w, x, y) = choose|w: &mut L, x: &mut L::End, y: &mut L::End|
                {
                    &&& *w == wire && *final(w) == *link
                    &&& *x == near && *final(x) == *a
                    &&& *y == far && *final(y) == *b
                    &&& #[trigger] call_ensures(
                        hear::<L>,
                        (w, x, y, left, right, assertion, one),
                        got,
                    )
                };
            reveal(heard);
            assert(heard(w, x, y, left, right, assertion, said@[i as int], got));
        }
        i += 1;
        proof {
            links = links.push(*link);
            lefts = lefts.push(*a);
            rights = rights.push(*b);
        }
        if got.is_err() {
            proof {
                assert(links.len() == i + 1 && lefts.len() == i + 1 && rights.len() == i + 1);
                assert(falls_short(assertion, said@[i - 1].frame@, got->Err_0));
            }
            return got;
        }
    }
    proof {
        assert(links.len() == i + 1 && lefts.len() == i + 1 && rights.len() == i + 1);
    }
    Ok(())
}

/// Whether [`hear_all`] gave this on these.
#[verifier::opaque]
pub open spec fn heard_all<L: Link>(
    wire: &mut L,
    a: &mut L::End,
    b: &mut L::End,
    left: NodeId,
    right: NodeId,
    assertion: Assertion,
    said: &[Said],
    got: Result<(), Violation>,
) -> bool {
    call_ensures(hear_all::<L>, (wire, a, b, left, right, assertion, said), got)
}

/// Hold a conversation between two fresh ends, and judge what arrives of it.
pub fn converse<L: Link>(link: &mut L, assertion: Assertion) -> (r: Result<(), Violation>)
    ensures
        exists|wire: &mut L, a: L::End, b: L::End, left: NodeId, right: NodeId|
            #![trigger call_ensures(L::connect, (wire,), (a, b)), call_ensures(<L::End as Transport>::local, (&a,), left), call_ensures(<L::End as Transport>::local, (&b,), right)]
            {
                &&& *wire == *old(link)
                &&& call_ensures(L::connect, (wire,), (a, b))
                &&& call_ensures(<L::End as Transport>::local, (&a,), left)
                &&& call_ensures(<L::End as Transport>::local, (&b,), right)
                &&& exists|
                    x: &mut L::End,
                    y: &mut L::End,
                    said: &[Said],
                    done: Result<(), Violation>,
                |
                    {
                        &&& *x == a && *y == b
                        &&& said_views(said@) == scripted(assertion)
                        &&& #[trigger] spoke_all(x, y, left, right, said, done)
                        &&& match done {
                            Err(v) => r == done && *final(link) == *final(wire),
                            Ok(()) => exists|over: &mut L, p: &mut L::End, q: &mut L::End|
                                {
                                    &&& *over == *final(wire) && *final(over) == *final(link)
                                    &&& *p == *final(x) && *q == *final(y)
                                    &&& #[trigger] heard_all(
                                        over,
                                        p,
                                        q,
                                        left,
                                        right,
                                        assertion,
                                        said,
                                        r,
                                    )
                                },
                        }
                    }
            },
        r matches Err(v) ==> can_fail(assertion, v),
        r is Ok && scripted(assertion).len() > 0 ==> held::<L::End>(assertion),
{
    let (mut a, mut b) = link.connect();
    let left: NodeId = a.local();
    let right: NodeId = b.local();
    let script = script(assertion);
    let said: &[Said] = script.as_slice();
    proof {
        assert(speak_as::<L::End>(left, right));
        assert forall|i: int| 0 <= i < said@.len() implies (#[trigger] scripted(assertion)[i])
            == said@[i]@ by {}
        assert(said@.len() == scripted(assertion).len());
    }
    let ghost (a0, b0) = (a, b);
    let done = say_all(&mut a, &mut b, left, right, said);
    let ghost (a1, b1, mid) = (a, b, *link);
    proof {
        let (x, y) = choose|x: &mut L::End, y: &mut L::End|
            {
                &&& *x == a0 && *final(x) == a1
                &&& *y == b0 && *final(y) == b1
                &&& #[trigger] call_ensures(say_all::<L::End>, (x, y, left, right, said), done)
            };
        reveal(spoke_all);
        assert(spoke_all(x, y, left, right, said, done));
    }
    if done.is_err() {
        return done;
    }
    let r = hear_all(link, &mut a, &mut b, left, right, assertion, said);
    proof {
        let (w, p, q) = choose|w: &mut L, p: &mut L::End, q: &mut L::End|
            {
                &&& *w == mid && *final(w) == *link
                &&& *p == a1 && *q == b1
                &&& #[trigger] call_ensures(
                    hear_all::<L>,
                    (w, p, q, left, right, assertion, said),
                    r,
                )
            };
        reveal(heard_all);
        assert(heard_all(w, p, q, left, right, assertion, said, r));
        if r is Err {
            let v = r->Err_0;
            let i = choose|i: int|
                0 <= i < said@.len() && falls_short(assertion, (#[trigger] said@[i]).frame@, v);
            assert(scripted(assertion)[i] == said@[i]@);
        }
    }
    r
}

/// Poll an end that nothing was said to.
pub fn idle_recv<L: Link>(link: &mut L) -> (r: Result<(), Violation>)
    ensures
        exists|
            wire: &mut L,
            a: L::End,
            b: L::End,
            end: &mut L::End,
            got: Result<Option<Received>, TransportError>,
        |
            #![trigger call_ensures(L::connect, (wire,), (a, b)), call_ensures(<L::End as Transport>::recv, (end,), got)]
            {
                &&& *wire == *old(link) && *final(wire) == *final(link)
                &&& call_ensures(L::connect, (wire,), (a, b))
                &&& *end == b
                &&& call_ensures(<L::End as Transport>::recv, (end,), got)
                &&& match got {
                    Ok(None) => r is Ok,
                    Ok(Some(received)) => r == Err::<(), Violation>(Violation::NotIdle(received)),
                    Err(e) => r == Err::<(), Violation>(Violation::RecvFailed(e)),
                }
            },
        r matches Err(v) ==> can_fail(Assertion::RecvDoesNotBlockWhenNothingHasArrived, v),
        r is Ok ==> held::<L::End>(Assertion::RecvDoesNotBlockWhenNothingHasArrived),
{
    let (_a, mut b) = link.connect();
    judge_idle(b.recv())
}

/// Whether two ends of a link speak as different nodes.
pub fn judge_ends(left: NodeId, right: NodeId) -> (r: Result<(), Violation>)
    ensures
        r == (if left == right {
            Err::<(), Violation>(Violation::SameNode(left))
        } else {
            Ok(())
        }),
{
    if left == right {
        Err(Violation::SameNode(left))
    } else {
        Ok(())
    }
}

/// Ask both ends of a link which node they speak as.
pub fn distinct_ends<L: Link>(link: &mut L) -> (r: Result<(), Violation>)
    ensures
        exists|wire: &mut L, a: L::End, b: L::End, left: NodeId, right: NodeId|
            #![trigger call_ensures(L::connect, (wire,), (a, b)), call_ensures(<L::End as Transport>::local, (&a,), left), call_ensures(<L::End as Transport>::local, (&b,), right)]
            {
                &&& *wire == *old(link) && *final(wire) == *final(link)
                &&& call_ensures(L::connect, (wire,), (a, b))
                &&& call_ensures(<L::End as Transport>::local, (&a,), left)
                &&& call_ensures(<L::End as Transport>::local, (&b,), right)
                &&& r == (if left == right {
                    Err::<(), Violation>(Violation::SameNode(left))
                } else {
                    Ok(())
                })
            },
        r matches Err(v) ==> can_fail(Assertion::LocalReportsTheNodeTheTransportSpeaksAs, v),
        r is Ok ==> held::<L::End>(Assertion::LocalReportsTheNodeTheTransportSpeaksAs),
{
    let (a, b) = link.connect();
    let left: NodeId = a.local();
    let right: NodeId = b.local();
    proof {
        assert(speak_as::<L::End>(left, right));
    }
    judge_ends(left, right)
}

/// A node that is at neither end of a link.
pub open spec fn stranger_to(left: NodeId, right: NodeId) -> NodeId {
    left.wrapping_add(right).wrapping_add(9_999)
}

/// Send to a peer that an end has no route to.
pub fn unknown_peer<L: Link>(link: &mut L) -> (r: Result<(), Violation>)
    ensures
        exists|wire: &mut L, a: L::End, b: L::End, left: NodeId, right: NodeId|
            #![trigger call_ensures(L::connect, (wire,), (a, b)), call_ensures(<L::End as Transport>::local, (&a,), left), call_ensures(<L::End as Transport>::local, (&b,), right)]
            {
                &&& *wire == *old(link) && *final(wire) == *final(link)
                &&& call_ensures(L::connect, (wire,), (a, b))
                &&& call_ensures(<L::End as Transport>::local, (&a,), left)
                &&& call_ensures(<L::End as Transport>::local, (&b,), right)
                &&& exists|
                    end: &mut L::End,
                    peer: NodeId,
                    bytes: &[u8],
                    got: Result<(), TransportError>,
                |
                    {
                        &&& *end == a
                        &&& peer == stranger_to(left, right)
                        &&& bytes@ == plain_bytes("nowhere"@)
                        &&& #[trigger] call_ensures(
                            <L::End as Transport>::send,
                            (end, peer, bytes),
                            got,
                        )
                        &&& match got {
                            Ok(_) => r == Err::<(), Violation>(Violation::StrangerAccepted(peer)),
                            Err(e) => if e == TransportError::UnknownPeer(peer) {
                                r is Ok
                            } else {
                                r == Err::<(), Violation>(Violation::StrangerRefusedOtherwise(e))
                            },
                        }
                    }
            },
        r matches Err(v) ==> can_fail(Assertion::AnUnknownPeerIsRefused, v),
        r is Ok ==> held::<L::End>(Assertion::AnUnknownPeerIsRefused),
{
    let (mut a, b) = link.connect();
    let left: NodeId = a.local();
    let right: NodeId = b.local();
    let stranger: NodeId = left.wrapping_add(right).wrapping_add(9_999);
    let frame = to_plain_bytes("nowhere");
    proof {
        assert(speak_as::<L::End>(left, right));
    }
    judge_stranger(a.send(stranger, frame.as_slice()), stranger)
}

/// The assertions, in the order a transport is put to them.
pub open spec fn suite() -> Seq<Assertion> {
    seq![
        Assertion::AFlushedFrameArrivesWhole,
        Assertion::AnEmptyFrameIsStillAFrame,
        Assertion::FramesToOnePeerKeepTheirOrder,
        Assertion::RecvDoesNotBlockWhenNothingHasArrived,
        Assertion::BothDirectionsAreIndependent,
        Assertion::AFrameIsAttributedToTheNodeThatSentIt,
        Assertion::LocalReportsTheNodeTheTransportSpeaksAs,
        Assertion::AnUnknownPeerIsRefused,
        Assertion::AFrameFarLargerThanASocketBufferSurvives,
    ]
}

/// The assertions a transport is held to.
pub fn assertions() -> (r: Vec<Assertion>)
    ensures
        r@ == suite(),
{
    let r = vec![
        Assertion::AFlushedFrameArrivesWhole,
        Assertion::AnEmptyFrameIsStillAFrame,
        Assertion::FramesToOnePeerKeepTheirOrder,
        Assertion::RecvDoesNotBlockWhenNothingHasArrived,
        Assertion::BothDirectionsAreIndependent,
        Assertion::AFrameIsAttributedToTheNodeThatSentIt,
        Assertion::LocalReportsTheNodeTheTransportSpeaksAs,
        Assertion::AnUnknownPeerIsRefused,
        Assertion::AFrameFarLargerThanASocketBufferSurvives,
    ];
    proof {
        assert(r@ =~= suite());
    }
    r
}

/// Whether putting an assertion to the test on a link came to this.
#[verifier::opaque]
pub open spec fn came_to<L: Link>(
    wire: &mut L,
    assertion: Assertion,
    outcome: Result<(), Violation>,
) -> bool {
    match assertion {
        Assertion::RecvDoesNotBlockWhenNothingHasArrived => call_ensures(
            idle_recv::<L>,
            (wire,),
            outcome,
        ),
        Assertion::LocalReportsTheNodeTheTransportSpeaksAs => call_ensures(
            distinct_ends::<L>,
            (wire,),
            outcome,
        ),
        Assertion::AnUnknownPeerIsRefused => call_ensures(unknown_peer::<L>, (wire,), outcome),
        _ => call_ensures(converse::<L>, (wire, assertion), outcome),
    }
}

/// Put one assertion to the test, on a link of its own.
pub fn try_one<L: Link>(link: &mut L, assertion: Assertion) -> (r: Result<(), Failure>)
    ensures
        exists|wire: &mut L, outcome: Result<(), Violation>|
            {
                &&& *wire == *old(link) && *final(wire) == *final(link)
                &&& #[trigger] came_to(wire, assertion, outcome)
                &&& r == (match outcome {
                    Ok(()) => Ok::<(), Failure>(()),
                    Err(violation) => Err(Failure { assertion, violation }),
                })
            },
        r matches Err(f) ==> f.assertion == assertion && can_fail(assertion, f.violation),
        r is Ok ==> held::<L::End>(assertion),
{
    let ghost wire = *link;
    let outcome = match assertion {
        Assertion::RecvDoesNotBlockWhenNothingHasArrived => {
            let outcome = idle_recv(link);
            proof {
                let w = choose|w: &mut L|
                    *w == wire && *final(w) == *link && #[trigger] call_ensures(
                        idle_recv::<L>,
                        (w,),
                        outcome,
                    );
                reveal(came_to);
                assert(came_to(w, assertion, outcome));
            }
            outcome
        },
        Assertion::LocalReportsTheNodeTheTransportSpeaksAs => {
            let outcome = distinct_ends(link);
            proof {
                let w = choose|w: &mut L|
                    *w == wire && *final(w) == *link && #[trigger] call_ensures(
                        distinct_ends::<L>,
                        (w,),
                        outcome,
                    );
                reveal(came_to);
                assert(came_to(w, assertion, outcome));
            }
            outcome
        },
        Assertion::AnUnknownPeerIsRefused => {
            let outcome = unknown_peer(link);
            proof {
                let w = choose|w: &mut L|
                    *w == wire && *final(w) == *link && #[trigger] call_ensures(
                        unknown_peer::<L>,
                        (w,),
                        outcome,
                    );
                reveal(came_to);
                assert(came_to(w, assertion, outcome));
            }
            outcome
        },
        _ => {
            let outcome = converse(link, assertion);
            proof {
                let w = choose|w: &mut L|
                    *w == wire && *final(w) == *link && #[trigger] call_ensures(
                        converse::<L>,
                        (w, assertion),
                        outcome,
                    );
                reveal(came_to);
                assert(came_to(w, assertion, outcome));
            }
            outcome
        },
    };
    match outcome {
        Ok(()) => Ok(()),
        Err(violation) => Err(Failure { assertion, violation }),
    }
}

/// Whether [`try_one`] gave this on these.
#[verifier::opaque]
pub open spec fn tried<L: Link>(
    wire: &mut L,
    assertion: Assertion,
    got: Result<(), Failure>,
) -> bool {
    call_ensures(try_one::<L>, (wire, assertion), got)
}

/// Run every assertion against a link, up to the first that its transport fails.
pub fn check<L: Link>(link: &mut L) -> (r: Result<(), Failure>)
    ensures
        exists|links: Seq<L>|
            #![trigger links.len()]
            {
                let n = links.len() - 1;
                &&& 1 <= n <= suite().len()
                &&& links[0] == *old(link) && links[n] == *final(link)
                &&& forall|i: int|
                    #![trigger links[i]]
                    0 <= i < n ==> exists|wire: &mut L, got: Result<(), Failure>|
                        {
                            &&& *wire == links[i] && *final(wire) == links[i + 1]
                            &&& #[trigger] tried(wire, suite()[i], got)
                            &&& if i < n - 1 || r is Ok {
                                got is Ok
                            } else {
                                got == r
                            }
                        }
                &&& r is Ok ==> n == suite().len()
            },
        r matches Err(f) ==> suite().contains(f.assertion) && can_fail(f.assertion, f.violation),
        r is Ok ==> forall|i: int|
            0 <= i < suite().len() ==> held::<L::End>(#[trigger] suite()[i]),
{
    let all = assertions();
    let ghost mut links: Seq<L> = seq![*link];
    let mut i: usize = 0;
    while i < all.len()
        invariant
            all@ == suite(),
            i <= all@.len(),
            links.len() == i + 1,
            links[0] == *old(link) && links[i as int] == *link,
            forall|j: int|
                #![trigger links[j]]
                0 <= j < i ==> exists|wire: &mut L, got: Result<(), Failure>|
                    {
                        &&& *wire == links[j] && *final(wire) == links[j + 1]
                        &&& #[trigger] tried(wire, suite()[j], got)
                        &&& got is Ok
                    },
            forall|j: int| 0 <= j < i ==> held::<L::End>(#[trigger] suite()[j]),
        decreases all@.len() - i,
    {
        let ghost wire = *link;
        let assertion: Assertion = all[i];
        let got = try_one(link, assertion);
        proof {
            let w = choose|w: &mut L|
                *w == wire && *final(w) == *link && #[trigger] call_ensures(
                    try_one::<L>,
                    (w, assertion),
                    got,
                );
            reveal(tried);
            assert(tried(w, suite()[i as int], got));
        }
        i += 1;
        proof {
            links = links.push(*link);
        }
        if got.is_err() {
            proof {
                assert(links.len() == i + 1);
                assert(suite()[i - 1] == got->Err_0.assertion);
            }
            return got;
        }
    }
    proof {
        assert(links.len() == i + 1);
    }
    Ok(())
}

/// Links in memory, between nodes that are numbered upwards.
pub struct LoopbackLink {
    pub next: NodeId,
}

impl Link for LoopbackLink {
    type End = Loopback;

    fn connect(&mut self) -> (r: (Loopback, Loopback))
        ensures
            r.0@.local != r.1@.local,
            r.0@ == LoopbackView::idle(r.0@.local, r.1@.local),
            r.1@ == LoopbackView::idle(r.1@.local, r.0@.local),
    {
        let left: NodeId = self.next;
        let right: NodeId = left.wrapping_add(1);
        self.next = right.wrapping_add(1);
        LoopbackPair::new(left, right).split()
    }

    fn carry(&mut self, from: &mut Loopback, to: &mut Loopback)
        ensures
            final(from)@ == (LoopbackView { outbox: Seq::empty(), ..old(from)@ }),
            final(to)@ == old(to)@.joined_by(old(from)@),
    {
        from.carry(to);
    }
}

} // verus!
