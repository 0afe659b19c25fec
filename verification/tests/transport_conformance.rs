use keel::api::{decode, encode, Peer};
use keel::net::conformance::{
    assertions, check, judge, judge_ends, judge_frame, judge_idle, judge_sender, judge_stranger,
    judge_turn, pump, script, try_one, Assertion, Link, LoopbackLink, Poll, Said, Violation, TURNS,
};
use keel::net::frame::{self, Reader};
use keel::net::loopback::LoopbackPair;
use keel::net::peers::{after, drain, hello, identity, route_for, settle, Caller, Moved, Next, Outbound, Route};
use keel::net::{Received, Transport, TransportError, MAX_FRAME_BYTES};
use keel::raft::{Entry, EntryPayload, Message, MessageBody};

#[test]
fn loopback_meets_the_transport_contract() {
    let mut link = LoopbackLink { next: 1 };
    if let Err(failure) = check(&mut link) {
        panic!("{failure:?}");
    }
}

/// Every message the core can emit, so a variant added later without a wire
/// representation fails here rather than in a cluster.
fn every_message_shape() -> Vec<Message> {
    let bodies = vec![
        MessageBody::PreVoteReq { last_log_index: 9, last_log_term: 3 },
        MessageBody::PreVoteResp { granted: true },
        MessageBody::VoteReq { last_log_index: 9, last_log_term: 3, is_transfer: true },
        MessageBody::VoteResp { granted: false },
        MessageBody::AppendReq {
            prev_log_index: 8,
            prev_log_term: 2,
            entries: vec![
                Entry::new(3, 9, EntryPayload::Noop),
                Entry::new(3, 10, EntryPayload::Normal(b"a value".to_vec())),
            ],
            leader_commit: 8,
        },
    ];
    bodies.into_iter().map(|body| Message { from: 1, to: 2, term: 3, body }).collect()
}

/// The same bytes, in memory and through a stream that carries them a few at a
/// time, arrive as the same message.
#[test]
fn a_message_round_trips_identically_through_both_transports() {
    for message in every_message_shape() {
        let payload = encode(&Peer::Raft(message.clone())).expect("encode");

        let mut link = LoopbackLink { next: 1 };
        let (mut la, mut lb) = link.connect();
        la.send(2, &payload).expect("loopback send");
        let over_loopback = match pump(&mut link, &mut la, &mut lb) {
            Ok(Some(received)) => received,
            other => panic!("loopback delivers: {other:?}"),
        };

        let mut out = Outbound::new();
        out.queue(&payload, MAX_FRAME_BYTES).expect("stream send");
        let mut reader = Reader::new(MAX_FRAME_BYTES);
        let mut over_stream = Vec::new();
        while !out.unwritten().is_empty() {
            let n = out.unwritten().len().min(3);
            reader.push(&out.unwritten()[..n]);
            out.wrote(n);
            let (frames, dead) = drain(&mut reader);
            assert!(!dead);
            over_stream.extend(frames);
        }
        assert_eq!(over_stream.len(), 1);

        assert_eq!(
            over_loopback.frame, over_stream[0],
            "the two transports delivered different bytes for {message:?}"
        );
        assert_eq!(over_loopback.from, 1);

        let Peer::Raft(decoded) = decode::<Peer>(&over_stream[0]).expect("decode") else {
            panic!("a Raft message decoded as something else");
        };
        assert_eq!(decoded, message, "the message changed on its way through");
    }
}

/// A frame the transport would refuse is refused at `send`, not silently
/// truncated into one it would accept.
#[test]
fn an_oversized_frame_is_refused_rather_than_cut_down() {
    let (a, _b) = LoopbackPair::new(1, 2).split();
    let mut a = a.with_max_frame_bytes(64);
    let err = a.send(2, &[0u8; 65]).expect_err("an oversized frame must be refused");
    assert!(
        matches!(err, TransportError::FrameTooLarge { got: 65, limit: 64 }),
        "refused with {} rather than FrameTooLarge",
        err.message()
    );
}

#[test]
fn nothing_leaves_before_it_is_flushed() {
    let (mut a, mut b) = LoopbackPair::new(1, 2).split();
    a.send(2, b"first").unwrap();
    a.send(2, b"second").unwrap();
    assert_eq!(a.unflushed(), 2);
    a.carry(&mut b);
    assert!(b.recv().unwrap().is_none(), "an unflushed frame arrived");
    a.flush().unwrap();
    assert_eq!(a.unflushed(), 0);
    a.carry(&mut b);
    let first = b.recv().unwrap().unwrap();
    assert_eq!((first.from, first.frame), (1, b"first".to_vec()));
    assert_eq!(b.recv().unwrap().unwrap().frame, b"second");
    assert!(b.recv().unwrap().is_none());
}

#[test]
fn a_peer_nobody_has_is_refused_by_name() {
    let (mut a, _b) = LoopbackPair::new(1, 2).split();
    let err = a.send(9, b"?").unwrap_err();
    assert!(matches!(err, TransportError::UnknownPeer(9)));
    assert_eq!(err.message(), "no route to node 9");
}

#[test]
fn what_a_transport_is_judged_by() {
    let frame = |bytes: &[u8]| Some(Received { from: 1, frame: bytes.to_vec() });
    assert_eq!(judge_frame(frame(b"x"), b"x").unwrap().from, 1);
    assert!(matches!(judge_frame(frame(b"y"), b"x"), Err(Violation::Altered(got)) if got == b"y"));
    assert!(matches!(judge_frame(None, b"x"), Err(Violation::NeverArrived)));
    let got = Received { from: 1, frame: vec![] };
    assert!(judge_sender(&got, 1).is_ok());
    assert!(matches!(
        judge_sender(&got, 2),
        Err(Violation::Misattributed { got: 1, sender: 2 })
    ));
    assert!(judge_idle(Ok(None)).is_ok());
    assert!(matches!(judge_idle(Ok(frame(b"x"))), Err(Violation::NotIdle(_))));
    assert!(matches!(judge_idle(Err(TransportError::UnknownPeer(1))), Err(Violation::RecvFailed(_))));
    assert!(judge_stranger(Err(TransportError::UnknownPeer(7)), 7).is_ok());
    assert!(matches!(judge_stranger(Ok(()), 7), Err(Violation::StrangerAccepted(7))));
    assert!(matches!(
        judge_stranger(Err(TransportError::UnknownPeer(8)), 7),
        Err(Violation::StrangerRefusedOtherwise(_))
    ));
}

// ------------------------------------------------------------- the socket's half

#[test]
fn a_caller_is_known_by_the_first_frame_it_sends() {
    let mut reader = Reader::new(64);
    assert_eq!(settle(&mut reader, false), Caller::Waiting);
    let greeting = frame::encode(&hello(7), 64).unwrap();
    reader.push(&greeting[..5]);
    assert_eq!(settle(&mut reader, false), Caller::Waiting);
    reader.push(&greeting[5..]);
    reader.push(&frame::encode(b"after", 64).unwrap());
    assert_eq!(settle(&mut reader, false), Caller::Named(7));
    assert_eq!(reader.next_frame().unwrap().unwrap(), b"after");
}

#[test]
fn a_caller_that_does_not_say_who_it_is_is_dropped() {
    let mut reader = Reader::new(64);
    reader.push(&frame::encode(b"nonsense", 64).unwrap());
    assert_eq!(identity(b"short"), None);
    assert_eq!(identity(&hello(u64::MAX)), Some(u64::MAX));
    let first = settle(&mut reader, false);
    // Eight bytes name a node, whatever they spell.
    assert_eq!(first, Caller::Named(u64::from_le_bytes(*b"nonsense")));
    let mut reader = Reader::new(64);
    reader.push(&frame::encode(b"short", 64).unwrap());
    assert_eq!(settle(&mut reader, false), Caller::Dropped);
    let mut reader = Reader::new(64);
    assert_eq!(settle(&mut reader, true), Caller::Dropped);
}

#[test]
fn a_route_is_dialled_once_and_only_where_there_is_one() {
    assert_eq!(route_for(1, 2, true, true).unwrap(), Route::Open);
    assert_eq!(route_for(1, 2, false, true).unwrap(), Route::Dial);
    assert!(matches!(route_for(1, 2, false, false), Err(TransportError::UnknownPeer(2))));
}

#[test]
fn a_read_is_repeated_only_where_another_could_bring_more() {
    assert_eq!(after(Moved::Bytes(1)), Next::Again);
    assert_eq!(after(Moved::Bytes(0)), Next::Dead);
    assert_eq!(after(Moved::WouldBlock), Next::Later);
    assert_eq!(after(Moved::Interrupted), Next::Again);
    assert_eq!(after(Moved::Failed), Next::Dead);
}

#[test]
fn a_partial_write_resumes_where_it_stopped() {
    let mut out = Outbound::new();
    out.queue(b"abc", 64).unwrap();
    out.queue(b"d", 64).unwrap();
    let all = out.unwritten().to_vec();
    assert_eq!(all, vec![3, 0, 0, 0, b'a', b'b', b'c', 1, 0, 0, 0, b'd']);
    out.wrote(5);
    assert_eq!(out.unwritten(), &all[5..]);
    out.wrote(7);
    assert!(out.unwritten().is_empty());
    assert!(matches!(
        out.queue(&[0; 65], 64),
        Err(TransportError::FrameTooLarge { got: 65, limit: 64 })
    ));
}

#[test]
fn what_is_said_puts_each_assertion_to_the_test() {
    assert_eq!(assertions().len(), 9);
    let whole = script(Assertion::AFlushedFrameArrivesWhole);
    assert_eq!(whole, vec![Said { by_left: true, frame: b"a whole frame".to_vec() }]);
    let order = script(Assertion::FramesToOnePeerKeepTheirOrder);
    assert_eq!(order.len(), 32);
    assert_eq!(order[31].frame, vec![31; 3]);
    let both = script(Assertion::BothDirectionsAreIndependent);
    assert_eq!((both[0].by_left, both[1].by_left), (true, false));
    assert_eq!(both[1].frame, b"to a");
    let large = script(Assertion::AFrameFarLargerThanASocketBufferSurvives);
    assert_eq!(large[0].frame.len(), 1_000_000);
    assert_eq!(large[0].frame[251 * 3 + 7], 7);
    assert!(script(Assertion::AnUnknownPeerIsRefused).is_empty());
}

#[test]
fn a_sender_counts_only_where_it_is_asked_for() {
    let said = Said { by_left: true, frame: b"x".to_vec() };
    let got = || Some(Received { from: 7, frame: b"x".to_vec() });
    assert!(judge(Assertion::AFlushedFrameArrivesWhole, got(), &said, 1).is_ok());
    let asked = Assertion::AFrameIsAttributedToTheNodeThatSentIt;
    assert!(judge(asked, got(), &said, 7).is_ok());
    assert!(matches!(
        judge(asked, got(), &said, 1),
        Err(Violation::Misattributed { got: 7, sender: 1 })
    ));
    assert!(matches!(judge(asked, None, &said, 1), Err(Violation::NeverArrived)));
}

/// A transport that takes every frame and delivers none.
struct Silent(u64);

impl Transport for Silent {
    fn local(&self) -> u64 {
        self.0
    }

    fn send(&mut self, _peer: u64, _frame: &[u8]) -> Result<(), TransportError> {
        Ok(())
    }

    fn flush(&mut self) -> Result<(), TransportError> {
        Ok(())
    }

    fn recv(&mut self) -> Result<Option<Received>, TransportError> {
        Ok(None)
    }
}

struct SilentLink;

impl Link for SilentLink {
    type End = Silent;

    fn connect(&mut self) -> (Silent, Silent) {
        (Silent(1), Silent(1))
    }

    fn carry(&mut self, _from: &mut Silent, _to: &mut Silent) {}
}

#[test]
fn a_transport_that_delivers_nothing_is_found_out() {
    let failure = check(&mut SilentLink).unwrap_err();
    assert_eq!(failure.assertion, Assertion::AFlushedFrameArrivesWhole);
    assert!(matches!(failure.violation, Violation::NeverArrived));

    let one = |assertion| try_one(&mut SilentLink, assertion);
    assert!(one(Assertion::RecvDoesNotBlockWhenNothingHasArrived).is_ok());
    let same = one(Assertion::LocalReportsTheNodeTheTransportSpeaksAs).unwrap_err();
    assert!(matches!(same.violation, Violation::SameNode(1)));
    let stranger = one(Assertion::AnUnknownPeerIsRefused).unwrap_err();
    assert!(matches!(stranger.violation, Violation::StrangerAccepted(10_001)));
}

#[test]
fn polling_goes_on_until_something_comes_or_the_turns_are_over() {
    assert!(matches!(judge_turn(Ok(None), 1), Poll::Again));
    assert!(matches!(judge_turn(Ok(None), TURNS), Poll::Over(Ok(None))));
    let got = Received { from: 3, frame: b"x".to_vec() };
    assert!(matches!(judge_turn(Ok(Some(got)), 1), Poll::Over(Ok(Some(r))) if r.from == 3));
    let gone = Violation::RecvFailed(TransportError::Disconnected(2));
    assert!(matches!(judge_turn(Err(gone), 1), Poll::Over(Err(Violation::RecvFailed(_)))));
    assert!(judge_ends(1, 2).is_ok());
    assert!(matches!(judge_ends(4, 4), Err(Violation::SameNode(4))));
}

/// A transport that counts what it is asked for, and fails on a given turn.
struct Failing {
    flushes: u32,
    fails: bool,
}

impl Transport for Failing {
    fn local(&self) -> u64 {
        u64::from(self.fails)
    }

    fn send(&mut self, _peer: u64, _frame: &[u8]) -> Result<(), TransportError> {
        Err(TransportError::Io("full".into()))
    }

    fn flush(&mut self) -> Result<(), TransportError> {
        self.flushes += 1;
        if self.fails && self.flushes == 3 {
            return Err(TransportError::Io("gone".into()));
        }
        Ok(())
    }

    fn recv(&mut self) -> Result<Option<Received>, TransportError> {
        Ok(None)
    }
}

struct FailingLink;

impl Link for FailingLink {
    type End = Failing;

    fn connect(&mut self) -> (Failing, Failing) {
        (Failing { flushes: 0, fails: true }, Failing { flushes: 0, fails: false })
    }

    fn carry(&mut self, _from: &mut Failing, _to: &mut Failing) {}
}

#[test]
fn a_pump_flushes_on_every_turn_and_stops_where_the_transport_fails() {
    let (mut a, mut b) = FailingLink.connect();
    assert!(matches!(
        pump(&mut FailingLink, &mut a, &mut b),
        Err(Violation::FlushFailed(TransportError::Io(why))) if why == "gone"
    ));
    assert_eq!((a.flushes, b.flushes), (3, 0));
    assert!(matches!(pump(&mut FailingLink, &mut b, &mut a), Ok(None)));
    assert_eq!(b.flushes, TURNS);
    let failure = check(&mut FailingLink).unwrap_err();
    assert!(matches!(failure.violation, Violation::SendFailed(_)));
}
