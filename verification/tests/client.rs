use std::collections::HashSet;

use keel::api::{decode, encode, ApiError, ClientId, Command, Envelope, Query, Request, Response, SeqNo};
use keel::client::history::{Op, Outcome};
use keel::client::kv::{
    cas_text, client_nonce, get_text, incr_text, merge, register_text, scan_text, workload_op,
    workload_summary, Ended, Next,
};
use keel::client::pipeline::{
    Completion, Heard, OpenStep, Pipeline, PipelineError, Sending,
};
use keel::client::transport::{answer_to, Endpoint, Exchange, Exchanging, Read, PATIENCE};
use keel::client::{
    applied, cas, counted, endpoint_of, found, get, outcome_of, put as put_op, scanned, swapped,
    Client, ClientError, Retry, Step,
};
use keel::time::Duration;

fn put(n: u8) -> Command {
    Command::Put { key: vec![n], value: vec![n] }
}

/// A pipeline whose sessions are numbered from one, on nodes that answered
/// nothing but the registrations.
fn pipeline_on(nodes: usize, depth: usize) -> Pipeline {
    let mut p = Pipeline::new(nodes, 100, depth);
    let (_, sends) = match p.open(0) {
        Ok(opened) => opened,
        Err(e) => panic!("{}", e.message()),
    };
    assert_eq!(sends.len(), depth);
    for (i, sending) in sends.into_iter().enumerate() {
        let answer = Envelope::new(sending.id, Response::Registered { client: 1 + i as u64 });
        let reaction = p.read_one(Heard::Answer(answer), 0);
        assert!(reaction.completion.is_none());
    }
    assert_eq!(p.inflight(), 0);
    p
}

fn pair(sending: &Sending) -> (ClientId, SeqNo) {
    match &sending.request {
        Request::Command { client, seq, .. } => (*client, *seq),
        other => panic!("not a command: {other:?}"),
    }
}

/// No two requests in flight share a session, so a retry is always a retry of
/// that session's highest sequence number.
#[test]
fn no_two_outstanding_requests_share_a_session() {
    let mut p = pipeline_on(1, 4);
    let mut pairs: Vec<(ClientId, SeqNo)> =
        (0..4).map(|n| pair(&p.submit(put(n), 0).expect("a free slot"))).collect();
    pairs.sort_unstable();
    let distinct: HashSet<ClientId> = pairs.iter().map(|(c, _)| *c).collect();
    assert_eq!(distinct.len(), 4, "two in-flight requests shared a session: {pairs:?}");
    assert!(pairs.iter().all(|(_, seq)| *seq == 1));
}

/// A full pipeline refuses rather than queueing, so the caller decides what to
/// do about it instead of growing an unbounded backlog inside a client.
#[test]
fn a_full_pipeline_refuses_the_next_submission() {
    let mut p = pipeline_on(1, 2);
    p.submit(put(1), 0).expect("first");
    p.submit(put(2), 0).expect("second");
    assert!(p.is_full());
    assert_eq!(p.submit(put(3), 0).map(|s| s.id), Err(PipelineError::Full(2)));
}

/// A finished request frees its slot, and the next request on that session takes
/// the next sequence number rather than reusing one.
#[test]
fn finishing_frees_the_slot_and_the_sequence_number_moves_on() {
    let mut p = pipeline_on(1, 1);
    let first = p.submit(put(1), 0).expect("first");
    assert!(p.is_full());
    p.finish(first.id, Ok(Response::Applied)).expect("a completion");
    assert!(!p.is_full());

    let second = p.submit(put(2), 0).expect("second");
    assert_eq!(pair(&second), (1, 2), "a slot reused a sequence number");
}

/// A resend is the same request, not a new one. A pipeline that allocated a
/// fresh sequence number on a redirect would apply every retried write twice.
#[test]
fn a_redirect_resends_the_same_session_pair_under_the_same_label() {
    let mut p = pipeline_on(2, 2);
    let first = p.submit(put(1), 0).expect("first");
    let second = p.submit(put(2), 0).expect("second");

    // The redirect moves the pipeline to another node and puts everything
    // outstanding on it again. What it must not do is change any of it.
    let was = p.target().unwrap();
    let again = p.recover(None);
    assert_ne!(p.target().unwrap(), was, "a redirect stayed on the same node");

    let before = vec![(first.id, first.request), (second.id, second.request)];
    let after: Vec<(u64, Request)> = again.into_iter().map(|s| (s.id, s.request)).collect();
    assert_eq!(before, after);
}

/// A registration is the pipeline's own and never reaches the caller, but it
/// still frees the slot it was holding.
#[test]
fn a_registration_frees_its_slot_without_troubling_the_caller() {
    let mut p = Pipeline::new(1, 100, 1);
    let sending = p.register(0, 0);
    assert!(p.is_full());
    assert!(
        p.finish(sending.id, Ok(Response::Registered { client: 9 })).is_none(),
        "a registration was reported to the caller as if it had asked for it"
    );
    assert_eq!(p.inflight(), 0);
}

/// Everything outstanding past its deadline is reported as a timeout, which a
/// linearizability checker must read as "may or may not have happened", never
/// as a refusal.
#[test]
fn a_request_past_its_deadline_is_reported_as_a_timeout() {
    let mut p = pipeline_on(1, 2);
    let sending = p.submit(put(1), 0).expect("submit");
    assert!(p.expire(1).is_empty());
    let done: Vec<Completion> = p.expire(3_600_000_000_000);
    assert_eq!(done.len(), 1);
    assert_eq!(done[0].id, sending.id);
    assert!(matches!(done[0].result, Err(ClientError::Timeout)));
    assert!(!p.is_full(), "a timed-out request kept its slot");
}

#[test]
fn a_refusal_that_ends_a_session_registers_it_again() {
    let mut p = pipeline_on(1, 1);
    let sending = p.submit(put(1), 0).unwrap();
    let expired = Envelope::new(sending.id, Response::Error(ApiError::SessionExpired));
    let reaction = p.read_one(Heard::Answer(expired), 0);
    assert_eq!(reaction.completion.map(|c| c.id), Some(sending.id));
    assert!(matches!(
        reaction.send.first().map(|s| &s.request),
        Some(Request::Register { nonce: 100 })
    ));
}

#[test]
fn a_dead_connection_puts_everything_on_the_next_node() {
    let mut p = pipeline_on(2, 1);
    let sending = p.submit(put(1), 0).unwrap();
    let was = p.target().unwrap();
    let reaction = p.read_one(Heard::Failed, 0);
    assert_eq!(reaction.dropped, Some(was));
    assert_eq!(reaction.send.len(), 1);
    assert_eq!(reaction.send[0].id, sending.id);
    assert_ne!(p.target().unwrap(), was);
    let quiet = p.read_one(Heard::Nothing, 0);
    assert!(quiet.completion.is_none() && quiet.dropped.is_none() && quiet.send.is_empty());
}

#[test]
fn a_pipeline_that_nobody_answers_gives_up() {
    let mut p = Pipeline::new(1, 7, 1);
    let (opening, sends) = p.open(0).unwrap();
    assert!(matches!(&sends[0].request, Request::Register { nonce: 7 }));
    assert!(matches!(p.opening(&opening, 0), OpenStep::Poll));
    assert!(matches!(
        p.opening(&opening, opening.deadline),
        OpenStep::Failed(PipelineError::NoSession(_))
    ));
    assert!(matches!(Pipeline::new(0, 7, 1).open(0), Err(PipelineError::NoSession(_))));
    assert_eq!(p.drain().len(), 0);
}

#[test]
fn a_query_takes_a_slot_and_no_sequence_number() {
    let mut p = pipeline_on(2, 1);
    let query = p.submit_query(Query::Get { key: b"k".to_vec() }, 0).unwrap();
    assert!(matches!(&query.request, Request::Query { .. }));
    assert!(p.is_full());
    p.finish(query.id, Ok(Response::Value(None))).expect("a completion");
    let command = p.submit(put(1), 0).unwrap();
    assert_eq!(pair(&command), (1, 1));
    let was = p.target().unwrap();
    p.moved_past(was);
    assert_ne!(p.target().unwrap(), was);
}

// --------------------------------------------------------------------- transport

fn framed(envelope: &Envelope<Response>) -> Vec<u8> {
    let body = encode(envelope).expect("encode");
    let mut out = (body.len() as u32).to_le_bytes().to_vec();
    out.extend_from_slice(&body);
    out
}

fn connected() -> Endpoint {
    let mut endpoint = Endpoint::new();
    endpoint.connect();
    endpoint
}

/// A frame that arrives in pieces, a length prefix now and the body later, is
/// not lost between the two reads, and a poll that finds only half of one says
/// "nothing yet" rather than eating it.
#[test]
fn a_frame_split_across_reads_survives_the_poll_that_found_half_of_it() {
    let mut endpoint = connected();
    let bytes = framed(&Envelope::new(1, Response::Registered { client: 3 }));
    let (head, tail) = bytes.split_at(3);
    endpoint.fill(Read::Bytes(head.to_vec())).expect("head");
    assert!(
        endpoint.take_frame().expect("poll").is_none(),
        "half a frame was read as a whole one"
    );
    endpoint.fill(Read::Bytes(tail.to_vec())).expect("tail");
    assert_eq!(
        endpoint.take_frame().expect("poll"),
        Some(Envelope::new(1, Response::Registered { client: 3 }))
    );
}

/// Several answers in one read come out one at a time, in order, and none of
/// them is lost to the buffer.
#[test]
fn several_answers_in_one_read_come_out_one_at_a_time() {
    let mut endpoint = connected();
    let mut batch = Vec::new();
    for id in [9u64, 4, 7] {
        batch.extend_from_slice(&framed(&Envelope::new(id, Response::Applied)));
    }
    endpoint.fill(Read::Bytes(batch)).expect("read");
    for id in [9u64, 4, 7] {
        assert_eq!(
            endpoint.take_frame().expect("poll"),
            Some(Envelope::new(id, Response::Applied))
        );
    }
    assert!(endpoint.take_frame().expect("poll").is_none());
}

/// A single-request caller ignores labels it is not waiting for rather than
/// returning somebody else's answer.
#[test]
fn a_round_trip_skips_answers_that_are_not_its_own() {
    let mut endpoint = connected();
    let sent = Endpoint::send(42, &Request::KeepAlive { client: 1 }).expect("send");
    let asked = decode::<Envelope<Request>>(&sent[4..]).expect("decode");
    // A stale answer first, then the real one.
    let mut bytes = framed(&Envelope::new(
        asked.id.wrapping_sub(1),
        Response::Error(ApiError::Unavailable),
    ));
    bytes.extend_from_slice(&framed(&Envelope::new(asked.id, Response::Applied)));
    endpoint.fill(Read::Bytes(bytes)).expect("read");
    let mut response = None;
    while let Some(frame) = endpoint.take_frame().expect("round trip") {
        response = answer_to(42, frame);
        if response.is_some() {
            break;
        }
    }
    assert_eq!(response, Some(Response::Applied));
}

#[test]
fn a_round_trip_keeps_waiting_after_a_nonblocking_empty_poll() {
    let mut endpoint = connected();
    endpoint.fill(Read::Nothing).expect("an empty poll is not a failure");
    assert!(endpoint.take_frame().expect("poll").is_none());
    assert!(endpoint.is_connected());
    let answer = framed(&Envelope::new(7, Response::Applied));
    endpoint.fill(Read::Bytes(answer)).expect("answer");
    let frame = endpoint.take_frame().expect("poll").expect("a frame");
    assert_eq!(answer_to(7, frame), Some(Response::Applied));
}

#[test]
fn a_dead_connection_is_redialled_once() {
    let mut exchange = Exchange::new(7);
    let lost = || Err(ClientError::Io("reset".into()));
    assert!(matches!(exchange.sent(Ok(()), 100), Exchanging::Wait { nanos: PATIENCE }));
    assert!(matches!(exchange.polled(Err(ClientError::Io("reset".into())), 200), Exchanging::Redial));
    assert!(matches!(
        exchange.sent(lost(), 300),
        Exchanging::Done(Err(ClientError::Io(why))) if why == "reset"
    ));

    let mut late = Exchange::new(7);
    let _ = late.sent(Ok(()), 0);
    assert!(matches!(late.polled(Ok(None), PATIENCE - 5), Exchanging::Wait { nanos: 5 }));
    let stale = Envelope::new(6, Response::Applied);
    assert!(matches!(late.polled(Ok(Some(stale)), PATIENCE), Exchanging::Redial));
    let _ = late.sent(Ok(()), PATIENCE);
    let answer = Envelope::new(7, Response::Applied);
    assert!(matches!(
        late.polled(Ok(Some(answer)), 2 * PATIENCE),
        Exchanging::Done(Ok(Response::Applied))
    ));
}

#[test]
fn a_connection_that_closed_or_broke_is_an_error_and_loses_what_it_held() {
    let mut endpoint = connected();
    endpoint.fill(Read::Bytes(vec![1, 2])).unwrap();
    assert!(matches!(endpoint.fill(Read::Closed), Err(ClientError::Io(_))));
    let mut endpoint = connected();
    match endpoint.fill(Read::Failed("reset".into())) {
        Err(ClientError::Io(why)) => assert!(why.contains("reset"), "{why}"),
        other => panic!("{other:?}"),
    }
    endpoint.disconnect();
    assert!(!endpoint.is_connected());
    let mut endpoint = connected();
    endpoint.fill(Read::Bytes(u32::MAX.to_le_bytes().to_vec())).unwrap();
    assert!(endpoint.take_frame().is_err());
    let mut endpoint = connected();
    endpoint.fill(Read::Bytes(vec![1, 0, 0, 0, 0xff])).unwrap();
    assert!(endpoint.take_frame().is_err());
}

#[test]
fn an_endpoint_remembers_which_node_it_reached() {
    let mut endpoint = Endpoint::new();
    assert_eq!(endpoint.node_id(), None);
    endpoint.set_node_id(7);
    assert_eq!(endpoint.node_id(), Some(7));
}

// ------------------------------------------------------------------------ client

/// Drive one request to its end against nodes that answer by a rule.
fn ask(
    client: &mut Client,
    answer: fn(usize, u32) -> Result<Response, ClientError>,
) -> (Result<Response, ClientError>, Vec<usize>) {
    let mut trip = client.begin(0);
    let mut now = 0;
    let mut asked = Vec::new();
    loop {
        match client.round_trip(&mut trip, now) {
            Step::Send { index, .. } => {
                let reply = answer(index, asked.len() as u32);
                asked.push(index);
                if let Some(done) = client.heard(&mut trip, index, reply) {
                    return (done, asked);
                }
            }
            Step::Sleep { nanos } => now += nanos,
            Step::Fail(e) => return (Err(e), asked),
        }
        now += 1_000;
    }
}

#[test]
fn a_client_follows_the_leader_it_is_told_of() {
    let mut client = Client::new(3, 5);
    client.learned(2, 30);
    let (result, asked) = ask(&mut client, |index, _| {
        if index == 2 {
            Ok(Response::Applied)
        } else {
            Ok(Response::NotLeader { leader: Some(30) })
        }
    });
    assert_eq!(result, Ok(Response::Applied));
    assert_eq!(asked, vec![0, 2]);
}

#[test]
fn a_client_tries_the_next_node_where_one_does_not_answer() {
    let mut client = Client::new(3, 5);
    let (result, asked) = ask(&mut client, |index, _| {
        if index == 1 {
            Ok(Response::Value(None))
        } else {
            Err(ClientError::Io("refused".into()))
        }
    });
    assert_eq!(result, Ok(Response::Value(None)));
    assert_eq!(asked, vec![0, 1]);
}

#[test]
fn a_client_that_nobody_answers_says_so_when_its_time_is_up() {
    let retry = Retry {
        deadline: Duration::from_millis(100),
        backoff: Duration::from_millis(10),
        backoff_factor: 2,
        max_backoff: Duration::from_millis(40),
    };
    let mut client = Client::new(2, 5).with_retry(retry);
    let (result, asked) =
        ask(&mut client, |_, _| Ok(Response::NotLeader { leader: None }));
    assert!(result.is_err(), "{result:?}");
    assert!(asked.len() > 2, "{asked:?}");
    assert_eq!(retry.back_off(10_000_000), (10_000_000, 20_000_000));
    assert_eq!(retry.back_off(40_000_000).1, 40_000_000);
}

#[test]
fn a_session_is_registered_once_and_its_commands_are_numbered() {
    let mut client = Client::new(1, 5);
    assert_eq!(client.register(), Err(Request::Register { nonce: 5 }));
    assert_eq!(client.registered(Ok(Response::Registered { client: 9 })), Ok(9));
    assert_eq!(client.session(), Some(9));
    assert_eq!(client.register(), Ok(9));
    for expected in 1..=3 {
        match client.command(9, put(1)) {
            Request::Command { client: 9, seq, .. } => assert_eq!(seq, expected),
            other => panic!("{other:?}"),
        }
    }
    assert!(Client::new(1, 5).registered(Ok(Response::Applied)).is_err());
}

#[test]
fn what_is_recorded_is_what_the_client_knows() {
    assert_eq!(outcome_of(&Ok(Response::Applied)), Outcome::Answered(Response::Applied));
    assert_eq!(outcome_of(&Err(ClientError::Timeout)), Outcome::Unknown);
    assert_eq!(outcome_of(&Err(ClientError::Refused(ApiError::SessionExpired))), Outcome::Refused);
    let mut client = Client::new(1, 5).recording();
    let (op, _) = put_op(b"k", b"v");
    let started = client.record_start(op, Duration::from_micros(3));
    client.record_end(started, Outcome::Unknown, Duration::from_micros(9));
    let history = client.take_history().unwrap();
    assert_eq!(history.len(), 1);
    assert_eq!(history.entries()[0].op, Op::Put(b"k".to_vec(), b"v".to_vec()));
    assert!(Client::new(1, 5).history().is_none());
}

#[test]
fn answers_are_read_as_what_was_asked_for() {
    assert_eq!(applied(Ok(Response::Applied)), Ok(()));
    assert!(matches!(applied(Ok(Response::Counter(1))), Err(ClientError::Unexpected(_))));
    assert_eq!(swapped(Ok(Response::Applied)), Ok(None));
    assert_eq!(
        swapped(Ok(Response::CasMismatch { actual: Some(b"x".to_vec()) })),
        Ok(Some(Some(b"x".to_vec())))
    );
    assert_eq!(counted(Ok(Response::Counter(-4))), Ok(-4));
    assert_eq!(found(Ok(Response::Value(Some(b"v".to_vec())))), Ok(Some(b"v".to_vec())));
    assert_eq!(
        scanned(Ok(Response::Scanned(vec![(b"a".to_vec(), b"1".to_vec())]))),
        Ok(vec![(b"a".to_vec(), b"1".to_vec())])
    );
    assert_eq!(found(Err(ClientError::Timeout)), Err(ClientError::Timeout));
    let (_, request) = get(b"k");
    assert!(matches!(request, Request::Query { .. }));
    let (_, command) = cas(b"k", None, Some(b"v"));
    assert_eq!(command, Command::Cas { key: b"k".to_vec(), expect: None, value: Some(b"v".to_vec()) });
    assert_eq!(endpoint_of(&[None, Some(7)], 7), Some(1));
    assert_eq!(endpoint_of(&[None, Some(7)], 8), None);
}

#[test]
fn a_client_error_says_what_happened() {
    assert!(ClientError::Io("reset".into()).message().contains("reset"));
    assert!(ClientError::Refused(ApiError::Unavailable).message().contains("no quorum available"));
    assert!(PipelineError::Full(3).message().contains('3'));
}

// ---------------------------------------------------------------- the command line

#[test]
fn what_the_command_line_prints() {
    assert_eq!(incr_text(-3), "-3");
    assert!(register_text(9).contains('9'));
    assert!(get_text(Some("value".into())).contains("value"));
    assert_ne!(get_text(None), get_text(Some("value".into())));
    assert_ne!(cas_text(None), cas_text(Some(None)));
    assert!(cas_text(Some(Some("other".into()))).contains("other"));
    assert!(scan_text(&[("a".into(), "1".into()), ("b".into(), "2".into())]).contains('b'));
    assert_eq!(client_nonce(3), 1_003);
}

#[test]
fn a_workload_writes_and_reads() {
    let mut puts = 0;
    let mut gets = 0;
    for n in 0..20 {
        match workload_op(1, n, 4) {
            Next::Put { .. } => puts += 1,
            Next::Get { .. } => gets += 1,
        }
    }
    assert!(puts > 0 && gets > 0);
    let mut client = Client::new(1, 5).recording();
    let (op, _) = get(b"k");
    let started = client.record_start(op, Duration::from_micros(1));
    client.record_end(started, Outcome::Refused, Duration::from_micros(2));
    let history = client.take_history().unwrap();
    let merged = merge(vec![Ended::Recorded(history)]).unwrap();
    assert_eq!(merged.len(), 1);
    assert!(workload_summary(&merged, 1, 4, "h.jsonl").contains("h.jsonl"));
    assert!(merge(vec![Ended::Panicked]).is_err());
    assert!(merge(vec![Ended::Nothing]).is_err());
    assert!(merge(vec![]).is_err());
}
