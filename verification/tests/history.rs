use keel::api::{ApiError, Response};
use keel::client::history::{History, Op, Outcome};
use keel::time::Duration;

fn at(micros: u64) -> Duration {
    Duration::from_micros(micros)
}

#[test]
fn an_operation_has_an_invocation_and_a_completion() {
    let mut history = History::new();
    let index = history.invoke(Op::Put(b"k".to_vec(), b"v".to_vec()), at(1));
    assert_eq!(history.pending(), 1);
    history.complete(index, Outcome::Answered(Response::Applied), at(2));
    assert_eq!(history.pending(), 0);

    let entry = &history.entries()[0];
    assert!(entry.completed.is_some());
    assert!(
        entry.completed.unwrap() >= entry.invoked,
        "an operation completed before it was invoked"
    );
}

/// The distinction a checker needs. A timeout is not a failure.
#[test]
fn a_lost_answer_is_unknown_rather_than_refused() {
    let mut history = History::new();
    let a = history.invoke(Op::Get(b"k".to_vec()), at(1));
    let b = history.invoke(Op::Get(b"k".to_vec()), at(1));
    history.complete(a, Outcome::Unknown, at(2));
    history.complete(b, Outcome::Refused, at(2));

    let jsonl = history.to_jsonl();
    assert!(jsonl.contains("\"outcome\":\"unknown\""));
    assert!(jsonl.contains("\"outcome\":\"refused\""));
}

#[test]
fn the_rendering_is_one_line_per_operation() {
    let mut history = History::new();
    for i in 0..5u8 {
        let index = history.invoke(Op::Put(vec![i], vec![i]), at(1));
        history.complete(index, Outcome::Answered(Response::Applied), at(2));
    }
    let jsonl = history.to_jsonl();
    assert_eq!(jsonl.lines().count(), 5);
    assert!(jsonl.ends_with('\n'));
    for line in jsonl.lines() {
        assert!(line.starts_with('{') && line.ends_with('}'), "{line}");
    }
}

/// A key is arbitrary bytes and must survive the rendering unmangled.
#[test]
fn keys_and_values_are_rendered_as_bytes_rather_than_text() {
    let mut history = History::new();
    let index = history.invoke(Op::Put(vec![0x00, 0xff, b'"'], vec![0x0a]), at(1));
    history.complete(index, Outcome::Answered(Response::Applied), at(2));
    let line = history.to_jsonl();
    assert!(line.contains("\"key\":\"00ff22\""), "{line}");
    assert!(line.contains("\"value\":\"0a\""), "{line}");
}

#[test]
fn a_history_taken_mid_flight_says_how_many_are_pending() {
    let mut history = History::new();
    history.invoke(Op::Get(b"a".to_vec()), at(1));
    let done = history.invoke(Op::Get(b"b".to_vec()), at(1));
    history.complete(done, Outcome::Answered(Response::Value(None)), at(2));
    assert_eq!(history.pending(), 1);
    assert!(history.to_jsonl().contains("\"completed_us\":null"));
}

#[test]
fn a_line_says_everything_a_checker_reads() {
    let mut history = History::new();
    let index = history.invoke(Op::Get(b"k".to_vec()), at(1_000));
    history.complete(index, Outcome::Answered(Response::Value(Some(b"v".to_vec()))), at(2_500));
    let line = history.to_jsonl();
    assert!(line.contains("\"key\":\"6b\""), "{line}");
    assert!(line.contains("1000") && line.contains("2500"), "{line}");
}

#[test]
fn an_operation_is_completed_once() {
    let mut history = History::new();
    assert!(history.is_empty());
    let index = history.invoke(Op::Incr(b"n".to_vec(), 3), at(1));
    history.complete(index, Outcome::Unknown, at(2));
    assert_eq!(history.entries()[index].outcome, Outcome::Unknown);
    // Nothing there to complete.
    history.complete(9, Outcome::Refused, at(3));
    assert_eq!(history.len(), 1);
}

#[test]
fn histories_are_put_together_in_the_order_things_were_asked() {
    let mut first = History::new();
    first.invoke(Op::Get(b"a".to_vec()), at(1));
    first.invoke(Op::Get(b"c".to_vec()), at(5));
    let mut second = History::new();
    second.invoke(Op::Get(b"b".to_vec()), at(3));
    first.absorb(second);
    assert_eq!(first.len(), 3);
    let keys: Vec<Vec<u8>> = first
        .entries()
        .iter()
        .map(|e| match &e.op {
            Op::Get(key) => key.clone(),
            other => panic!("{other:?}"),
        })
        .collect();
    let mut sorted = keys.clone();
    sorted.sort();
    assert_eq!(sorted, vec![b"a".to_vec(), b"b".to_vec(), b"c".to_vec()]);
}

#[test]
fn every_kind_of_answer_can_be_written_down() {
    let answers = vec![
        Response::Registered { client: 4 },
        Response::Applied,
        Response::CasMismatch { actual: Some(b"x".to_vec()) },
        Response::Value(None),
        Response::Scanned(vec![(b"a".to_vec(), b"1".to_vec())]),
        Response::NotLeader { leader: Some(3) },
        Response::Error(ApiError::Unavailable),
        Response::Counter(-2),
    ];
    let mut history = History::new();
    for answer in answers {
        let index = history.invoke(Op::Delete(b"k".to_vec()), at(1));
        history.complete(index, Outcome::Answered(answer), at(2));
    }
    assert_eq!(history.to_jsonl().lines().count(), 8);
    assert!(history.to_jsonl().lines().all(|l| l.contains("\"outcome\":\"ok\"")));
    history.invoke(Op::Incr(b"n".to_vec(), -2), at(3));
    assert!(history.to_jsonl().contains("\"value\":-2,"));
}
