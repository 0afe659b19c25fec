use keel::maelstrom::json::{arrived, encode_op, line_of, payload_in, Arrived};
use keel::maelstrom::names::{hex_decode, hex_encode, numeric_id, unquoted};
use keel::maelstrom::{
    name_of, Ask, Body, Committed, Dest, Kind, MaelstromNode, Message, Op, Payload, Ready, Status,
    Store, Told, What,
};
use keel::raft::{EntryPayload, Message as RaftMessage, MessageBody};

fn leading() -> Status {
    Status { leads: true, leader: Some(0) }
}

fn node() -> MaelstromNode {
    let mut node = MaelstromNode::new();
    let (reply, voters) = node.on_init(
        "c1".into(),
        1,
        "n0".into(),
        vec!["n0".into(), "n1".into(), "n2".into()],
    );
    assert_eq!(reply.dest, "c1");
    assert_eq!(reply.what, What::Reply { in_reply_to: 1, body: Body::InitOk });
    assert_eq!(voters, vec![0, 1, 2]);
    node
}

fn ready(committed: Vec<Committed>, read_states: Vec<(u64, u64)>) -> Ready {
    Ready {
        number: 1,
        entries: Vec::new(),
        messages: Vec::new(),
        committed,
        read_states,
        proposals_dropped: Vec::new(),
    }
}

fn bodies(messages: &[Message]) -> Vec<&What> {
    messages.iter().map(|m| &m.what).collect()
}

#[test]
fn names_are_numbers_and_numbers_are_names() {
    assert_eq!(numeric_id("n1"), 1);
    assert_eq!(numeric_id("n41"), 41);
    assert_eq!(numeric_id("nonsense"), 0);
    assert_eq!(name_of(1), "n1");
    assert_eq!(unquoted("\"7\""), "7");
    assert_eq!(unquoted("7"), "7");
    assert_eq!(hex_encode(&[0, 0xab, 0xff]), "00abff");
    assert_eq!(hex_decode("00abff"), Ok(vec![0, 0xab, 0xff]));
    assert!(hex_decode("0").is_err());
    assert!(hex_decode("zz").is_err());
}

#[test]
fn a_node_is_told_who_it_is() {
    let node = node();
    assert_eq!(node.id(), "n0");
    assert_eq!(node.numeric(), 0);
}

#[test]
fn a_write_is_answered_once_it_is_committed() {
    let mut node = node();
    let kind = Kind::Write { value: "5".into() };
    let (said, asked) = node.on_client(Dest::Client("c1".into()), 9, "k", kind, leading());
    assert!(said.is_none());
    let ctx = match asked {
        Some(Ask::Propose { ctx, .. }) => ctx,
        other => panic!("{other:?}"),
    };
    let op = Op::Write { key: "k".into(), value: "5".into() };
    let payload = EntryPayload::Normal(encode_op(&op, ctx));
    let (out, advance) = node.pump(ready(vec![Committed { index: 1, payload }], vec![]));
    assert_eq!(bodies(&out), vec![&What::Reply { in_reply_to: 9, body: Body::WriteOk }]);
    assert_eq!(advance.applied, Some(1));

    // And a read that is confirmed at that point gives it back.
    let (_, asked) = node.on_client(Dest::Client("c2".into()), 10, "k", Kind::Read, leading());
    let ctx = match asked {
        Some(Ask::ReadIndex { ctx }) => ctx,
        other => panic!("{other:?}"),
    };
    let (out, _) = node.pump(ready(vec![], vec![(ctx, 1)]));
    assert_eq!(
        bodies(&out),
        vec![&What::Reply { in_reply_to: 10, body: Body::ReadOk { value: "5".into() } }]
    );
    assert_eq!(out[0].dest, "c2");
}

#[test]
fn a_read_waits_until_the_store_has_caught_up() {
    let mut node = node();
    let (_, asked) = node.on_client(Dest::Client("c1".into()), 3, "k", Kind::Read, leading());
    let ctx = match asked {
        Some(Ask::ReadIndex { ctx }) => ctx,
        other => panic!("{other:?}"),
    };
    let (out, _) = node.pump(ready(vec![], vec![(ctx, 2)]));
    assert!(out.is_empty());
    let other = |index| Committed { index, payload: EntryPayload::Noop };
    let (out, _) = node.pump(ready(vec![other(1), other(2)], vec![]));
    // The key is not there: that is an answer, with the code for it.
    assert!(
        matches!(bodies(&out)[..], [What::Reply { in_reply_to: 3, body: Body::Error { code: 20, .. } }]),
        "{out:?}"
    );
}

#[test]
fn a_swap_goes_through_where_the_value_is_the_one_expected() {
    let mut node = node();
    let ask = |node: &mut MaelstromNode, id, from: &str| {
        let kind = Kind::Cas { from: from.into(), to: "2".into() };
        match node.on_client(Dest::Client("c1".into()), id, "k", kind, leading()).1 {
            Some(Ask::Propose { ctx, .. }) => ctx,
            other => panic!("{other:?}"),
        }
    };
    let missing = ask(&mut node, 1, "1");
    let cas = |token, from: &str| Payload::Cas {
        key: "k".into(),
        from: from.into(),
        to: "2".into(),
        token,
    };
    let said = node.apply(1, cas(missing, "1")).unwrap();
    assert!(matches!(&said.what, What::Reply { body: Body::Error { code: 20, .. }, .. }), "{said:?}");

    node.apply(2, Payload::Write { key: "k".into(), value: "1".into(), token: 999 });
    let wrong = ask(&mut node, 2, "7");
    let said = node.apply(3, cas(wrong, "7")).unwrap();
    assert!(matches!(&said.what, What::Reply { body: Body::Error { code: 22, .. }, .. }), "{said:?}");
    let right = ask(&mut node, 3, "1");
    let said = node.apply(4, cas(right, "1")).unwrap();
    assert_eq!(said.what, What::Reply { in_reply_to: 3, body: Body::CasOk });
    // Nobody is waiting for the same entry twice.
    assert!(node.apply(5, cas(right, "2")).is_none());
}

#[test]
fn a_follower_relays_to_the_leader_and_hands_its_answer_on() {
    let mut follower = node();
    let status = Status { leads: false, leader: Some(1) };
    let (said, asked) = follower.on_client(Dest::Client("c1".into()), 8, "k", Kind::Read, status);
    assert!(asked.is_none());
    let said = said.unwrap();
    assert_eq!(said.dest, "n1");
    let token = match said.what {
        What::Proxy { token, key, kind: Kind::Read } if key == "k" => token,
        other => panic!("{other:?}"),
    };

    let mut leader = node();
    let (_, asked) = leader.on_proxy("n0".into(), token, "k", Kind::Read, leading());
    let ctx = match asked {
        Some(Ask::ReadIndex { ctx }) => ctx,
        other => panic!("{other:?}"),
    };
    let (out, _) = leader.pump(ready(vec![], vec![(ctx, 0)]));
    assert_eq!(out[0].dest, "n0");
    assert!(matches!(&out[0].what, What::ProxyReply { token: t, .. } if *t == token));

    let answer = follower.on_proxy_reply(token, "{}".into()).unwrap();
    assert_eq!(answer.dest, "c1");
    assert_eq!(
        answer.what,
        What::Reply { in_reply_to: 8, body: Body::Relayed { inner: "{}".into() } }
    );
    assert!(follower.on_proxy_reply(token, "{}".into()).is_none());
}

#[test]
fn nobody_to_relay_to_is_an_error_that_says_to_try_again() {
    let mut node = node();
    let status = Status { leads: false, leader: None };
    let (said, asked) = node.on_client(Dest::Client("c1".into()), 8, "k", Kind::Read, status);
    assert!(asked.is_none());
    assert!(
        matches!(
            said.unwrap().what,
            What::Reply { in_reply_to: 8, body: Body::Error { code: 11, .. } }
        )
    );
    // A kind of request nobody knows is not answered at all.
    let (said, asked) = node.on_client(Dest::Client("c1".into()), 9, "k", Kind::Unknown, leading());
    assert!(said.is_none() && asked.is_none());
}

#[test]
fn consensus_messages_are_carried_as_text() {
    let mut node = node();
    let message = RaftMessage::new(0, 1, 3, MessageBody::VoteResp { granted: true });
    let sent = node.send_raft(&message).unwrap();
    assert_eq!(sent.dest, "n1");
    match &sent.what {
        What::Raft { payload } => assert_eq!(node.on_raft(payload), Some(message)),
        other => panic!("{other:?}"),
    }
    assert_eq!(node.on_raft("zz"), None);
}

#[test]
fn a_store_holds_the_last_thing_written() {
    let mut store = Store::new();
    assert_eq!(store.get("k"), None);
    store.insert("k".into(), "1".into());
    store.insert("k".into(), "2".into());
    assert_eq!(store.get("k"), Some("2".into()));
}

#[test]
fn a_line_says_what_it_brings() {
    assert!(arrived("not json").is_none());
    assert!(matches!(arrived("[]"), Some(Arrived::Other)));
    let init = r#"{"src":"c1","dest":"n1","body":{"type":"init","msg_id":3,"node_id":"n1","node_ids":["n1",7,"n2"]}}"#;
    match arrived(init) {
        Some(Arrived::Init { src, msg_id, node_id, node_ids }) => {
            assert_eq!((src.as_str(), msg_id, node_id.as_str()), ("c1", 3, "n1"));
            assert_eq!(node_ids, vec!["n1", "n2"]);
        }
        other => panic!("{other:?}"),
    }
    // An object is no list of names, whatever its members are called.
    let odd = r#"{"src":"c1","body":{"type":"init","node_ids":{"0":"n1"}}}"#;
    match arrived(odd) {
        Some(Arrived::Init { msg_id: 0, node_ids, .. }) => assert!(node_ids.is_empty()),
        other => panic!("{other:?}"),
    }
    let cas = r#"{"src":"c2","body":{"type":"cas","msg_id":9,"key":7,"from":[1, 2],"to":"x"}}"#;
    match arrived(cas) {
        Some(Arrived::Client { src, msg_id: 9, key, kind: Kind::Cas { from, to } }) => {
            assert_eq!((src.as_str(), key.as_str()), ("c2", "7"));
            assert_eq!((from.as_str(), to.as_str()), ("[1,2]", "\"x\""));
        }
        other => panic!("{other:?}"),
    }
    let proxy = r#"{"src":"n2","body":{"type":"proxy","token":4,"inner":{"type":"write","key":"k","value":1}}}"#;
    match arrived(proxy) {
        Some(Arrived::Proxy { src, token: 4, key, kind: Kind::Write { value } }) => {
            assert_eq!((src.as_str(), key.as_str(), value.as_str()), ("n2", "\"k\"", "1"));
        }
        other => panic!("{other:?}"),
    }
    let reply = r#"{"src":"n1","body":{"type":"proxy_reply","token":4,"inner":{"type":"write_ok"}}}"#;
    match arrived(reply) {
        Some(Arrived::ProxyReply { token: 4, inner }) => {
            assert_eq!(inner, r#"{"type":"write_ok"}"#);
        }
        other => panic!("{other:?}"),
    }
    let nameless = r#"{"src":"n1","body":{"type":"proxy_reply","inner":{}}}"#;
    assert!(matches!(arrived(nameless), Some(Arrived::Other)));
    let raft = r#"{"src":"n1","body":{"type":"raft","payload":"00ff"}}"#;
    assert!(matches!(arrived(raft), Some(Arrived::Raft { payload }) if payload == "00ff"));
    let unreadable = r#"{"src":"n1","body":{"type":"raft","payload":12}}"#;
    assert!(matches!(arrived(unreadable), Some(Arrived::Other)));
}

#[test]
fn an_entry_gives_back_the_operation_it_was_made_of() {
    let op = Op::Write { key: "a\"b".into(), value: "[1,2]".into() };
    let data = encode_op(&op, 12);
    assert_eq!(
        String::from_utf8(data.clone()).unwrap(),
        r#"{"key":"a\"b","op":"write","token":12,"value":[1,2]}"#
    );
    match payload_in(&data) {
        Payload::Write { key, value, token: 12 } => {
            assert_eq!((key.as_str(), value.as_str()), ("a\"b", "[1,2]"));
        }
        other => panic!("{other:?}"),
    }
    let op = Op::Cas { key: "k".into(), from: "1".into(), to: "null".into() };
    match payload_in(&encode_op(&op, 3)) {
        Payload::Cas { key, from, to, token: 3 } => {
            assert_eq!((key.as_str(), from.as_str(), to.as_str()), ("k", "1", "null"));
        }
        other => panic!("{other:?}"),
    }
    let read = Op::Read { key: "k".into() };
    assert!(matches!(payload_in(&encode_op(&read, 5)), Payload::Unknown { token: 5 }));
    assert!(matches!(payload_in(b"\xff\xfe"), Payload::Other));
    assert!(matches!(payload_in(b"{"), Payload::Other));
    assert!(matches!(payload_in(b"7"), Payload::Unknown { token: 0 }));
}

#[test]
fn a_swap_compares_values_and_not_how_they_are_written() {
    let mut node = node();
    node.apply(1, Payload::Write { key: "k".into(), value: "-0.0".into(), token: 900 });
    let kind = Kind::Cas { from: "0.0".into(), to: "2".into() };
    let ctx = match node.on_client(Dest::Client("c1".into()), 4, "k", kind, leading()).1 {
        Some(Ask::Propose { ctx, .. }) => ctx,
        other => panic!("{other:?}"),
    };
    let cas = Payload::Cas { key: "k".into(), from: "0.0".into(), to: "2".into(), token: ctx };
    let said = node.apply(2, cas).unwrap();
    assert_eq!(said.what, What::Reply { in_reply_to: 4, body: Body::CasOk });
}

#[test]
fn lines_are_heard_from_end_to_end() {
    let mut node = MaelstromNode::new();
    let idle = Status { leads: false, leader: None };
    let write = r#"{"src":"c1","body":{"type":"write","msg_id":2,"key":"k","value":5}}"#;
    // Before it is told who it is, a node says nothing.
    let (said, told) = node.on_line(write, idle);
    assert!(said.is_none() && told.is_none());
    let init = r#"{"src":"c0","body":{"type":"init","msg_id":1,"node_id":"n2","node_ids":["n1","n2"]}}"#;
    let (said, told) = node.on_line(init, idle);
    assert_eq!(said.unwrap().what, What::Reply { in_reply_to: 1, body: Body::InitOk });
    assert!(matches!(told, Some(Told::Start { voters }) if voters == vec![1, 2]));
    let (said, told) = node.on_line(write, Status { leads: false, leader: Some(1) });
    assert!(told.is_none());
    let said = said.unwrap();
    assert_eq!(said.dest, "n1");
    assert_eq!(
        said.what,
        What::Proxy { token: 1, key: "\"k\"".into(), kind: Kind::Write { value: "5".into() } }
    );
    let (said, told) = node.on_line(write, leading());
    assert!(said.is_none());
    match told {
        Some(Told::Ask { ask: Ask::Propose { ctx: 2, op: Op::Write { key, value } } }) => {
            assert_eq!((key.as_str(), value.as_str()), ("k", "5"));
        }
        other => panic!("{other:?}"),
    }
    assert!(node.on_line("nonsense", leading()).0.is_none());
}

fn line(what: What) -> Option<String> {
    line_of("n1", &Message { msg_id: 7, dest: "c3".into(), what })
}

#[test]
fn a_message_goes_out_as_a_line() {
    let reply = |body| line(What::Reply { in_reply_to: 4, body }).unwrap();
    let around = |body: &str| format!(r#"{{"body":{body},"dest":"c3","src":"n1"}}"#);
    assert_eq!(
        reply(Body::InitOk),
        around(r#"{"in_reply_to":4,"msg_id":7,"type":"init_ok"}"#)
    );
    assert_eq!(
        reply(Body::ReadOk { value: "[1,\"a\"]".into() }),
        around(r#"{"in_reply_to":4,"msg_id":7,"type":"read_ok","value":[1,"a"]}"#)
    );
    assert_eq!(
        reply(Body::WriteOk),
        around(r#"{"in_reply_to":4,"msg_id":7,"type":"write_ok"}"#)
    );
    assert_eq!(
        reply(Body::CasOk),
        around(r#"{"in_reply_to":4,"msg_id":7,"type":"cas_ok"}"#)
    );
    assert_eq!(
        reply(Body::Error { code: 22, text: "have \"x\"".into() }),
        around(r#"{"code":22,"in_reply_to":4,"msg_id":7,"text":"have \"x\"","type":"error"}"#)
    );
    assert_eq!(
        line(What::ProxyReply { token: 9, body: Body::WriteOk }).unwrap(),
        around(r#"{"inner":{"type":"write_ok"},"msg_id":7,"token":9,"type":"proxy_reply"}"#)
    );
    assert_eq!(
        line(What::Raft { payload: "00ff".into() }).unwrap(),
        around(r#"{"msg_id":7,"payload":"00ff","type":"raft"}"#)
    );
    // What is written is what a value of the same members prints as.
    for text in [reply(Body::InitOk), reply(Body::Error { code: 1, text: "\u{7}".into() })] {
        let value: serde_json::Value = serde_json::from_str(&text).unwrap();
        assert_eq!(value.to_string(), text);
    }
}

#[test]
fn an_answer_that_was_relayed_is_passed_on_as_it_was_written() {
    let pass = |inner: &str| {
        line(What::Reply { in_reply_to: 4, body: Body::Relayed { inner: inner.into() } })
    };
    assert_eq!(
        pass(r#"{"type":"read_ok","value":3}"#).unwrap(),
        r#"{"body":{"in_reply_to":4,"msg_id":7,"type":"read_ok","value":3},"dest":"c3","src":"n1"}"#
    );
    assert_eq!(
        pass("null").unwrap(),
        r#"{"body":{"in_reply_to":4,"msg_id":7},"dest":"c3","src":"n1"}"#
    );
    assert_eq!(pass("3"), None);
    assert_eq!(pass("\"text\""), None);
}

/// What a follower relays is heard by the leader as the request that was asked.
#[test]
fn a_relayed_line_is_heard_as_the_request_it_holds() {
    let kinds = [
        Kind::Read,
        Kind::Write { value: r#"{"a":[null,-1]}"#.into() },
        Kind::Cas { from: "null".into(), to: "\"\\n\"".into() },
    ];
    for kind in kinds {
        let asked = format!("{kind:?}");
        let text = line(What::Proxy { token: 5, key: "\"k\"".into(), kind }).unwrap();
        match arrived(&text) {
            Some(Arrived::Proxy { src, token, key, kind }) => {
                assert_eq!((src.as_str(), token, key.as_str()), ("n1", 5, "\"k\""));
                assert_eq!(format!("{kind:?}"), asked);
            }
            other => panic!("{other:?}"),
        }
    }
}
