use std::collections::HashSet;

use keel::api::{
    decode, encode, ApiError, CodecError, Command, Consistency, Envelope, Peer, Proposal,
    ProposalBody, Query, Request, Response, MAX_PAYLOAD_BYTES,
};
use keel::raft::{ConfState, Entry, EntryPayload, Message, MessageBody, SnapshotMeta};
use keel::wire::Malformed;

fn b(s: &str) -> Vec<u8> {
    s.as_bytes().to_vec()
}

fn every_request() -> Vec<Request> {
    vec![
        Request::Register { nonce: 0xdead_beef },
        Request::Command {
            client: 1,
            seq: 2,
            command: Command::Put { key: b("k"), value: b("v") },
        },
        Request::Command { client: 1, seq: 3, command: Command::Delete { key: b("k") } },
        Request::Command {
            client: 1,
            seq: 4,
            command: Command::Cas { key: b("k"), expect: None, value: Some(b("v")) },
        },
        Request::Command {
            client: 1,
            seq: 5,
            command: Command::Cas { key: b("k"), expect: Some(b("v")), value: None },
        },
        Request::Query {
            consistency: Consistency::Linearizable,
            query: Query::Get { key: b("k") },
        },
        Request::Query {
            consistency: Consistency::Lease,
            query: Query::Scan { start: Some(b("a")), end: None, limit: 100 },
        },
        Request::Query {
            consistency: Consistency::Stale,
            query: Query::Scan { start: None, end: Some(b("z")), limit: 0 },
        },
        Request::KeepAlive { client: 9 },
    ]
}

fn every_response() -> Vec<Response> {
    vec![
        Response::Registered { client: 4 },
        Response::Applied,
        Response::CasMismatch { actual: Some(b("other")) },
        Response::CasMismatch { actual: None },
        Response::Value(Some(b("v"))),
        Response::Value(None),
        Response::Scanned(vec![(b("a"), b("1")), (b("b"), b("2"))]),
        Response::Scanned(vec![]),
        Response::NotLeader { leader: Some(3) },
        Response::NotLeader { leader: None },
        Response::Error(ApiError::SessionExpired),
        Response::Error(ApiError::SequenceTooOld { got: 1, floor: 9 }),
        Response::Error(ApiError::Unavailable),
        Response::Error(ApiError::TooLarge { got: 1 << 30, limit: MAX_PAYLOAD_BYTES }),
        Response::Error(ApiError::NodeFailed("disk is gone".into())),
    ]
}

fn every_peer_message() -> Vec<Peer> {
    let entries = vec![
        Entry::new(3, 7, EntryPayload::Noop),
        Entry::new(3, 8, EntryPayload::Normal(b("payload"))),
    ];
    vec![
        Peer::Raft(Message {
            from: 1,
            to: 2,
            term: 3,
            body: MessageBody::AppendReq {
                prev_log_index: 6,
                prev_log_term: 2,
                entries,
                leader_commit: 6,
            },
        }),
        Peer::SnapshotChunk { index: 900, term: 4, offset: 4096, last: false, data: b("chunk") },
    ]
}

#[test]
fn every_request_round_trips() {
    for request in every_request() {
        let bytes = encode(&request).unwrap();
        assert_eq!(decode::<Request>(&bytes).unwrap(), request);
    }
}

#[test]
fn every_response_round_trips() {
    for response in every_response() {
        let bytes = encode(&response).unwrap();
        assert_eq!(decode::<Response>(&bytes).unwrap(), response);
    }
}

#[test]
fn every_peer_message_round_trips() {
    for peer in every_peer_message() {
        let bytes = encode(&peer).unwrap();
        assert_eq!(decode::<Peer>(&bytes).unwrap(), peer);
    }
}

/// Two payloads that differ must not encode to the same bytes, or a
/// deduplicating cache keyed on the encoding would confuse them.
#[test]
fn distinct_requests_encode_distinctly() {
    let mut seen = HashSet::new();
    for request in every_request() {
        assert!(
            seen.insert(encode(&request).unwrap()),
            "two distinct requests encoded identically: {request:?}"
        );
    }
}

#[test]
fn a_payload_with_bytes_appended_is_refused() {
    let mut bytes = encode(&Request::KeepAlive { client: 1 }).unwrap();
    bytes.push(0);
    assert!(matches!(decode::<Request>(&bytes), Err(CodecError::Trailing { trailing: 1 })));
}

#[test]
fn a_truncated_payload_is_refused_rather_than_guessed() {
    let bytes = encode(&Request::Command {
        client: 1,
        seq: 2,
        command: Command::Put { key: b("key"), value: b("value") },
    })
    .unwrap();
    for cut in 0..bytes.len() {
        match decode::<Request>(&bytes[..cut]) {
            Err(_) => {}
            Ok(other) => assert_ne!(
                encode(&other).unwrap(),
                bytes,
                "a {cut}-byte prefix decoded back to the whole request"
            ),
        }
    }
}

#[test]
fn an_oversized_payload_is_refused_before_it_is_parsed() {
    let huge = vec![0u8; MAX_PAYLOAD_BYTES + 1];
    assert!(matches!(decode::<Request>(&huge), Err(CodecError::TooLarge { .. })));
}

/// Arbitrary bytes must not panic the decoder.
#[test]
fn arbitrary_bytes_do_not_panic_the_decoder() {
    let mut rng = split_mix(0x5eed);
    for _ in 0..2_000 {
        let len = (rng() % 64) as usize;
        let bytes: Vec<u8> = (0..len).map(|_| (rng() & 0xff) as u8).collect();
        let _ = decode::<Request>(&bytes);
        let _ = decode::<Response>(&bytes);
        let _ = decode::<Peer>(&bytes);
    }
}

fn split_mix(seed: u64) -> impl FnMut() -> u64 {
    let mut state = seed;
    move || {
        state = state.wrapping_add(0x9E37_79B9_7F4A_7C15);
        let mut z = state;
        z = (z ^ (z >> 30)).wrapping_mul(0xBF58_476D_1CE4_E5B9);
        z = (z ^ (z >> 27)).wrapping_mul(0x94D0_49BB_1331_11EB);
        z ^ (z >> 31)
    }
}

// ------------------------------------------------------------- exact bytes

/// The bytes on the wire, for values whose encoding can be worked out by hand:
/// a variant, then its fields, each integer seven bits at a time.
#[test]
fn a_request_is_encoded_byte_for_byte() {
    assert_eq!(encode(&Request::KeepAlive { client: 300 }).unwrap(), vec![3, 0xac, 0x02]);
    assert_eq!(encode(&Request::Register { nonce: 1 }).unwrap(), vec![0, 1]);
    assert_eq!(
        encode(&Request::Command {
            client: 1,
            seq: 2,
            command: Command::Put { key: b("k"), value: b("vw") },
        })
        .unwrap(),
        vec![1, 1, 2, 0, 1, b'k', 2, b'v', b'w']
    );
    assert_eq!(
        encode(&Request::Query {
            consistency: Consistency::Stale,
            query: Query::Scan { start: None, end: Some(b("z")), limit: 128 },
        })
        .unwrap(),
        vec![2, 2, 1, 0, 1, 1, b'z', 0x80, 0x01]
    );
}

/// A signed number is folded so that small ones stay small either way.
#[test]
fn a_counter_is_encoded_with_its_sign_in_the_low_bit() {
    assert_eq!(encode(&Response::Counter(7)).unwrap(), vec![7, 14]);
    assert_eq!(encode(&Response::Counter(-7)).unwrap(), vec![7, 13]);
    for n in [0, 1, -1, i64::MAX, i64::MIN] {
        let bytes = encode(&Response::Counter(n)).unwrap();
        assert_eq!(decode::<Response>(&bytes).unwrap(), Response::Counter(n));
    }
}

#[test]
fn the_largest_integers_round_trip_at_every_width() {
    for n in [0, 127, 128, u32::MAX as u64, u64::MAX] {
        let bytes = encode(&n).unwrap();
        assert_eq!(decode::<u64>(&bytes).unwrap(), n);
    }
    for n in [0, 127, 128, u32::MAX] {
        let bytes = encode(&n).unwrap();
        assert_eq!(decode::<u32>(&bytes).unwrap(), n);
    }
    for n in [0u16, 127, 128, u16::MAX] {
        let bytes = encode(&n).unwrap();
        assert_eq!(decode::<u16>(&bytes).unwrap(), n);
    }
    assert_eq!(encode(&u64::MAX).unwrap().len(), 10);
}

/// An integer that would not fit its type is not an integer of it.
#[test]
fn an_integer_too_wide_for_its_type_is_malformed() {
    let wide = encode(&(u32::MAX as u64 + 1)).unwrap();
    assert!(matches!(
        decode::<u32>(&wide),
        Err(CodecError::Malformed(Malformed::Integer))
    ));
    let wide = encode(&(u16::MAX as u32 + 1)).unwrap();
    assert!(matches!(
        decode::<u16>(&wide),
        Err(CodecError::Malformed(Malformed::Integer))
    ));
    assert!(matches!(
        decode::<u64>(&[0xff; 10]),
        Err(CodecError::Malformed(Malformed::Integer))
    ));
}

#[test]
fn each_way_of_being_malformed_has_its_own_name() {
    // A byte string longer than what is left.
    assert!(matches!(
        decode::<Vec<u8>>(&[5, 1, 2]),
        Err(CodecError::Malformed(Malformed::End))
    ));
    // A flag that is neither.
    assert!(matches!(
        decode::<bool>(&[2]),
        Err(CodecError::Malformed(Malformed::Flag(2)))
    ));
    // A variant nobody has.
    assert!(matches!(
        decode::<Request>(&[9]),
        Err(CodecError::Malformed(Malformed::Variant(9)))
    ));
    // Bytes that are not text.
    assert!(matches!(
        decode::<String>(&[2, 0xff, 0xfe]),
        Err(CodecError::Malformed(Malformed::Text))
    ));
}

#[test]
fn text_round_trips_with_its_accents() {
    let text = String::from("naïve — ünïcode");
    let bytes = encode(&text).unwrap();
    assert_eq!(bytes.len(), text.len() + 1);
    assert_eq!(decode::<String>(&bytes).unwrap(), text);
}

#[test]
fn an_envelope_carries_its_label() {
    let envelope = Envelope::new(77, Request::KeepAlive { client: 9 });
    let bytes = encode(&envelope).unwrap();
    assert_eq!(bytes, vec![77, 3, 9]);
    let back = decode::<Envelope<Request>>(&bytes).unwrap();
    assert_eq!(back.id, 77);
    assert_eq!(back.body, Request::KeepAlive { client: 9 });
}

#[test]
fn a_proposal_round_trips_with_and_without_a_session() {
    for session in [None, Some((3, 9))] {
        let proposal = Proposal {
            stamped_ms: 12,
            session,
            body: ProposalBody::Command(Command::Incr { key: b("n"), by: -4 }),
        };
        let bytes = encode(&proposal).unwrap();
        assert_eq!(decode::<Proposal>(&bytes).unwrap(), proposal);
        assert_eq!(proposal.clone(), proposal);
    }
}

#[test]
fn the_snapshot_messages_round_trip() {
    let messages = vec![
        Peer::SnapshotRequest { index: 9, term: 2, position: vec![("a".into(), 4), ("b".into(), 0)] },
        Peer::SnapshotFile {
            index: 9,
            term: 2,
            file: "part-0".into(),
            offset: 65_536,
            crc: 0xdead_beef,
            last: true,
            data: b("bytes"),
        },
        Peer::SnapshotComplete { index: 9, term: 2, digest: u64::MAX },
        Peer::SnapshotStatus { index: 9, term: 2, ok: false },
        Peer::Raft(Message::new(
            1,
            2,
            3,
            MessageBody::SnapshotOffer {
                meta: SnapshotMeta { index: 9, term: 2, conf: ConfState::single(vec![1, 2, 3]) },
            },
        )),
    ];
    for message in messages {
        let bytes = encode(&message).unwrap();
        assert_eq!(decode::<Peer>(&bytes).unwrap(), message);
        assert_eq!(message.clone(), message);
    }
}

#[test]
fn a_payload_too_large_to_send_is_refused() {
    let huge = Command::Put { key: b("k"), value: vec![0; MAX_PAYLOAD_BYTES] };
    match encode(&huge) {
        // The variant, the key with its length, and the value with its length.
        Err(CodecError::TooLarge { got }) => assert_eq!(got, 1 + 2 + 4 + MAX_PAYLOAD_BYTES),
        other => panic!("{other:?}"),
    }
}

#[test]
fn errors_say_what_happened() {
    assert_eq!(
        ApiError::SequenceTooOld { got: 1, floor: 9 }.message(),
        "sequence number 1 is below the session's floor 9"
    );
    assert_eq!(
        ApiError::NodeFailed("disk is gone".into()).message(),
        "this node has failed and is refusing requests: disk is gone"
    );
    assert_eq!(
        CodecError::Trailing { trailing: 3 }.message(),
        "3 trailing bytes after a complete payload"
    );
    assert_eq!(
        CodecError::TooLarge { got: 20_000_000 }.message(),
        "payload is 20000000 bytes, above the 16777216-byte limit"
    );
    assert_eq!(
        CodecError::Malformed(Malformed::Variant(9)).message(),
        "malformed payload: there is no variant 9"
    );
}

#[test]
fn reads_are_linearizable_unless_asked_otherwise() {
    assert_eq!(Consistency::default(), Consistency::Linearizable);
}
