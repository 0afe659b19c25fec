//! What is written, held against `postcard` on tuples of the same shape: a struct
//! is its fields, and a variant is its number and then its fields.

use keel::api::{
    decode, encode, ApiError, Command, Consistency, Peer, Proposal, ProposalBody, Query, Request,
    Response,
};
use keel::log::record::{Record, SegHeader, MAGIC, VERSION};
use keel::raft::{
    ConfState, Entry, EntryPayload, HardState, Message, MessageBody, SnapshotMeta,
};
use postcard::to_stdvec;

fn b(s: &str) -> Vec<u8> {
    s.as_bytes().to_vec()
}

#[test]
fn plain_values_are_written_as_postcard_writes_them() {
    for n in [0u64, 1, 127, 128, 16_383, 16_384, u32::MAX as u64, u64::MAX] {
        assert_eq!(encode(&n).unwrap(), to_stdvec(&n).unwrap());
        assert_eq!(encode(&Some(n)).unwrap(), to_stdvec(&Some(n)).unwrap());
    }
    for n in [0i64, 1, -1, 63, -64, 64, i64::MAX, i64::MIN] {
        assert_eq!(encode(&n).unwrap(), to_stdvec(&n).unwrap());
        let bytes = to_stdvec(&n).unwrap();
        assert_eq!(decode::<i64>(&bytes).unwrap(), n);
    }
    for n in [0u16, 255, u16::MAX] {
        assert_eq!(encode(&n).unwrap(), to_stdvec(&n).unwrap());
    }
    assert_eq!(encode(&true).unwrap(), to_stdvec(&true).unwrap());
    assert_eq!(encode(&None::<u64>).unwrap(), to_stdvec(&None::<u64>).unwrap());
    assert_eq!(encode(&b("bytes")).unwrap(), to_stdvec(&b("bytes")).unwrap());
    let text = String::from("naïve");
    assert_eq!(encode(&text).unwrap(), to_stdvec(&text).unwrap());
    let rows = vec![(b("a"), b("1")), (b("b"), b("2"))];
    assert_eq!(encode(&rows).unwrap(), to_stdvec(&rows).unwrap());
    assert_eq!(encode(&300usize).unwrap(), to_stdvec(&300usize).unwrap());
}

#[test]
fn requests_and_answers_are_written_as_postcard_writes_their_shape() {
    assert_eq!(
        encode(&Request::Command {
            client: 1,
            seq: 2,
            command: Command::Cas { key: b("k"), expect: None, value: Some(b("v")) },
        })
        .unwrap(),
        to_stdvec(&(1u32, 1u64, 2u64, 2u32, b("k"), None::<Vec<u8>>, Some(b("v")))).unwrap()
    );
    assert_eq!(
        encode(&Command::Incr { key: b("n"), by: -4 }).unwrap(),
        to_stdvec(&(3u32, b("n"), -4i64)).unwrap()
    );
    assert_eq!(
        encode(&Request::Query {
            consistency: Consistency::Lease,
            query: Query::Scan { start: Some(b("a")), end: None, limit: 100 },
        })
        .unwrap(),
        to_stdvec(&(2u32, 1u32, 1u32, Some(b("a")), None::<Vec<u8>>, 100u32)).unwrap()
    );
    assert_eq!(
        encode(&Response::Scanned(vec![(b("a"), b("1"))])).unwrap(),
        to_stdvec(&(4u32, vec![(b("a"), b("1"))])).unwrap()
    );
    assert_eq!(
        encode(&Response::Error(ApiError::NodeFailed("disk".into()))).unwrap(),
        to_stdvec(&(6u32, 4u32, "disk")).unwrap()
    );
    assert_eq!(
        encode(&Response::Error(ApiError::TooLarge { got: 1 << 30, limit: 7 })).unwrap(),
        to_stdvec(&(6u32, 3u32, 1usize << 30, 7usize)).unwrap()
    );
    assert_eq!(
        encode(&Proposal {
            stamped_ms: 12,
            session: Some((3, 9)),
            body: ProposalBody::Register { nonce: 5 },
        })
        .unwrap(),
        to_stdvec(&(12u64, Some((3u64, 9u64)), 0u32, 5u64)).unwrap()
    );
}

#[test]
fn peer_messages_are_written_as_postcard_writes_their_shape() {
    assert_eq!(
        encode(&Message::new(
            1,
            2,
            3,
            MessageBody::AppendReq {
                prev_log_index: 6,
                prev_log_term: 2,
                entries: vec![Entry::new(3, 7, EntryPayload::Normal(b("p")))],
                leader_commit: 6,
            },
        ))
        .unwrap(),
        to_stdvec(&(1u64, 2u64, 3u64, 4u32, 6u64, 2u64, vec![(3u64, 7u64, 1u32, b("p"))], 6u64))
            .unwrap()
    );
    assert_eq!(
        encode(&Peer::SnapshotFile {
            index: 9,
            term: 2,
            file: "part-0".into(),
            offset: 65_536,
            crc: 0xdead_beef,
            last: true,
            data: b("bytes"),
        })
        .unwrap(),
        to_stdvec(&(3u32, 9u64, 2u64, "part-0", 65_536u64, 0xdead_beefu32, true, b("bytes")))
            .unwrap()
    );
}

#[test]
fn records_are_written_as_postcard_writes_their_shape() {
    let hs = HardState { term: 7, voted_for: Some(3), commit: 2 };
    assert_eq!(
        Record::HardState(hs).payload(),
        to_stdvec(&(7u64, Some(3u64), 2u64)).unwrap()
    );
    assert_eq!(
        Record::Snapshot(SnapshotMeta { index: 9, term: 4, conf: ConfState::single(vec![1, 300]) })
            .payload(),
        to_stdvec(&(9u64, 4u64, vec![1u64, 300], Vec::<u64>::new())).unwrap()
    );
    let header = SegHeader { magic: MAGIC, version: VERSION, seq: 3, base_index: 12 };
    assert_eq!(
        Record::SegHeader(header).payload(),
        to_stdvec(&(MAGIC, VERSION, 3u64, 12u64)).unwrap()
    );
    assert_eq!(Record::Truncate { from: 500 }.payload(), to_stdvec(&500u64).unwrap());
}

/// What `postcard` refuses is refused, and what it takes is taken.
#[test]
fn what_is_read_is_what_postcard_reads() {
    let mut state = 0x5eedu64;
    for _ in 0..5_000 {
        state = state.wrapping_mul(6_364_136_223_846_793_005).wrapping_add(1);
        let len = (state >> 60) as usize;
        let bytes: Vec<u8> = (0..len)
            .map(|i| {
                let byte = (state >> (i * 4)) as u8;
                // Long runs of continuation bits, now and then.
                if state & 1 == 0 {
                    byte | 0x80
                } else {
                    byte
                }
            })
            .collect();
        assert_eq!(decode::<u64>(&bytes).ok(), whole::<u64>(&bytes));
        assert_eq!(decode::<u32>(&bytes).ok(), whole::<u32>(&bytes));
        assert_eq!(decode::<u16>(&bytes).ok(), whole::<u16>(&bytes));
        assert_eq!(decode::<i64>(&bytes).ok(), whole::<i64>(&bytes));
        assert_eq!(decode::<bool>(&bytes).ok(), whole::<bool>(&bytes));
        assert_eq!(decode::<Vec<u8>>(&bytes).ok(), whole::<Vec<u8>>(&bytes));
        assert_eq!(decode::<String>(&bytes).ok(), whole::<String>(&bytes));
        assert_eq!(decode::<Option<u64>>(&bytes).ok(), whole::<Option<u64>>(&bytes));
    }
}

fn whole<T: serde::de::DeserializeOwned>(bytes: &[u8]) -> Option<T> {
    match postcard::take_from_bytes::<T>(bytes) {
        Ok((value, [])) => Some(value),
        _ => None,
    }
}
