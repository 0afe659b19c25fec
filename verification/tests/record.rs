use keel::log::error::Error;
use keel::log::record::{
    decode_first, read_frame, scan, written_end, Frame, Record, SegHeader, Stop, FRAME_HEADER, MAGIC, VERSION,
};
use keel::log::segment::{parse_segment_seq, path_in, read_header, segment_name};
use keel::raft::{ConfState, Entry, EntryPayload, HardState, SnapshotMeta};


fn entry(term: u64, index: u64) -> Entry {
    Entry::new(term, index, EntryPayload::Noop)
}

fn collect(bytes: &[u8], pos: usize) -> (Vec<Record>, usize, Stop) {
    scan(bytes, pos, 8 << 20).unwrap()
}

#[test]
fn every_record_kind_round_trips() {
    let records = vec![
        Record::Entries(vec![entry(1, 1), entry(1, 2)]),
        Record::HardState(HardState {
            term: 7,
            voted_for: Some(3),
            commit: 2,
        }),
        Record::Truncate { from: 5 },
        Record::Snapshot(SnapshotMeta {
            index: 9,
            term: 4,
            conf: ConfState::single(vec![1]),
        }),
        Record::SegHeader(SegHeader {
            magic: MAGIC,
            version: VERSION,
            seq: 3,
            base_index: 12,
        }),
    ];

    let mut bytes = Vec::new();
    for r in &records {
        bytes.extend_from_slice(&r.encode());
    }

    let (got, end, stop) = collect(&bytes, 0);
    assert_eq!(got, records);
    assert_eq!(end, bytes.len());
    assert_eq!(stop, Stop::EndOfWrittenRegion, "the buffer simply ran out");
    assert!(!stop.is_torn());
}

#[test]
fn a_zero_length_is_the_end_of_the_written_region() {
    let mut bytes = Record::Entries(vec![entry(1, 1)]).encode();
    let written = bytes.len();
    bytes.extend_from_slice(&[0u8; 512]); // preallocated space

    let (got, end, stop) = collect(&bytes, 0);
    assert_eq!(got.len(), 1);
    assert_eq!(end, written);
    assert_eq!(stop, Stop::EndOfWrittenRegion);
    assert!(!stop.is_torn(), "unused space is not a fault");
}

#[test]
fn a_half_written_header_degrades_either_way_round() {
    let good = Record::Entries(vec![entry(1, 1)]).encode();

    // The length landed, the checksum did not.
    let mut only_len = good.clone();
    only_len[4..8].fill(0);
    assert_eq!(collect(&only_len, 0).2, Stop::BadChecksum);

    // The checksum landed, the length did not.
    let mut only_crc = good.clone();
    only_crc[0..4].fill(0);
    assert_eq!(collect(&only_crc, 0).2, Stop::EndOfWrittenRegion);
}

#[test]
fn slack_at_the_end_of_a_full_segment_is_not_a_tear() {
    // A record is only written if it fits whole, so a segment can end with
    // fewer bytes left than a header needs. Calling that torn would report
    // a crash on every clean shutdown.
    let mut bytes = Record::Entries(vec![entry(1, 1)]).encode();
    let written = bytes.len();
    bytes.extend_from_slice(&[0u8; 3]);

    let (got, end, stop) = collect(&bytes, 0);
    assert_eq!(got.len(), 1);
    assert_eq!(end, written);
    assert!(!stop.is_torn());
}

#[test]
fn a_partial_header_at_the_end_is_a_tear() {
    let mut bytes = Record::Entries(vec![entry(1, 1)]).encode();
    let written = bytes.len();
    bytes.extend_from_slice(&[0x11, 0x22, 0x33]); // a length that never finished

    let (_, end, stop) = collect(&bytes, 0);
    assert_eq!(end, written);
    assert_eq!(stop, Stop::ShortHeader);
    assert!(stop.is_torn());
}

#[test]
fn a_truncated_body_stops_at_the_frame_that_does_not_fit() {
    let first = Record::Entries(vec![entry(1, 1)]).encode();
    let second = Record::Entries(vec![entry(1, 2)]).encode();
    let mut bytes = first.clone();
    bytes.extend_from_slice(&second[..second.len() - 3]);

    let (got, end, stop) = collect(&bytes, 0);
    assert_eq!(got.len(), 1, "the intact prefix survives");
    assert_eq!(end, first.len());
    assert_eq!(stop, Stop::ShortBody);
    assert!(stop.is_torn());
}

#[test]
fn a_flipped_byte_anywhere_in_the_frame_is_caught() {
    let good = Record::Entries(vec![entry(1, 1), entry(1, 2)])
        .encode();
    // Byte 8 is the kind. The checksum covers it, so a flipped kind is a
    // torn frame rather than a different record decoded confidently.
    for i in FRAME_HEADER..good.len() {
        let mut bad = good.clone();
        bad[i] ^= 0xff;
        assert_eq!(
            collect(&bad, 0).2,
            Stop::BadChecksum,
            "a flip at byte {i} went undetected"
        );
    }
}

#[test]
fn an_implausible_length_is_not_trusted() {
    let mut bytes = vec![0u8; 64];
    bytes[0..4].copy_from_slice(&u32::MAX.to_le_bytes());
    assert_eq!(collect(&bytes, 0).2, Stop::ImplausibleLength);
}

#[test]
fn an_unknown_kind_that_checksums_is_an_error_not_a_torn_tail() {
    // The bytes are exactly what was written; guessing what they mean is
    // worse than refusing.
    let mut frame = Vec::new();
    frame.extend_from_slice(&1u32.to_le_bytes());
    frame.extend_from_slice(&0u32.to_le_bytes());
    frame.push(99);
    let crc = crc32c::crc32c(&frame[FRAME_HEADER..]);
    frame[4..8].copy_from_slice(&crc.to_le_bytes());

    let err = scan(&frame, 0, 8 << 20).unwrap_err();
    assert!(matches!(err, Error::UnknownKind(99)), "got {err:?}");
}

/// The checksum in a frame's header is the one the outside world would compute
/// over what follows it.
#[test]
fn the_checksum_is_over_the_kind_and_the_payload() {
    let frame = Record::Truncate { from: 5 }.encode();
    assert_eq!(frame[..4], 2u32.to_le_bytes());
    assert_eq!(frame[4..8], crc32c::crc32c(&[3, 5]).to_le_bytes());
    assert_eq!(frame[8..], [3, 5]);
}

#[test]
fn a_record_whose_payload_is_cut_short_but_checksums_is_an_error() {
    // A truncation that does not say where from.
    let mut frame = 1u32.to_le_bytes().to_vec();
    frame.extend_from_slice(&crc32c::crc32c(&[3]).to_le_bytes());
    frame.push(3);
    assert!(matches!(scan(&frame, 0, 512).unwrap_err(), Error::Codec(_)));
}

#[test]
fn frames_are_read_one_at_a_time() {
    let first = Record::Truncate { from: 5 }.encode();
    let mut bytes = first.clone();
    bytes.extend_from_slice(&Record::Truncate { from: 6 }.encode());
    match read_frame(&bytes, first.len(), 512).unwrap() {
        Frame::Record(record, next) => {
            assert_eq!(record, Record::Truncate { from: 6 });
            assert_eq!(next, bytes.len());
        }
        Frame::Stop(stop) => panic!("{stop:?}"),
    }
    assert_eq!(decode_first(&bytes, 512).unwrap(), (Record::Truncate { from: 5 }, first.len()));
    assert!(decode_first(&bytes[..first.len() - 1], 512).is_none());
}

#[test]
fn the_written_region_ends_after_its_last_byte_that_is_not_zero() {
    assert_eq!(written_end(&[]), 0);
    assert_eq!(written_end(&[0, 0, 0]), 0);
    assert_eq!(written_end(&[0, 7, 0, 0]), 2);
}

#[test]
fn a_segment_says_which_it_is_in_its_name_and_in_its_header() {
    assert_eq!(segment_name(0), "seg-0000000000.log");
    assert_eq!(segment_name(12_345_678_901), "seg-12345678901.log");
    assert_eq!(parse_segment_seq("seg-0000000042.log"), Some(42));
    assert_eq!(parse_segment_seq("seg-42.log.tmp"), None);
    assert_eq!(parse_segment_seq("lock"), None);
    assert_eq!(path_in("data/log", "seg-0000000001.log"), "data/log/seg-0000000001.log");
    let header = SegHeader { magic: MAGIC, version: VERSION, seq: 3, base_index: 12 };
    let frame = Record::SegHeader(header).encode();
    assert_eq!(read_header(&frame, 512), Some((header, frame.len())));
    let other = Record::SegHeader(SegHeader { magic: MAGIC + 1, ..header }).encode();
    assert_eq!(read_header(&other, 512), None);
    let newer = Record::SegHeader(SegHeader { version: VERSION + 1, ..header }).encode();
    assert_eq!(read_header(&newer, 512), None);
    assert_eq!(read_header(&Record::Truncate { from: 1 }.encode(), 512), None);
}
