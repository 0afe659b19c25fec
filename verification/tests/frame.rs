use keel::net::frame::{encode, Reader, PREFIX_BYTES};
use keel::net::TransportError;

const MAX: usize = 1 << 20;

#[test]
fn a_frame_round_trips() {
    let mut reader = Reader::new(MAX);
    reader.push(&encode(b"hello", MAX).unwrap());
    assert_eq!(reader.next_frame().unwrap().unwrap(), b"hello");
    assert!(reader.next_frame().unwrap().is_none());
}

#[test]
fn an_empty_frame_is_a_frame() {
    let mut reader = Reader::new(MAX);
    reader.push(&encode(b"", MAX).unwrap());
    assert_eq!(reader.next_frame().unwrap().unwrap(), b"");
}

/// The property that makes the reader usable on a stream at all: a frame
/// arriving one byte at a time is the same frame.
#[test]
fn a_frame_split_across_arbitrary_reads_is_still_one_frame() {
    let bytes = encode(b"a message of some length", MAX).unwrap();
    for chunk in 1..=bytes.len() {
        let mut reader = Reader::new(MAX);
        let mut got = None;
        for piece in bytes.chunks(chunk) {
            reader.push(piece);
            if let Some(frame) = reader.next_frame().unwrap() {
                assert!(got.is_none(), "one frame yielded twice");
                got = Some(frame);
            }
        }
        assert_eq!(
            got.as_deref(),
            Some(&b"a message of some length"[..]),
            "reading {chunk} bytes at a time lost the frame"
        );
        assert_eq!(reader.buffered(), 0, "bytes left over after one frame");
    }
}

#[test]
fn several_frames_in_one_read_come_back_in_order() {
    let mut stream = Vec::new();
    for i in 0..8u8 {
        stream.extend(encode(&[i; 3], MAX).unwrap());
    }
    let mut reader = Reader::new(MAX);
    reader.push(&stream);
    for i in 0..8u8 {
        assert_eq!(reader.next_frame().unwrap().unwrap(), vec![i; 3]);
    }
    assert!(reader.next_frame().unwrap().is_none());
}

/// A length larger than the limit is refused on the strength of the prefix
/// alone: no payload has arrived, and none is waited for.
#[test]
fn an_oversized_length_is_refused_before_anything_is_reserved() {
    let mut reader = Reader::new(64);
    reader.push(&u32::MAX.to_le_bytes());
    assert!(matches!(
        reader.next_frame(),
        Err(TransportError::FrameTooLarge { got: 4_294_967_295, limit: 64 })
    ));
    assert_eq!(
        reader.buffered(),
        PREFIX_BYTES,
        "the refusal consumed bytes, so a caller could not report where it stopped"
    );
}

#[test]
fn a_payload_at_exactly_the_limit_is_accepted() {
    let mut reader = Reader::new(64);
    let payload = vec![7u8; 64];
    reader.push(&encode(&payload, 64).unwrap());
    assert_eq!(reader.next_frame().unwrap().unwrap(), payload);
}

#[test]
fn encoding_refuses_what_the_reader_would_refuse() {
    assert!(matches!(
        encode(&[0u8; 65], 64),
        Err(TransportError::FrameTooLarge { got: 65, limit: 64 })
    ));
}

#[test]
fn a_frame_is_its_length_and_then_itself() {
    assert_eq!(encode(b"hi", MAX).unwrap(), vec![2, 0, 0, 0, b'h', b'i']);
    assert_eq!(encode(&[9u8; 300], MAX).unwrap()[..5], [44, 1, 0, 0, 9]);
}

/// Wherever a stream is cut, the same frames come out of it.
#[test]
fn a_stream_may_be_cut_anywhere() {
    let frames: [&[u8]; 4] = [b"one", b"", b"a longer frame", b"x"];
    let mut stream = Vec::new();
    for frame in frames {
        stream.extend_from_slice(&encode(frame, MAX).unwrap());
    }
    for first in 0..=stream.len() {
        for second in first..=stream.len() {
            let mut reader = Reader::new(MAX);
            let mut got = Vec::new();
            for piece in [&stream[..first], &stream[first..second], &stream[second..]] {
                reader.push(piece);
                while let Some(frame) = reader.next_frame().unwrap() {
                    got.push(frame);
                }
            }
            assert_eq!(got, frames.map(|f| f.to_vec()).to_vec(), "{first} {second}");
        }
    }
}
