//! Turning a byte stream back into the messages that were written to it.
//!
//! A four-byte little-endian length, then that many bytes. The only interesting
//! thing about it is the order the reader does things in: **the length is
//! checked against the limit before anything is reserved.** A stream that is
//! corrupt, or hostile, or simply mid-upgrade can present a length of four
//! billion, and a reader that reserves first and validates after has already
//! taken the machine down by the time it notices.

use std::collections::VecDeque;

use vstd::prelude::*;

use crate::le::{from_le32, le32, lemma_from_le32_prefix, lemma_le32_read_back, push_le32};
use crate::net::TransportError;

verus! {

/// Bytes of length prefix in front of every frame.
pub const PREFIX_BYTES: usize = 4;

/// A payload as it stands in a stream: its length, then itself.
pub open spec fn framed(payload: Seq<u8>) -> Seq<u8> {
    le32(payload.len() as u32) + payload
}

/// Encode one frame: a little-endian `u32` length, then the payload.
///
/// Refuses a payload larger than `max` rather than truncating it, because a
/// truncated frame is a frame the peer will decode into something else.
pub fn encode(payload: &[u8], max: usize) -> (r: Result<Vec<u8>, TransportError>)
    requires
        payload@.len() <= u32::MAX || payload@.len() > max,
    ensures
        match r {
            Ok(bytes) => payload@.len() <= max && bytes@ == framed(payload@),
            Err(TransportError::FrameTooLarge { got, limit }) => {
                &&& payload@.len() > max
                &&& got == payload@.len()
                &&& limit == max
            },
            Err(_) => false,
        },
{
    if payload.len() > max {
        return Err(TransportError::FrameTooLarge { got: payload.len(), limit: max });
    }
    let mut out: Vec<u8> = Vec::new();
    push_le32(&mut out, payload.len() as u32);
    out.extend_from_slice(payload);
    proof {
        assert(out@ =~= framed(payload@));
    }
    Ok(out)
}

/// Accumulates bytes off a stream and yields whole frames.
///
/// One of these per connection. It holds only what has arrived and not yet been
/// consumed, which is at most one frame plus a partial one.
#[derive(Debug)]
pub struct Reader {
    buf: VecDeque<u8>,
    max: usize,
}

/// What a [`Reader`] stands for.
pub struct ReaderView {
    /// What has arrived and was not yet taken as part of a frame.
    pub buf: Seq<u8>,
    pub max: usize,
}

impl View for Reader {
    type V = ReaderView;

    closed spec fn view(&self) -> ReaderView {
        ReaderView { buf: self.buf@, max: self.max }
    }
}

/// What stands at the front of a stream.
pub enum Front {
    /// A whole frame.
    Frame(Seq<u8>),
    /// Too little to tell, or too little of a frame.
    NotYet,
    /// A length above the limit.
    TooLarge(nat),
}

impl ReaderView {
    /// What stands at the front of the stream.
    pub open spec fn front(self) -> Front {
        if self.buf.len() < PREFIX_BYTES {
            Front::NotYet
        } else {
            let len = from_le32(self.buf);
            if len > self.max {
                Front::TooLarge(len as nat)
            } else if self.buf.len() < PREFIX_BYTES + len {
                Front::NotYet
            } else {
                Front::Frame(self.buf.subrange(PREFIX_BYTES as int, PREFIX_BYTES + len))
            }
        }
    }

    /// The stream after the frame at its front.
    pub open spec fn rest(self) -> ReaderView {
        match self.front() {
            Front::Frame(frame) => ReaderView {
                buf: self.buf.skip((PREFIX_BYTES + frame.len()) as int),
                ..self
            },
            _ => self,
        }
    }
}

impl Reader {
    /// A reader of frames of at most `max` bytes, which has to fit in the `u32`
    /// length prefix: a limit that silently means something other than what was
    /// asked for is worse than none.
    pub fn new(max: usize) -> (r: Self)
        requires
            max <= u32::MAX,
        ensures
            r@ == (ReaderView { buf: Seq::empty(), max }),
    {
        Reader { buf: VecDeque::new(), max }
    }

    pub fn max_frame_bytes(&self) -> (r: usize)
        ensures
            r == self@.max,
    {
        self.max
    }

    /// Feed bytes that arrived off the stream.
    pub fn push(&mut self, bytes: &[u8])
        ensures
            final(self)@ == (ReaderView { buf: old(self)@.buf + bytes@, ..old(self)@ }),
    {
        let mut i: usize = 0;
        while i < bytes.len()
            invariant
                i <= bytes@.len(),
                self.buf@ == old(self).buf@ + bytes@.take(i as int),
                self.max == old(self).max,
            decreases bytes@.len() - i,
        {
            self.buf.push_back(bytes[i]);
            proof {
                assert(bytes@.take(i + 1) =~= bytes@.take(i as int).push(bytes@[i as int]));
            }
            i += 1;
        }
        proof {
            assert(bytes@.take(bytes@.len() as int) =~= bytes@);
        }
    }

    /// How many bytes are held but not yet part of a whole frame.
    pub fn buffered(&self) -> (r: usize)
        ensures
            r == self@.buf.len(),
    {
        self.buf.len()
    }

    /// Take some bytes off the front.
    fn take(&mut self, count: usize) -> (r: Vec<u8>)
        requires
            count <= old(self)@.buf.len(),
        ensures
            r@ == old(self)@.buf.take(count as int),
            final(self)@ == (ReaderView {
                buf: old(self)@.buf.skip(count as int),
                ..old(self)@
            }),
    {
        let mut r: Vec<u8> = Vec::new();
        proof {
            assert(self@.buf.skip(0) =~= self@.buf);
            assert(r@ =~= self@.buf.take(0));
        }
        while r.len() < count
            invariant
                r@.len() <= count <= old(self)@.buf.len(),
                r@ == old(self)@.buf.take(r@.len() as int),
                self@ == (ReaderView {
                    buf: old(self)@.buf.skip(r@.len() as int),
                    ..old(self)@
                }),
            decreases count - r@.len(),
        {
            let ghost held = self.buf@;
            match self.buf.pop_front() {
                Some(b) => {
                    let ghost before = r@;
                    r.push(b);
                    proof {
                        assert(r@ =~= old(self)@.buf.take((before.len() + 1) as int));
                        assert(self.buf@ =~= old(self)@.buf.skip((before.len() + 1) as int));
                    }
                },
                None => {},
            }
        }
        r
    }

    /// Take the next whole frame, if one has arrived.
    ///
    /// `Ok(None)` means "not yet", not "never": the caller reads more and asks
    /// again. An oversized length is an error the connection does not recover
    /// from, because there is no way to find where the next frame starts; it
    /// consumes nothing.
    pub fn next_frame(&mut self) -> (r: Result<Option<Vec<u8>>, TransportError>)
        ensures
            final(self)@ == old(self)@.rest(),
            match r {
                Ok(Some(frame)) => old(self)@.front() == Front::Frame(frame@),
                Ok(None) => old(self)@.front() is NotYet,
                Err(TransportError::FrameTooLarge { got, limit }) => {
                    &&& old(self)@.front() == Front::TooLarge(got as nat)
                    &&& limit == old(self)@.max
                },
                Err(_) => false,
            },
    {
        if self.buf.len() < PREFIX_BYTES {
            return Ok(None);
        }
        let ghost held = self@.buf;
        let len: u32 = self.buf[0] as u32 + self.buf[1] as u32 * 256 + self.buf[2] as u32 * 65536
            + self.buf[3] as u32 * 16777216;
        proof {
            assert(len == from_le32(held));
        }
        // Before the allocation, not after it.
        if len as u64 > self.max as u64 {
            return Err(TransportError::FrameTooLarge { got: len as usize, limit: self.max });
        }
        if ((self.buf.len() - PREFIX_BYTES) as u64) < len as u64 {
            return Ok(None);
        }
        let _prefix = self.take(PREFIX_BYTES);
        let frame = self.take(len as usize);
        proof {
            assert(held.skip(PREFIX_BYTES as int).take(len as int) =~= held.subrange(
                PREFIX_BYTES as int,
                PREFIX_BYTES + len,
            ));
            assert(held.skip(PREFIX_BYTES as int).skip(len as int) =~= held.skip(
                PREFIX_BYTES + len,
            ));
        }
        Ok(Some(frame))
    }
}

// -------------------------------------------------------------------- laws

/// A frame that was encoded is read back whole, and what follows it in the
/// stream is what is left.
pub proof fn law_a_frame_is_read_back(payload: Seq<u8>, tail: Seq<u8>, max: usize)
    requires
        payload.len() <= max <= u32::MAX,
    ensures
        ({
            let reader = ReaderView { buf: framed(payload) + tail, max };
            &&& reader.front() == Front::Frame(payload)
            &&& reader.rest() == (ReaderView { buf: tail, max })
        }),
{
    let buf = framed(payload) + tail;
    let reader = ReaderView { buf, max };
    lemma_le32_read_back(payload.len() as u32);
    assert(buf =~= le32(payload.len() as u32) + (payload + tail));
    lemma_from_le32_prefix(le32(payload.len() as u32), payload + tail);
    assert(buf.subrange(PREFIX_BYTES as int, PREFIX_BYTES + payload.len()) =~= payload);
    assert(buf.skip((PREFIX_BYTES + payload.len()) as int) =~= tail);
}

/// However a frame is cut up in transit, no part of it short of the whole is
/// ever taken for a frame.
pub proof fn law_part_of_a_frame_is_not_a_frame(payload: Seq<u8>, cut: int, max: usize)
    requires
        payload.len() <= max <= u32::MAX,
        0 <= cut < framed(payload).len(),
    ensures
        (ReaderView { buf: framed(payload).take(cut), max }).front() is NotYet,
{
    let whole = framed(payload);
    let buf = whole.take(cut);
    lemma_le32_read_back(payload.len() as u32);
    lemma_from_le32_prefix(le32(payload.len() as u32), payload);
    if cut >= PREFIX_BYTES {
        assert(buf =~= le32(payload.len() as u32) + payload.take(cut - PREFIX_BYTES));
        lemma_from_le32_prefix(le32(payload.len() as u32), payload.take(cut - PREFIX_BYTES));
    }
}

/// Payloads, framed, one after the other.
pub open spec fn all_framed(payloads: Seq<Seq<u8>>) -> Seq<u8>
    decreases payloads.len(),
{
    if payloads.len() == 0 {
        Seq::empty()
    } else {
        framed(payloads[0]) + all_framed(payloads.skip(1))
    }
}

/// The frames that a reader yields, one after the other, until it yields none.
pub open spec fn yielded(reader: ReaderView) -> (Seq<Seq<u8>>, ReaderView)
    decreases reader.buf.len(),
{
    match reader.front() {
        Front::Frame(frame) => {
            let (others, last) = yielded(reader.rest());
            (seq![frame] + others, last)
        },
        _ => (Seq::empty(), reader),
    }
}

/// What was written to a stream, frame by frame, comes out of it frame by frame,
/// in order, and nothing is left over.
pub proof fn law_frames_keep_their_order(payloads: Seq<Seq<u8>>, max: usize)
    requires
        max <= u32::MAX,
        forall|i: int| 0 <= i < payloads.len() ==> (#[trigger] payloads[i]).len() <= max,
    ensures
        yielded(ReaderView { buf: all_framed(payloads), max }) == (
            payloads,
            ReaderView { buf: Seq::empty(), max },
        ),
    decreases payloads.len(),
{
    let reader = ReaderView { buf: all_framed(payloads), max };
    if payloads.len() == 0 {
        assert(payloads =~= Seq::empty());
    } else {
        let others = payloads.skip(1);
        assert(payloads[0].len() <= max);
        law_a_frame_is_read_back(payloads[0], all_framed(others), max);
        assert forall|i: int| 0 <= i < others.len() implies (#[trigger] others[i]).len() <= max by {
            assert(others[i] == payloads[i + 1]);
        }
        law_frames_keep_their_order(others, max);
        assert(seq![payloads[0]] + others =~= payloads);
    }
}

} // verus!
