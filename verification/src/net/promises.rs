//! What a link promises, call by call.

use vstd::prelude::*;

use crate::le::{from_le32, le64};
use crate::net::conformance::{judge, Assertion, Said, Violation};
use crate::net::frame::{framed, law_a_frame_is_read_back, Reader, ReaderView};
use crate::net::peers::{law_a_caller_is_known_by_its_name, settle, Caller, Outbound};
use crate::net::{NodeId, Received, TransportError};

verus! {

/// A frame that was written is what is read, and what follows it is left for the
/// next call. A length above the limit is refused, and the stream is left as it was.
pub proof fn law_a_reader_gives_back_what_was_framed(
    payload: Seq<u8>,
    tail: Seq<u8>,
    r: Result<Option<Vec<u8>>, TransportError>,
)
    ensures
        forall|reader: &mut Reader| #[trigger]
            call_ensures(Reader::next_frame, (reader,), r) && reader@.buf == framed(payload) + tail
                && payload.len() <= reader@.max <= u32::MAX ==> {
                &&& r is Ok
                &&& r->Ok_0 is Some
                &&& r->Ok_0->Some_0@ == payload
                &&& final(reader)@.buf == tail
                &&& final(reader)@.max == reader@.max
            },
        forall|reader: &mut Reader| #[trigger]
            call_ensures(Reader::next_frame, (reader,), r) && reader@.buf.len() >= 4 && from_le32(
                reader@.buf,
            ) > reader@.max ==> {
                &&& r matches Err(TransportError::FrameTooLarge { got, limit })
                &&& got == from_le32(reader@.buf)
                &&& limit == reader@.max
                &&& final(reader)@ == reader@
            },
        forall|reader: &mut Reader| #[trigger]
            call_ensures(Reader::next_frame, (reader,), r) && (reader@.buf.len() < 4 || (from_le32(
                reader@.buf,
            ) <= reader@.max && reader@.buf.len() < 4 + from_le32(reader@.buf))) ==> {
                &&& r is Ok
                &&& r->Ok_0 is None
                &&& final(reader)@ == reader@
            },
{
    assert forall|reader: &mut Reader| #[trigger]
        call_ensures(Reader::next_frame, (reader,), r) && reader@.buf == framed(payload) + tail
            && payload.len() <= reader@.max <= u32::MAX implies {
        &&& r is Ok
        &&& r->Ok_0 is Some
        &&& r->Ok_0->Some_0@ == payload
        &&& final(reader)@.buf == tail
        &&& final(reader)@.max == reader@.max
    } by {
        law_a_frame_is_read_back(payload, tail, reader@.max);
        assert(reader@ == (ReaderView { buf: framed(payload) + tail, max: reader@.max }));
    }
}

/// A caller is who its first frame says it is. One whose first frame says nothing, or
/// is larger than a frame may be, is dropped, and so is one that is gone before it
/// said anything; one that is still there is waited for.
pub proof fn law_a_caller_is_who_its_first_frame_says(id: NodeId, tail: Seq<u8>, dead: bool, r: Caller)
    ensures
        forall|reader: &mut Reader| #[trigger]
            call_ensures(settle, (reader, dead), r) && reader@.buf == framed(le64(id)) + tail && 8
                <= reader@.max <= u32::MAX ==> r == Caller::Named(id) && final(reader)@.buf == tail,
        forall|reader: &mut Reader| #[trigger]
            call_ensures(settle, (reader, dead), r) && reader@.buf.len() >= 4 ==> {
                let len = from_le32(reader@.buf);
                &&& len > reader@.max ==> r == Caller::Dropped
                &&& len <= reader@.max && reader@.buf.len() >= 4 + len && len != 8 ==> r
                    == Caller::Dropped
            },
        forall|reader: &mut Reader| #[trigger]
            call_ensures(settle, (reader, dead), r) && (reader@.buf.len() < 4 || (from_le32(
                reader@.buf,
            ) <= reader@.max && reader@.buf.len() < 4 + from_le32(reader@.buf))) ==> {
                &&& r == (if dead {
                    Caller::Dropped
                } else {
                    Caller::Waiting
                })
                &&& final(reader)@ == reader@
            },
{
    assert forall|reader: &mut Reader| #[trigger]
        call_ensures(settle, (reader, dead), r) && reader@.buf == framed(le64(id)) + tail && 8
            <= reader@.max <= u32::MAX implies r == Caller::Named(id) && final(reader)@.buf
        == tail by {
        law_a_frame_is_read_back(le64(id), tail, reader@.max);
        law_a_caller_is_known_by_its_name(id);
        assert(reader@ == (ReaderView { buf: framed(le64(id)) + tail, max: reader@.max }));
    }
}

/// What was queued goes out behind what was queued before it, each frame whole, and
/// what was written is not written again.
pub proof fn law_what_is_queued_goes_out_in_order(
    payload: &[u8],
    max: usize,
    r: Result<(), TransportError>,
    count: usize,
)
    ensures
        forall|out: &mut Outbound, then: &mut Outbound|
            #![trigger call_ensures(Outbound::queue, (out, payload, max), r), call_ensures(Outbound::wrote, (then, count), ())]
            {
                &&& call_ensures(Outbound::queue, (out, payload, max), r)
                &&& *then == *final(out)
                &&& call_ensures(Outbound::wrote, (then, count), ())
                &&& count <= out@.len()
            } ==> {
                &&& r is Ok <==> payload@.len() <= max
                &&& r is Ok ==> final(then)@ == out@.skip(count as int) + framed(payload@)
                &&& r is Err ==> final(then)@ == out@.skip(count as int)
            },
{
    assert forall|out: &mut Outbound, then: &mut Outbound|
        #![trigger call_ensures(Outbound::queue, (out, payload, max), r), call_ensures(Outbound::wrote, (then, count), ())]
        {
            &&& call_ensures(Outbound::queue, (out, payload, max), r)
            &&& *then == *final(out)
            &&& call_ensures(Outbound::wrote, (then, count), ())
            &&& count <= out@.len()
            &&& r is Ok
        } implies final(then)@ == out@.skip(count as int) + framed(payload@) by {
        assert((out@ + framed(payload@)).skip(count as int) =~= out@.skip(count as int) + framed(
            payload@,
        ));
    }
}

/// A transport is found to keep an assertion on a frame where that very frame
/// arrived, and from its sender where that is what is asserted.
pub proof fn law_only_the_frame_itself_is_good_enough(
    assertion: Assertion,
    got: Option<Received>,
    said: &Said,
    sender: NodeId,
    r: Result<(), Violation>,
)
    requires
        call_ensures(judge, (assertion, got, said, sender), r),
    ensures
        r is Ok <==> {
            &&& got is Some
            &&& got->0.frame@ == said.frame@
            &&& assertion is AFrameIsAttributedToTheNodeThatSentIt ==> got->0.from == sender
        },
        got is None ==> r->Err_0 is NeverArrived,
        got is Some && got->0.frame@ != said.frame@ ==> r->Err_0 is Altered,
{
}

} // verus!
