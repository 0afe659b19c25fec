//! Every parser Keel points at bytes it did not write, and a harness that points
//! arbitrary bytes back at them.
//!
//! | target | where the bytes come from |
//! |---|---|
//! | [`api_proposal`] | a client's request body |
//! | [`api_response`] | a peer's or a server's reply |
//! | [`net_frames`] | a socket, mid-stream, with no framing guarantee |
//! | [`log_records`] | a disk, after a crash tore a write in half |
//! | [`raft_message`] | a peer, which may be running different code |
//!
//! **A target's contract is that it does not panic.** Returning an error is
//! correct; refusing to decode is correct. Aborting the process is not, because
//! every one of these is reached from a network or a disk. Each target also says
//! what it made of the bytes.

pub mod smoke;

use vstd::prelude::*;

use crate::api::{decode, decoded, Proposal, Request, Response};
use crate::le::{from_le32, lemma_from_le32_prefix};
use crate::log::fs::{Effect, SyncMode};
use crate::log::journal::{opened, Log, LogOptions};
use crate::log::recovery::{file_views, FileView, SegmentFile};
use crate::net::frame::{yielded, Front, Reader, ReaderView, PREFIX_BYTES};
use crate::net::MAX_FRAME_BYTES;
use crate::raft::{Index, Message};

verus! {

/// A client's request body: whether it is a proposal, and whether it is a
/// request.
pub fn api_proposal(data: &[u8]) -> (r: (bool, bool))
    ensures
        r.0 == (decoded::<Proposal>(data@) is Some),
        r.1 == (decoded::<Request>(data@) is Some),
{
    let proposal: bool = match decode::<Proposal>(data) {
        Ok(_) => true,
        Err(_) => false,
    };
    let request: bool = match decode::<Request>(data) {
        Ok(_) => true,
        Err(_) => false,
    };
    (proposal, request)
}

/// A reply, as a client receives it: whether it is one.
pub fn api_response(data: &[u8]) -> (r: bool)
    ensures
        r == (decoded::<Response>(data@) is Some),
{
    match decode::<Response>(data) {
        Ok(_) => true,
        Err(_) => false,
    }
}

/// A message from a peer: whether it is one.
pub fn raft_message(data: &[u8]) -> (r: bool)
    ensures
        r == (decoded::<Message>(data@) is Some),
{
    match decode::<Message>(data) {
        Ok(_) => true,
        Err(_) => false,
    }
}

// -------------------------------------------------------------------- frames

/// A stream with more bytes at its end.
pub open spec fn longer(v: ReaderView, more: Seq<u8>) -> ReaderView {
    ReaderView { buf: v.buf + more, ..v }
}

/// The frames of some bytes fed to a reader in pieces, and the stream after them.
/// A stream that is refused is not fed any further.
pub open spec fn fed(v: ReaderView, s: Seq<u8>, chunk: nat) -> (Seq<Seq<u8>>, ReaderView)
    decreases s.len(),
{
    if s.len() == 0 || chunk == 0 {
        (Seq::empty(), v)
    } else {
        let n = if chunk < s.len() {
            chunk
        } else {
            s.len()
        };
        let (frames, after) = yielded(longer(v, s.take(n as int)));
        if after.front() is TooLarge {
            (frames, after)
        } else {
            let (more, end) = fed(after, s.skip(n as int), chunk);
            (frames + more, end)
        }
    }
}

/// How many bytes at a time the first byte of some data asks for.
pub open spec fn chunk_of(data: Seq<u8>) -> nat {
    if data[0] == 0 {
        1
    } else {
        data[0] as nat
    }
}

/// What a stream of bytes held.
#[derive(Debug)]
pub struct Frames {
    pub frames: Vec<Vec<u8>>,
    /// Whether a length above the limit ended it.
    pub refused: bool,
}

/// What the frames are.
pub open spec fn frame_views(frames: Seq<Vec<u8>>) -> Seq<Seq<u8>> {
    frames.map_values(|f: Vec<u8>| f@)
}

/// Draining a reader ends where nothing whole is left.
proof fn lemma_yielded_end(v: ReaderView)
    ensures
        !(yielded(v).1.front() is Frame),
        yielded(v).1.max == v.max,
    decreases v.buf.len(),
{
    match v.front() {
        Front::Frame(frame) => {
            assert(v.rest().buf.len() < v.buf.len());
            lemma_yielded_end(v.rest());
        },
        _ => {},
    }
}

/// Take every whole frame out of a reader.
fn drain(reader: &mut Reader, frames: &mut Vec<Vec<u8>>) -> (r: bool)
    ensures
        final(reader)@ == yielded(old(reader)@).1,
        frame_views(final(frames)@) == frame_views(old(frames)@) + yielded(old(reader)@).0,
        r == (yielded(old(reader)@).1.front() is TooLarge),
{
    let ghost begin = reader@;
    let ghost held = frame_views(frames@);
    proof {
        assert(frame_views(frames@) + yielded(begin).0 =~= held + yielded(begin).0);
    }
    loop
        invariant
            yielded(reader@).1 == yielded(begin).1,
            frame_views(frames@) + yielded(reader@).0 == held + yielded(begin).0,
            begin == old(reader)@,
            held == frame_views(old(frames)@),
        decreases reader@.buf.len(),
    {
        let ghost before = reader@;
        let ghost so_far = frame_views(frames@);
        match reader.next_frame() {
            Ok(Some(frame)) => {
                proof {
                    assert(before.rest().buf.len() < before.buf.len());
                }
                frames.push(frame);
                proof {
                    assert(frame_views(frames@) =~= so_far.push(frame@));
                    assert(so_far.push(frame@) + yielded(reader@).0 =~= so_far + (seq![frame@]
                        + yielded(reader@).0));
                }
            },
            Ok(None) => {
                proof {
                    assert(so_far + Seq::<Seq<u8>>::empty() =~= so_far);
                }
                return false;
            },
            Err(_) => {
                proof {
                    assert(so_far + Seq::<Seq<u8>>::empty() =~= so_far);
                }
                return true;
            },
        }
    }
}

/// A stream of bytes arriving on a socket.
///
/// Pushed in pieces rather than all at once: the interesting bug in a framing
/// reader is not that it mishandles a bad length, it is that it mishandles a bad
/// length that arrived split across two reads. The first byte chooses the size of
/// a piece.
pub fn net_frames(data: &[u8]) -> (r: Frames)
    ensures
        data@.len() == 0 ==> r.frames@.len() == 0 && !r.refused,
        data@.len() > 0 ==> {
            let reader = ReaderView { buf: Seq::empty(), max: MAX_FRAME_BYTES };
            let (frames, end) = fed(reader, data@.skip(1), chunk_of(data@));
            &&& frame_views(r.frames@) == frames
            &&& r.refused == (end.front() is TooLarge)
        },
{
    let mut frames: Vec<Vec<u8>> = Vec::new();
    if data.len() == 0 {
        return Frames { frames, refused: false };
    }
    let chunk: usize = if data[0] == 0 {
        1
    } else {
        data[0] as usize
    };
    let mut reader = Reader::new(MAX_FRAME_BYTES);
    let ghost begin = reader@;
    let ghost all = fed(begin, data@.skip(1), chunk as nat);
    let mut at: usize = 1;
    let count: usize = data.len();
    proof {
        assert(frame_views(frames@) + all.0 =~= all.0);
    }
    while at < count
        invariant
            1 <= at <= count,
            count == data@.len(),
            chunk > 0,
            chunk == chunk_of(data@),
            begin == (ReaderView { buf: Seq::empty(), max: MAX_FRAME_BYTES }),
            all == fed(begin, data@.skip(1), chunk as nat),
            all.1 == fed(reader@, data@.skip(at as int), chunk as nat).1,
            all.0 == frame_views(frames@) + fed(reader@, data@.skip(at as int), chunk as nat).0,
            !(reader@.front() is TooLarge),
        decreases count - at,
    {
        let left: usize = count - at;
        let n: usize = if chunk < left {
            chunk
        } else {
            left
        };
        let piece: &[u8] = vstd::slice::slice_subrange(data, at, at + n);
        let ghost held = reader@;
        let ghost so_far = frame_views(frames@);
        proof {
            assert(piece@ =~= data@.skip(at as int).take(n as int));
            assert(data@.skip(at as int).skip(n as int) =~= data@.skip(at + n));
        }
        reader.push(piece);
        let refused: bool = drain(&mut reader, &mut frames);
        if refused {
            return Frames { frames, refused: true };
        }
        proof {
            let (got, after) = yielded(longer(held, piece@));
            let (more, end) = fed(after, data@.skip(at + n), chunk as nat);
            assert(so_far + (got + more) =~= so_far + got + more);
        }
        at += n;
    }
    proof {
        assert(data@.skip(at as int).len() == 0);
        assert(frame_views(frames@) + Seq::<Seq<u8>>::empty() =~= frame_views(frames@));
    }
    Frames { frames, refused: false }
}

/// What is at the front of a stream stays there when more arrives.
proof fn lemma_front_stays(v: ReaderView, more: Seq<u8>)
    ensures
        v.front() is Frame ==> longer(v, more).front() == v.front() && longer(v, more).rest()
            == longer(v.rest(), more),
        v.front() is TooLarge ==> longer(v, more).front() == v.front(),
{
    if v.buf.len() >= PREFIX_BYTES {
        lemma_from_le32_prefix(v.buf, more);
        let len = from_le32(v.buf);
        if v.front() is Frame {
            let whole = (v.buf + more).subrange(PREFIX_BYTES as int, PREFIX_BYTES + len);
            assert(whole =~= v.buf.subrange(PREFIX_BYTES as int, PREFIX_BYTES + len));
            assert((v.buf + more).skip(PREFIX_BYTES + len) =~= v.buf.skip(PREFIX_BYTES + len)
                + more);
        }
    }
}

/// Draining before more arrives and then again is draining once.
proof fn lemma_yielded_in_two(v: ReaderView, more: Seq<u8>)
    ensures
        yielded(v).1.front() is TooLarge ==> yielded(longer(v, more)).0 == yielded(v).0 && yielded(
            longer(v, more),
        ).1.front() is TooLarge,
        !(yielded(v).1.front() is TooLarge) ==> {
            let (first, between) = yielded(v);
            let (second, end) = yielded(longer(between, more));
            yielded(longer(v, more)) == (first + second, end)
        },
    decreases v.buf.len(),
{
    lemma_front_stays(v, more);
    match v.front() {
        Front::Frame(frame) => {
            assert(v.rest().buf.len() < v.buf.len());
            assert(longer(v, more).rest().buf.len() < longer(v, more).buf.len());
            lemma_yielded_in_two(v.rest(), more);
            let (first, between) = yielded(v.rest());
            let (second, end) = yielded(longer(between, more));
            assert(seq![frame] + (first + second) =~= seq![frame] + first + second);
        },
        Front::TooLarge(_) => {},
        Front::NotYet => {
            let (second, end) = yielded(longer(v, more));
            assert(Seq::<Seq<u8>>::empty() + second =~= second);
        },
    }
}

/// Pieces of a stream, one after the other.
pub open spec fn joined(pieces: Seq<Seq<u8>>) -> Seq<u8>
    decreases pieces.len(),
{
    if pieces.len() == 0 {
        Seq::empty()
    } else {
        pieces[0] + joined(pieces.skip(1))
    }
}

/// The frames that come out of a reader, and what it is left as, where a stream
/// arrives in these pieces and the reader is drained after each, until it refuses.
pub open spec fn fed_in(v: ReaderView, pieces: Seq<Seq<u8>>) -> (Seq<Seq<u8>>, ReaderView)
    decreases pieces.len(),
{
    if pieces.len() == 0 {
        (Seq::empty(), v)
    } else {
        let (got, after) = yielded(longer(v, pieces[0]));
        if after.front() is TooLarge {
            (got, after)
        } else {
            let (more, end) = fed_in(after, pieces.skip(1));
            (got + more, end)
        }
    }
}

/// Where a stream is cut makes no difference: in whatever pieces the bytes arrive,
/// the frames are those of the whole stream, it is refused where the whole would
/// be, and otherwise the reader is left as the whole leaves it.
pub proof fn law_cutting_a_stream_changes_nothing(v: ReaderView, pieces: Seq<Seq<u8>>)
    requires
        v.front() is NotYet,
    ensures
        ({
            let whole = yielded(longer(v, joined(pieces)));
            let (frames, end) = fed_in(v, pieces);
            &&& frames == whole.0
            &&& end.front() is TooLarge <==> whole.1.front() is TooLarge
            &&& !(end.front() is TooLarge) ==> end == whole.1
        }),
    decreases pieces.len(),
{
    if pieces.len() == 0 {
        assert(longer(v, joined(pieces)).buf =~= v.buf);
    } else {
        let rest = joined(pieces.skip(1));
        let held = longer(v, pieces[0]);
        assert(longer(held, rest).buf =~= longer(v, joined(pieces)).buf);
        lemma_yielded_in_two(held, rest);
        lemma_yielded_end(held);
        let after = yielded(held).1;
        if !(after.front() is TooLarge) {
            law_cutting_a_stream_changes_nothing(after, pieces.skip(1));
        }
    }
}

/// A stream cut into pieces of one size.
pub open spec fn pieces_of(s: Seq<u8>, chunk: nat) -> Seq<Seq<u8>>
    decreases s.len(),
{
    if s.len() == 0 || chunk == 0 {
        Seq::empty()
    } else {
        let n = if chunk < s.len() {
            chunk
        } else {
            s.len()
        };
        seq![s.take(n as int)] + pieces_of(s.skip(n as int), chunk)
    }
}

/// Pieces of one size are pieces like any others: the frames are those of the whole
/// stream, and it is refused where the whole would be.
pub proof fn law_splitting_a_stream_changes_nothing(v: ReaderView, s: Seq<u8>, chunk: nat)
    requires
        chunk > 0,
        v.front() is NotYet,
    ensures
        fed(v, s, chunk) == fed_in(v, pieces_of(s, chunk)),
        fed(v, s, chunk).0 == yielded(longer(v, s)).0,
        fed(v, s, chunk).1.front() is TooLarge <==> yielded(longer(v, s)).1.front() is TooLarge,
{
    lemma_fed_in_pieces(v, s, chunk);
    lemma_pieces_join(s, chunk);
    law_cutting_a_stream_changes_nothing(v, pieces_of(s, chunk));
}

proof fn lemma_pieces_join(s: Seq<u8>, chunk: nat)
    requires
        chunk > 0,
    ensures
        joined(pieces_of(s, chunk)) == s,
    decreases s.len(),
{
    if s.len() == 0 {
        assert(joined(pieces_of(s, chunk)) =~= s);
    } else {
        let n = if chunk < s.len() {
            chunk
        } else {
            s.len()
        };
        let rest = s.skip(n as int);
        lemma_pieces_join(rest, chunk);
        assert(pieces_of(s, chunk).skip(1) =~= pieces_of(rest, chunk));
        assert(s.take(n as int) + rest =~= s);
    }
}

proof fn lemma_fed_in_pieces(v: ReaderView, s: Seq<u8>, chunk: nat)
    requires
        chunk > 0,
    ensures
        fed(v, s, chunk) == fed_in(v, pieces_of(s, chunk)),
    decreases s.len(),
{
    if s.len() > 0 {
        let n = if chunk < s.len() {
            chunk
        } else {
            s.len()
        };
        let rest = s.skip(n as int);
        assert(pieces_of(s, chunk).skip(1) =~= pieces_of(rest, chunk));
        lemma_fed_in_pieces(yielded(longer(v, s.take(n as int))).1, rest, chunk);
    }
}

// ---------------------------------------------------------------------- logs

/// The file a log's first segment is.
pub open spec fn first_segment() -> Seq<char> {
    "seg-0000000000.log"@
}

/// What a small log is opened with.
pub fn small_options() -> (r: LogOptions)
    ensures
        r == small(),
{
    LogOptions {
        segment_bytes: 65_536,
        max_record_bytes: 4_096,
        sync_mode: SyncMode::Off,
        preallocate: false,
    }
}

/// What a small log is opened with.
pub open spec fn small() -> LogOptions {
    LogOptions {
        segment_bytes: 65_536,
        max_record_bytes: 4_096,
        sync_mode: SyncMode::Off,
        preallocate: false,
    }
}

/// The last index a log opened on one segment ends with, if it opens.
pub open spec fn recovered_from(segment: Seq<u8>) -> Option<Index> {
    match opened(
        "log"@,
        seq![FileView { name: first_segment(), bytes: segment }],
        small(),
    ).1 {
        Ok((log, _)) => Some(log.last_index),
        Err(_) => None,
    }
}

/// A log segment, as the recovery parser finds it after a crash: the last index
/// the log ends with, if it opens.
///
/// It is opened as a real log, so this covers the segment header, the record
/// framing, the checksum and the tail scan.
pub fn log_records(data: &[u8]) -> (r: Option<Index>)
    ensures
        r == recovered_from(data@),
{
    let mut files: Vec<SegmentFile> = Vec::new();
    let mut bytes: Vec<u8> = Vec::new();
    bytes.extend_from_slice(data);
    files.push(SegmentFile { name: "seg-0000000000.log".to_owned(), bytes });
    proof {
        assert(bytes@ =~= data@);
        assert(file_views(files@) =~= seq![
            FileView { name: first_segment(), bytes: data@ },
        ]);
    }
    let mut effects: Vec<Effect> = Vec::new();
    match Log::open("log", files, small_options(), &mut effects) {
        Ok((log, _)) => Some(log.last_index()),
        Err(_) => None,
    }
}

// ------------------------------------------------------------------- targets

/// One fuzz target.
#[derive(Debug, Clone, Copy, PartialEq, Eq, Structural)]
pub enum Target {
    ApiProposal,
    ApiResponse,
    NetFrames,
    LogRecords,
    StoreSnapshot,
    RaftMessage,
    CoreEvents,
}

/// What a target is called.
pub open spec fn target_name(target: Target) -> Seq<char> {
    match target {
        Target::ApiProposal => "api_proposal"@,
        Target::ApiResponse => "api_response"@,
        Target::NetFrames => "net_frames"@,
        Target::LogRecords => "log_records"@,
        Target::StoreSnapshot => "store_snapshot"@,
        Target::RaftMessage => "raft_message"@,
        Target::CoreEvents => "core_events"@,
    }
}

impl Target {
    pub fn name(self) -> (r: &'static str)
        ensures
            r@ == target_name(self),
    {
        match self {
            Target::ApiProposal => "api_proposal",
            Target::ApiResponse => "api_response",
            Target::NetFrames => "net_frames",
            Target::LogRecords => "log_records",
            Target::StoreSnapshot => "store_snapshot",
            Target::RaftMessage => "raft_message",
            Target::CoreEvents => "core_events",
        }
    }

    /// Point bytes at a target: whether it made anything of them. Nothing here
    /// reads the state machine's snapshots or the consensus core's events.
    pub fn feed(self, data: &[u8]) -> (r: Option<bool>)
        ensures
            r == (match self {
                Target::ApiProposal => Some(
                    decoded::<Proposal>(data@) is Some || decoded::<Request>(data@) is Some,
                ),
                Target::ApiResponse => Some(decoded::<Response>(data@) is Some),
                Target::NetFrames => Some(
                    data@.len() > 0 && fed(
                        ReaderView { buf: Seq::empty(), max: MAX_FRAME_BYTES },
                        data@.skip(1),
                        chunk_of(data@),
                    ).0.len() > 0,
                ),
                Target::LogRecords => Some(recovered_from(data@) is Some),
                Target::RaftMessage => Some(decoded::<Message>(data@) is Some),
                Target::StoreSnapshot => None,
                Target::CoreEvents => None,
            }),
    {
        match self {
            Target::ApiProposal => {
                let (proposal, request) = api_proposal(data);
                Some(proposal || request)
            },
            Target::ApiResponse => Some(api_response(data)),
            Target::NetFrames => {
                let read: Frames = net_frames(data);
                proof {
                    assert(frame_views(read.frames@).len() == read.frames@.len());
                }
                Some(read.frames.len() > 0)
            },
            Target::LogRecords => Some(log_records(data).is_some()),
            Target::RaftMessage => Some(raft_message(data)),
            Target::StoreSnapshot => None,
            Target::CoreEvents => None,
        }
    }
}

/// Every target.
pub open spec fn every_target() -> Seq<Target> {
    seq![
        Target::ApiProposal,
        Target::ApiResponse,
        Target::NetFrames,
        Target::LogRecords,
        Target::StoreSnapshot,
        Target::RaftMessage,
        Target::CoreEvents,
    ]
}

/// Every target, so that the harnesses cannot drift from each other.
pub fn targets() -> (r: Vec<Target>)
    ensures
        r@ == every_target(),
{
    let mut r: Vec<Target> = Vec::new();
    r.push(Target::ApiProposal);
    r.push(Target::ApiResponse);
    r.push(Target::NetFrames);
    r.push(Target::LogRecords);
    r.push(Target::StoreSnapshot);
    r.push(Target::RaftMessage);
    r.push(Target::CoreEvents);
    proof {
        assert(r@ =~= every_target());
    }
    r
}

/// No target is listed twice.
pub proof fn law_every_target_is_listed_once(target: Target)
    ensures
        every_target().contains(target),
        every_target().no_duplicates(),
{
    let all = every_target();
    let i = match target {
        Target::ApiProposal => 0int,
        Target::ApiResponse => 1,
        Target::NetFrames => 2,
        Target::LogRecords => 3,
        Target::StoreSnapshot => 4,
        Target::RaftMessage => 5,
        Target::CoreEvents => 6,
    };
    assert(all[i] == target);
}

} // verus!
