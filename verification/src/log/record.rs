//! The on-disk record framing.
//!
//! ```text
//! off  size     field
//! 0    4        len   u32 LE   = 1 + payload.len()
//! 4    4        crc   u32 LE   = crc32c(bytes[8 .. 8 + len])
//! 8    1        kind  u8
//! 9    len - 1  payload
//! ```
//!
//! The checksum covers the kind byte as well as the payload, so a flipped kind
//! is caught rather than decoded as a different record.
//!
//! **`len == 0` is the end of the written region, and kind `0` is never used.**
//! That one rule is why preallocation and torn-tail detection are the same
//! mechanism instead of two: preallocated space reads as zeros, so a scan stops
//! there without a special case, and a half-written header degrades correctly
//! whichever half landed.

use vstd::prelude::*;

use crate::le::{from_le32, le32, lemma_from_le32_prefix, lemma_le32_read_back, push_le32, read_le32};
use crate::log::error::Error;
use crate::raft::{Entry, EntryView, HardState, Index, SnapshotMeta, SnapshotMetaView};
use crate::wire::{models, Malformed, Wire};

verus! {

/// Bytes in front of a record's kind: its length and its checksum.
pub const FRAME_HEADER: usize = 8;

/// `"KELG"`, so a file of plausible-looking garbage is not mistaken for a
/// segment.
pub const MAGIC: u32 = 0x4b45_4c47;

pub const VERSION: u16 = 1;

pub const KIND_ENTRIES: u8 = 1;

pub const KIND_HARD_STATE: u8 = 2;

pub const KIND_TRUNCATE: u8 = 3;

pub const KIND_SNAPSHOT: u8 = 4;

pub const KIND_SEG_HEADER: u8 = 5;

/// First record of every segment.
#[derive(Debug, Clone, Copy, PartialEq, Eq, Structural)]
pub struct SegHeader {
    pub magic: u32,
    pub version: u16,
    /// Segment sequence number, matching the filename.
    pub seq: u64,
    /// The log's `last_index + 1` when this segment was created, so recovery can
    /// tell which segments a snapshot has covered without reading them.
    pub base_index: Index,
}

impl Wire for SegHeader {
    type Model = SegHeader;

    open spec fn model(&self) -> SegHeader {
        *self
    }

    open spec fn fits(m: SegHeader) -> bool {
        u32::fits(m.magic) && u16::fits(m.version) && u64::fits(m.seq) && Index::fits(m.base_index)
    }

    open spec fn encoding(m: SegHeader) -> Seq<u8> {
        <(u32, (u16, (u64, Index))) as Wire>::encoding((m.magic, (m.version, (m.seq, m.base_index))))
    }

    open spec fn parse(s: Seq<u8>) -> Option<(SegHeader, Seq<u8>)> {
        match <(u32, (u16, (u64, Index))) as Wire>::parse(s) {
            Some(((magic, (version, (seq, base_index))), rest)) => Some((SegHeader { magic, version, seq, base_index }, rest)),
            None => None,
        }
    }

    proof fn lemma_read_back(m: SegHeader, tail: Seq<u8>) {
        <(u32, (u16, (u64, Index))) as Wire>::lemma_read_back((m.magic, (m.version, (m.seq, m.base_index))), tail);
    }

    proof fn lemma_extends(s: Seq<u8>, tail: Seq<u8>) {
        <(u32, (u16, (u64, Index))) as Wire>::lemma_extends(s, tail);
    }

    fn put(&self, out: &mut Vec<u8>) {
        self.magic.put(out);
        self.version.put(out);
        self.seq.put(out);
        self.base_index.put(out);
        proof {
            assert(out@ =~= old(out)@ + Self::encoding(self.model()));
        }
    }

    fn take(bytes: &[u8], pos: usize) -> (r: Result<(SegHeader, usize), Malformed>) {
        match <(u32, (u16, (u64, Index))) as Wire>::take(bytes, pos) {
            Ok(((magic, (version, (seq, base_index))), next)) => Ok((SegHeader { magic, version, seq, base_index }, next)),
            Err(e) => Err(e),
        }
    }

    fn duplicate(&self) -> (r: SegHeader) {
        *self
    }
}

/// One thing the log remembers.
#[derive(Debug, PartialEq, Eq)]
pub enum Record {
    Entries(Vec<Entry>),
    HardState(HardState),
    /// Drop every entry at or above `from`. Emitted explicitly rather than
    /// inferred from an overlapping `Entries` record, so that recovery can
    /// enforce the stronger rule: an `Entries` record must continue the log
    /// exactly.
    Truncate { from: Index },
    Snapshot(SnapshotMeta),
    SegHeader(SegHeader),
}

/// What a [`Record`] stands for.
pub enum RecordView {
    Entries(Seq<EntryView>),
    HardState(HardState),
    Truncate { from: Index },
    Snapshot(SnapshotMetaView),
    SegHeader(SegHeader),
}

impl View for Record {
    type V = RecordView;

    open spec fn view(&self) -> RecordView {
        match self {
            Record::Entries(entries) => RecordView::Entries(models(entries@)),
            Record::HardState(hs) => RecordView::HardState(*hs),
            Record::Truncate { from } => RecordView::Truncate { from: *from },
            Record::Snapshot(meta) => RecordView::Snapshot(meta@),
            Record::SegHeader(header) => RecordView::SegHeader(*header),
        }
    }
}

impl RecordView {
    /// The byte that says which record this is.
    pub open spec fn kind(self) -> u8 {
        match self {
            RecordView::Entries(_) => KIND_ENTRIES,
            RecordView::HardState(_) => KIND_HARD_STATE,
            RecordView::Truncate { .. } => KIND_TRUNCATE,
            RecordView::Snapshot(_) => KIND_SNAPSHOT,
            RecordView::SegHeader(_) => KIND_SEG_HEADER,
        }
    }

    /// What the record says, encoded.
    pub open spec fn payload(self) -> Seq<u8> {
        match self {
            RecordView::Entries(entries) => <Vec<Entry> as Wire>::encoding(entries),
            RecordView::HardState(hs) => HardState::encoding(hs),
            RecordView::Truncate { from } => u64::encoding(from),
            RecordView::Snapshot(meta) => SnapshotMeta::encoding(meta),
            RecordView::SegHeader(header) => SegHeader::encoding(header),
        }
    }

    /// Whether some record stands for this.
    pub open spec fn fits(self) -> bool {
        match self {
            RecordView::Entries(entries) => <Vec<Entry> as Wire>::fits(entries),
            RecordView::Snapshot(meta) => SnapshotMeta::fits(meta),
            _ => true,
        }
    }

    /// What the checksum covers.
    pub open spec fn body(self) -> Seq<u8> {
        seq![self.kind()] + self.payload()
    }

    /// The complete frame, header included.
    pub open spec fn frame(self) -> Seq<u8> {
        le32(self.body().len() as u32) + le32(crc32c_of(self.body())) + self.body()
    }
}

/// What a kind and a payload are read as.
pub open spec fn parse_record(kind: u8, payload: Seq<u8>) -> Option<RecordView> {
    if kind == KIND_ENTRIES {
        match <Vec<Entry> as Wire>::parse(payload) {
            Some((entries, _)) => Some(RecordView::Entries(entries)),
            None => None,
        }
    } else if kind == KIND_HARD_STATE {
        match HardState::parse(payload) {
            Some((hs, _)) => Some(RecordView::HardState(hs)),
            None => None,
        }
    } else if kind == KIND_TRUNCATE {
        match u64::parse(payload) {
            Some((from, _)) => Some(RecordView::Truncate { from }),
            None => None,
        }
    } else if kind == KIND_SNAPSHOT {
        match SnapshotMeta::parse(payload) {
            Some((meta, _)) => Some(RecordView::Snapshot(meta)),
            None => None,
        }
    } else if kind == KIND_SEG_HEADER {
        match SegHeader::parse(payload) {
            Some((header, _)) => Some(RecordView::SegHeader(header)),
            None => None,
        }
    } else {
        None
    }
}

/// Whether a kind means something.
pub open spec fn known_kind(kind: u8) -> bool {
    KIND_ENTRIES <= kind <= KIND_SEG_HEADER
}

/// What was encoded is read back.
pub proof fn lemma_record_read_back(r: RecordView)
    requires
        r.fits(),
    ensures
        known_kind(r.kind()),
        parse_record(r.kind(), r.payload()) == Some(r),
{
    let none = Seq::<u8>::empty();
    assert(r.payload() + none =~= r.payload());
    match r {
        RecordView::Entries(entries) => {
            <Vec<Entry> as Wire>::lemma_read_back(entries, none);
        },
        RecordView::HardState(hs) => {
            HardState::lemma_read_back(hs, none);
        },
        RecordView::Truncate { from } => {
            u64::lemma_read_back(from, none);
        },
        RecordView::Snapshot(meta) => {
            SnapshotMeta::lemma_read_back(meta, none);
        },
        RecordView::SegHeader(header) => {
            SegHeader::lemma_read_back(header, none);
        },
    }
}

/// What `crc32c::crc32c` computes: the CRC-32C of some bytes.
pub uninterp spec fn crc32c_of(bytes: Seq<u8>) -> u32;

/// `crc32c::crc32c`: the CRC-32C of the bytes, which is a function of the bytes
/// alone.
#[verifier::external_body]
pub(crate) fn checksum(bytes: &[u8]) -> (r: u32)
    ensures
        r == crc32c_of(bytes@),
{
    crc32c::crc32c(bytes)
}

impl Record {
    pub fn kind(&self) -> (r: u8)
        ensures
            r == self@.kind(),
    {
        match self {
            Record::Entries(_) => KIND_ENTRIES,
            Record::HardState(_) => KIND_HARD_STATE,
            Record::Truncate { .. } => KIND_TRUNCATE,
            Record::Snapshot(_) => KIND_SNAPSHOT,
            Record::SegHeader(_) => KIND_SEG_HEADER,
        }
    }

    fn put_payload(&self, out: &mut Vec<u8>)
        ensures
            final(out)@ == old(out)@ + self@.payload(),
            self@.fits(),
    {
        match self {
            Record::Entries(entries) => entries.put(out),
            Record::HardState(hs) => hs.put(out),
            Record::Truncate { from } => from.put(out),
            Record::Snapshot(meta) => meta.put(out),
            Record::SegHeader(header) => header.put(out),
        }
    }

    /// What the record says, encoded.
    pub fn payload(&self) -> (r: Vec<u8>)
        ensures
            r@ == self@.payload(),
            self@.fits(),
    {
        let mut out: Vec<u8> = Vec::new();
        self.put_payload(&mut out);
        proof {
            assert(out@ =~= self@.payload());
        }
        out
    }

    /// The complete frame, header included.
    pub fn encode(&self) -> (r: Vec<u8>)
        ensures
            r@ == self@.frame(),
            self@.fits(),
    {
        let mut body: Vec<u8> = Vec::new();
        body.push(self.kind());
        self.put_payload(&mut body);
        proof {
            assert(body@ =~= self@.body());
        }
        let mut out: Vec<u8> = Vec::new();
        push_le32(&mut out, body.len() as u32);
        push_le32(&mut out, checksum(body.as_slice()));
        out.append(&mut body);
        proof {
            assert(out@ =~= self@.frame());
        }
        out
    }

    /// Read a record of a kind from its payload.
    pub fn decode(kind: u8, payload: &[u8]) -> (r: Result<Record, Error>)
        ensures
            match r {
                Ok(record) => parse_record(kind, payload@) == Some(record@),
                Err(Error::UnknownKind(k)) => k == kind && !known_kind(kind),
                Err(Error::Codec(_)) => known_kind(kind) && parse_record(kind, payload@) is None,
                Err(_) => false,
            },
    {
        proof {
            assert(payload@.skip(0) =~= payload@);
        }
        if kind == KIND_ENTRIES {
            match <Vec<Entry> as Wire>::take(payload, 0) {
                Ok((entries, _)) => Ok(Record::Entries(entries)),
                Err(e) => Err(Error::Codec(e)),
            }
        } else if kind == KIND_HARD_STATE {
            match HardState::take(payload, 0) {
                Ok((hs, _)) => Ok(Record::HardState(hs)),
                Err(e) => Err(Error::Codec(e)),
            }
        } else if kind == KIND_TRUNCATE {
            match u64::take(payload, 0) {
                Ok((from, _)) => Ok(Record::Truncate { from }),
                Err(e) => Err(Error::Codec(e)),
            }
        } else if kind == KIND_SNAPSHOT {
            match SnapshotMeta::take(payload, 0) {
                Ok((meta, _)) => Ok(Record::Snapshot(meta)),
                Err(e) => Err(Error::Codec(e)),
            }
        } else if kind == KIND_SEG_HEADER {
            match SegHeader::take(payload, 0) {
                Ok((header, _)) => Ok(Record::SegHeader(header)),
                Err(e) => Err(Error::Codec(e)),
            }
        } else {
            Err(Error::UnknownKind(kind))
        }
    }
}

/// Why a scan stopped before the end of a segment.
#[derive(Debug, Clone, Copy, PartialEq, Eq, Structural)]
pub enum Stop {
    /// A zero length: the end of what was ever written. Not a fault.
    EndOfWrittenRegion,
    /// A header that does not fit in the file.
    ShortHeader,
    /// A length that runs past the end of the file.
    ShortBody,
    /// A length larger than any record this log will write.
    ImplausibleLength,
    /// The bytes are there and the checksum says they are not what was written.
    BadChecksum,
}

impl Stop {
    /// Whether something was lost here.
    pub fn is_torn(self) -> (r: bool)
        ensures
            r == (self != Stop::EndOfWrittenRegion),
    {
        !matches!(self, Stop::EndOfWrittenRegion)
    }

    /// The stop's name.
    pub open spec fn name(self) -> Seq<char> {
        match self {
            Stop::EndOfWrittenRegion => "EndOfWrittenRegion"@,
            Stop::ShortHeader => "ShortHeader"@,
            Stop::ShortBody => "ShortBody"@,
            Stop::ImplausibleLength => "ImplausibleLength"@,
            Stop::BadChecksum => "BadChecksum"@,
        }
    }

    /// The stop's name, for a report.
    pub fn describe(self) -> (r: &'static str)
        ensures
            r@ == self.name(),
    {
        match self {
            Stop::EndOfWrittenRegion => "EndOfWrittenRegion",
            Stop::ShortHeader => "ShortHeader",
            Stop::ShortBody => "ShortBody",
            Stop::ImplausibleLength => "ImplausibleLength",
            Stop::BadChecksum => "BadChecksum",
        }
    }
}

/// Whether every byte is zero.
pub open spec fn all_zero(s: Seq<u8>) -> bool {
    forall|i: int| 0 <= i < s.len() ==> s[i] == 0
}

/// Whether every byte is zero.
fn is_all_zero(bytes: &[u8]) -> (r: bool)
    ensures
        r == all_zero(bytes@),
{
    let mut i: usize = 0;
    while i < bytes.len()
        invariant
            i <= bytes@.len(),
            forall|j: int| 0 <= j < i ==> bytes@[j] == 0,
        decreases bytes@.len() - i,
    {
        if bytes[i] != 0 {
            return false;
        }
        i += 1;
    }
    true
}

/// What stands at one position of a segment.
pub enum Step {
    /// A record, and where the next one starts.
    Record(RecordView, int),
    Stop(Stop),
    /// Bytes that are exactly what was written and mean nothing.
    UnknownKind(u8),
    Malformed,
}

/// What stands at one position of a segment.
///
/// A decode failure after the checksum matched is not a torn tail: the bytes
/// are exactly what was written, so either the writer or the format is wrong.
pub open spec fn step(bytes: Seq<u8>, pos: int, max_record_bytes: u32) -> Step {
    let rest = bytes.skip(pos);
    if rest.len() < FRAME_HEADER {
        if all_zero(rest) {
            Step::Stop(Stop::EndOfWrittenRegion)
        } else {
            Step::Stop(Stop::ShortHeader)
        }
    } else {
        let len = from_le32(rest);
        if len == 0 {
            Step::Stop(Stop::EndOfWrittenRegion)
        } else if len > max_record_bytes {
            Step::Stop(Stop::ImplausibleLength)
        } else if FRAME_HEADER + len > rest.len() {
            Step::Stop(Stop::ShortBody)
        } else {
            let body = rest.subrange(FRAME_HEADER as int, FRAME_HEADER + len);
            if crc32c_of(body) != from_le32(rest.skip(4)) {
                Step::Stop(Stop::BadChecksum)
            } else if !known_kind(body[0]) {
                Step::UnknownKind(body[0])
            } else {
                match parse_record(body[0], body.skip(1)) {
                    Some(record) => Step::Record(record, pos + FRAME_HEADER + len),
                    None => Step::Malformed,
                }
            }
        }
    }
}

/// How a scan ended.
pub enum Outcome {
    Stopped(Stop),
    UnknownKind(u8),
    Malformed,
}

/// The records of a segment from a position on, where the scan ended, and how.
pub open spec fn scanned(bytes: Seq<u8>, pos: int, max_record_bytes: u32) -> (
    Seq<RecordView>,
    int,
    Outcome,
)
    decreases bytes.len() - pos,
{
    match step(bytes, pos, max_record_bytes) {
        Step::Record(record, end) => if pos < end <= bytes.len() {
            let (records, last, outcome) = scanned(bytes, end, max_record_bytes);
            (seq![record] + records, last, outcome)
        } else {
            (Seq::empty(), pos, Outcome::Malformed)
        },
        Step::Stop(stop) => (Seq::empty(), pos, Outcome::Stopped(stop)),
        Step::UnknownKind(kind) => (Seq::empty(), pos, Outcome::UnknownKind(kind)),
        Step::Malformed => (Seq::empty(), pos, Outcome::Malformed),
    }
}

/// What stands at one position of a segment, read.
pub enum Frame {
    Record(Record, usize),
    Stop(Stop),
}

/// Read what stands at one position of a segment.
pub fn read_frame(bytes: &[u8], pos: usize, max_record_bytes: u32) -> (r: Result<Frame, Error>)
    requires
        pos <= bytes@.len(),
    ensures
        match r {
            Ok(Frame::Record(record, end)) => {
                &&& step(bytes@, pos as int, max_record_bytes) == Step::Record(record@, end as int)
                &&& pos < end <= bytes@.len()
            },
            Ok(Frame::Stop(stop)) => step(bytes@, pos as int, max_record_bytes) == Step::Stop(stop),
            Err(Error::UnknownKind(kind)) => step(bytes@, pos as int, max_record_bytes)
                == Step::UnknownKind(kind),
            Err(Error::Codec(_)) => step(bytes@, pos as int, max_record_bytes) == Step::Malformed,
            Err(_) => false,
        },
{
    let left: usize = bytes.len() - pos;
    let ghost rest = bytes@.skip(pos as int);
    if left < FRAME_HEADER {
        // Too little room left for a header. That is a clean end when what
        // remains is zeros: a full segment leaves a few slack bytes by design,
        // since a record is only written if it fits whole. Non-zero bytes there
        // are the head of a record that never finished.
        let slack = vstd::slice::slice_subrange(bytes, pos, bytes.len());
        proof {
            assert(slack@ =~= rest);
        }
        if !is_all_zero(slack) {
            return Ok(Frame::Stop(Stop::ShortHeader));
        }
        return Ok(Frame::Stop(Stop::EndOfWrittenRegion));
    }
    let len: u32 = read_le32(bytes, pos);
    if len == 0 {
        return Ok(Frame::Stop(Stop::EndOfWrittenRegion));
    }
    if len > max_record_bytes {
        return Ok(Frame::Stop(Stop::ImplausibleLength));
    }
    let crc: u32 = read_le32(bytes, pos + 4);
    proof {
        assert(rest.skip(4) =~= bytes@.skip(pos + 4));
    }
    if len as u64 > (left - FRAME_HEADER) as u64 {
        return Ok(Frame::Stop(Stop::ShortBody));
    }
    let start: usize = pos + FRAME_HEADER;
    let end: usize = start + len as usize;
    let body = vstd::slice::slice_subrange(bytes, start, end);
    proof {
        assert(body@ =~= rest.subrange(FRAME_HEADER as int, FRAME_HEADER + len));
    }
    if checksum(body) != crc {
        return Ok(Frame::Stop(Stop::BadChecksum));
    }
    let payload = vstd::slice::slice_subrange(body, 1, body.len());
    proof {
        assert(payload@ =~= body@.skip(1));
    }
    match Record::decode(body[0], payload) {
        Ok(record) => Ok(Frame::Record(record, end)),
        Err(e) => Err(e),
    }
}

/// What the views of some records are.
pub open spec fn record_views(records: Seq<Record>) -> Seq<RecordView> {
    records.map_values(|r: Record| r@)
}

/// Walk frames from `pos`. Returns every intact record, where the walk stopped
/// and why.
pub fn scan(bytes: &[u8], pos: usize, max_record_bytes: u32) -> (r: Result<
    (Vec<Record>, usize, Stop),
    Error,
>)
    requires
        pos <= bytes@.len(),
    ensures
        match r {
            Ok((records, end, stop)) => scanned(bytes@, pos as int, max_record_bytes) == (
                record_views(records@),
                end as int,
                Outcome::Stopped(stop),
            ),
            Err(Error::UnknownKind(kind)) => scanned(bytes@, pos as int, max_record_bytes).2
                == Outcome::UnknownKind(kind),
            Err(Error::Codec(_)) => scanned(bytes@, pos as int, max_record_bytes).2
                == Outcome::Malformed,
            Err(_) => false,
        },
{
    let mut records: Vec<Record> = Vec::new();
    let mut at: usize = pos;
    proof {
        let all = scanned(bytes@, pos as int, max_record_bytes);
        assert(record_views(records@) + all.0 =~= all.0);
    }
    loop
        invariant
            pos <= at <= bytes@.len(),
            scanned(bytes@, pos as int, max_record_bytes) == ({
                let from = scanned(bytes@, at as int, max_record_bytes);
                (record_views(records@) + from.0, from.1, from.2)
            }),
        decreases bytes@.len() - at,
    {
        match read_frame(bytes, at, max_record_bytes) {
            Ok(Frame::Record(record, end)) => {
                let ghost before = records@;
                records.push(record);
                proof {
                    let from = scanned(bytes@, end as int, max_record_bytes);
                    assert(record_views(before) + (seq![record@] + from.0) =~= record_views(
                        records@,
                    ) + from.0);
                }
                at = end;
            },
            Ok(Frame::Stop(stop)) => {
                proof {
                    assert(record_views(records@) + Seq::empty() =~= record_views(records@));
                }
                return Ok((records, at, stop));
            },
            Err(e) => {
                return Err(e);
            },
        }
    }
}

/// Decode just the first frame, for reading a segment header without
/// interpreting the rest of the file.
pub fn decode_first(bytes: &[u8], max_record_bytes: u32) -> (r: Option<(Record, usize)>)
    ensures
        match r {
            Some((record, end)) => step(bytes@, 0, max_record_bytes) == Step::Record(
                record@,
                end as int,
            ),
            None => !(step(bytes@, 0, max_record_bytes) is Record),
        },
{
    match read_frame(bytes, 0, max_record_bytes) {
        Ok(Frame::Record(record, end)) => Some((record, end)),
        _ => None,
    }
}

/// The offset just past the last byte that is not zero.
pub open spec fn written_len(bytes: Seq<u8>) -> nat
    decreases bytes.len(),
{
    if bytes.len() == 0 || bytes.last() != 0 {
        bytes.len()
    } else {
        written_len(bytes.drop_last())
    }
}

/// Everything from the end of what was written on is zero, and the byte before
/// it is not.
pub proof fn lemma_written_len(bytes: Seq<u8>)
    ensures
        written_len(bytes) <= bytes.len(),
        written_len(bytes) > 0 ==> bytes[written_len(bytes) - 1] != 0,
        forall|i: int| written_len(bytes) <= i < bytes.len() ==> bytes[i] == 0,
    decreases bytes.len(),
{
    if bytes.len() > 0 && bytes.last() == 0 {
        lemma_written_len(bytes.drop_last());
        assert(forall|i: int| 0 <= i < bytes.len() - 1 ==> bytes[i] == bytes.drop_last()[i]);
    }
}

/// The offset just past the last byte that was ever written.
///
/// Everything at or after it is zero, so it bounds both how much a torn tail
/// discarded and how much has to be erased before writing over it.
pub fn written_end(bytes: &[u8]) -> (end: usize)
    ensures
        end == written_len(bytes@),
        end <= bytes@.len(),
        end > 0 ==> bytes@[end - 1] != 0,
        all_zero(bytes@.skip(end as int)),
{
    let mut end: usize = bytes.len();
    proof {
        assert(bytes@.take(end as int) =~= bytes@);
    }
    while end > 0 && bytes[end - 1] == 0
        invariant
            end <= bytes@.len(),
            written_len(bytes@) == written_len(bytes@.take(end as int)),
            forall|i: int| end <= i < bytes@.len() ==> bytes@[i] == 0,
        decreases end,
    {
        proof {
            assert(bytes@.take(end as int).drop_last() =~= bytes@.take(end - 1));
        }
        end -= 1;
    }
    end
}

// -------------------------------------------------------------------- laws

/// Records, framed, one after the other.
pub open spec fn frames(records: Seq<RecordView>) -> Seq<u8>
    decreases records.len(),
{
    if records.len() == 0 {
        Seq::empty()
    } else {
        records[0].frame() + frames(records.skip(1))
    }
}

/// `n` zero bytes, as preallocated space reads.
pub open spec fn zeros(n: nat) -> Seq<u8> {
    Seq::new(n, |i: int| 0u8)
}

/// Whether a record can be written: some value stands for it, and its length is
/// one a scan believes.
pub open spec fn writable(r: RecordView, max_record_bytes: u32) -> bool {
    r.fits() && r.body().len() <= max_record_bytes
}

/// A frame that was written is read back as the record it was written from.
pub proof fn lemma_step_reads_frame(pre: Seq<u8>, r: RecordView, tail: Seq<u8>, max: u32)
    requires
        writable(r, max),
    ensures
        step(pre + r.frame() + tail, pre.len() as int, max) == Step::Record(
            r,
            (pre.len() + r.frame().len()) as int,
        ),
        r.frame().len() == FRAME_HEADER + r.body().len(),
{
    let bytes = pre + r.frame() + tail;
    let rest = bytes.skip(pre.len() as int);
    assert(rest =~= r.frame() + tail);
    let body = r.body();
    let len = le32(body.len() as u32);
    let crc = le32(crc32c_of(body));
    lemma_le32_read_back(body.len() as u32);
    lemma_le32_read_back(crc32c_of(body));
    assert(rest =~= len + (crc + body + tail));
    lemma_from_le32_prefix(len, crc + body + tail);
    assert(rest.skip(4) =~= crc + (body + tail));
    lemma_from_le32_prefix(crc, body + tail);
    assert(rest.subrange(FRAME_HEADER as int, FRAME_HEADER + body.len()) =~= body);
    assert(body[0] == r.kind());
    assert(body.skip(1) =~= r.payload());
    lemma_record_read_back(r);
}

/// Unused space is the end of the written region.
pub proof fn lemma_step_stops_at_zeros(pre: Seq<u8>, n: nat, max: u32)
    ensures
        step(pre + zeros(n), pre.len() as int, max) == Step::Stop(Stop::EndOfWrittenRegion),
{
    let rest = (pre + zeros(n)).skip(pre.len() as int);
    assert(rest =~= zeros(n));
    assert(all_zero(rest));
}

/// A scan reads back the records that were written, and goes on from where they
/// end.
#[verifier::spinoff_prover]
#[verifier::rlimit(40)]
pub proof fn lemma_scan_reads_frames(
    pre: Seq<u8>,
    records: Seq<RecordView>,
    tail: Seq<u8>,
    max: u32,
)
    requires
        forall|i: int| 0 <= i < records.len() ==> writable(#[trigger] records[i], max),
    ensures
        ({
            let bytes = pre + frames(records) + tail;
            let from = scanned(bytes, (pre.len() + frames(records).len()) as int, max);
            scanned(bytes, pre.len() as int, max) == (records + from.0, from.1, from.2)
        }),
    decreases records.len(),
{
    let bytes = pre + frames(records) + tail;
    if records.len() == 0 {
        let from = scanned(bytes, pre.len() as int, max);
        assert(records + from.0 =~= from.0);
    } else {
        let first = records[0];
        let others = records.skip(1);
        assert(writable(first, max));
        let after = pre + first.frame();
        assert(bytes =~= pre + first.frame() + (frames(others) + tail));
        lemma_step_reads_frame(pre, first, frames(others) + tail, max);
        assert(bytes =~= after + frames(others) + tail);
        assert forall|i: int| 0 <= i < others.len() implies writable(#[trigger] others[i], max) by {
            assert(others[i] == records[i + 1]);
        }
        lemma_scan_reads_frames(after, others, tail, max);
        let from = scanned(bytes, (pre.len() + frames(records).len()) as int, max);
        assert(after.len() + frames(others).len() == pre.len() + frames(records).len());
        assert(seq![first] + (others + from.0) =~= records + from.0);
    }
}

/// The records that were written to a segment are the records that a scan of it
/// finds, in order, whatever unused space follows them, and the scan calls that
/// a clean end.
pub proof fn law_written_records_scan_back(
    pre: Seq<u8>,
    records: Seq<RecordView>,
    unused: nat,
    max: u32,
)
    requires
        forall|i: int| 0 <= i < records.len() ==> writable(#[trigger] records[i], max),
    ensures
        scanned(pre + frames(records) + zeros(unused), pre.len() as int, max) == (
            records,
            (pre.len() + frames(records).len()) as int,
            Outcome::Stopped(Stop::EndOfWrittenRegion),
        ),
{
    lemma_scan_reads_frames(pre, records, zeros(unused), max);
    lemma_step_stops_at_zeros(pre + frames(records), unused, max);
    assert(records + Seq::empty() =~= records);
}

/// A record whose stored checksum is not the checksum of its body is never read
/// as a record.
pub proof fn law_a_wrong_checksum_is_never_read(bytes: Seq<u8>, pos: int, max: u32)
    requires
        0 <= pos,
        pos + FRAME_HEADER <= bytes.len(),
        ({
            let rest = bytes.skip(pos);
            let len = from_le32(rest);
            &&& FRAME_HEADER + len <= rest.len()
            &&& crc32c_of(rest.subrange(FRAME_HEADER as int, FRAME_HEADER + len)) != from_le32(
                rest.skip(4),
            )
        }),
    ensures
        step(bytes, pos, max) is Stop,
        scanned(bytes, pos, max).0.len() == 0,
        scanned(bytes, pos, max).1 == pos,
{
}

/// Frames of a longer sequence of records.
pub proof fn lemma_frames_concat(a: Seq<RecordView>, b: Seq<RecordView>)
    ensures
        frames(a + b) == frames(a) + frames(b),
    decreases a.len(),
{
    if a.len() == 0 {
        assert(a + b =~= b);
        assert(frames(a) + frames(b) =~= frames(b));
    } else {
        assert((a + b).skip(1) =~= a.skip(1) + b);
        lemma_frames_concat(a.skip(1), b);
        assert(frames(a + b) =~= frames(a) + frames(b));
    }
}

} // verus!
