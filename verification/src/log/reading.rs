//! What reading a segment promises.
//!
//! A segment is read up to where its bytes stop making sense, and why they do is
//! what tells a crash from damage.

use vstd::prelude::*;

use crate::le::from_le32;
use crate::log::error::Error;
use crate::log::fs::{performed, Disk, EffectView};
use crate::log::record::{crc32c_of, read_frame, Frame, SegHeader, Stop};
use crate::log::recovery::{
    discover, file_views, found_views, headed, header_end, numbered, FileView, Segment,
    SegmentFile,
};
use crate::log::segment::{header_of, read_header};

verus! {

/// A record is read only where the whole of it is there and its checksum agrees, and
/// it is as long as it says. What stands in the way otherwise is told apart: nothing
/// was ever written there, less than a header or less than the record was, it claims
/// to be longer than any record, or its bytes are not the ones that were written.
pub proof fn law_a_record_is_read_only_whole(
    bytes: &[u8],
    pos: usize,
    max_record_bytes: u32,
    r: Result<Frame, Error>,
)
    requires
        pos <= bytes@.len(),
        call_ensures(read_frame, (bytes, pos, max_record_bytes), r),
    ensures
        ({
            let rest = bytes@.skip(pos as int);
            let len = from_le32(rest);
            let blank = forall|i: int| 0 <= i < rest.len() ==> rest[i] == 0;
            let fits = 8 + len <= rest.len();
            let agrees = crc32c_of(rest.subrange(8, 8 + len)) == from_le32(rest.skip(4));
            &&& r matches Ok(Frame::Record(_, end)) ==> {
                &&& rest.len() >= 8
                &&& 0 < len <= max_record_bytes
                &&& fits && agrees
                &&& end == pos + 8 + len
            }
            &&& r == Ok::<Frame, Error>(Frame::Stop(Stop::EndOfWrittenRegion)) <==> (rest.len() < 8
                && blank) || (rest.len() >= 8 && len == 0)
            &&& r == Ok::<Frame, Error>(Frame::Stop(Stop::ShortHeader)) <==> rest.len() < 8 && !blank
            &&& r == Ok::<Frame, Error>(Frame::Stop(Stop::ImplausibleLength)) <==> rest.len() >= 8
                && len > max_record_bytes && len > 0
            &&& r == Ok::<Frame, Error>(Frame::Stop(Stop::ShortBody)) <==> rest.len() >= 8 && 0
                < len <= max_record_bytes && !fits
            &&& r == Ok::<Frame, Error>(Frame::Stop(Stop::BadChecksum)) <==> rest.len() >= 8 && 0
                < len <= max_record_bytes && fits && !agrees
        }),
{
}

/// A segment's header is believed only where it names this log and this version of
/// it.
pub proof fn law_a_segment_of_another_version_is_not_read(
    bytes: &[u8],
    max_record_bytes: u32,
    r: Option<(SegHeader, usize)>,
)
    requires
        call_ensures(read_header, (bytes, max_record_bytes), r),
    ensures
        r matches Some((header, end)) ==> {
            &&& header.magic == 0x4b45_4c47
            &&& header.version == 1
            &&& end == 8 + from_le32(bytes@)
            &&& end <= bytes@.len()
        },
{
    assert(bytes@.skip(0) =~= bytes@);
}

/// Where a segment's header ends is said only of one that can hold it.
pub proof fn law_a_header_ends_where_it_says(
    dir: &str,
    name: &str,
    bytes: &[u8],
    max_record_bytes: u32,
    r: Result<u64, Error>,
)
    requires
        call_ensures(header_end, (dir, name, bytes, max_record_bytes), r),
    ensures
        r is Ok <==> bytes@.len() >= 8 && 0 < from_le32(bytes@) <= max_record_bytes,
        r is Ok ==> r->Ok_0 == 8 + from_le32(bytes@),
{
}

/// A region that is erased reads as zeros, and what is outside it is as it was.
pub proof fn law_an_erased_region_reads_as_zeros(disk: Disk, name: Seq<char>, from: u64, to: u64)
    requires
        disk.contains_key(name),
        from <= to <= disk[name].len(),
    ensures
        ({
            let before = disk[name];
            let after = performed(disk, EffectView::Erase { name, from, to })[name];
            &&& after.len() == before.len()
            &&& forall|i: int| from <= i < to ==> after[i] == 0
            &&& forall|i: int|
                0 <= i < before.len() && !(from <= i < to) ==> after[i] == before[i]
        }),
{
}

/// A segment without a header is the trace of a crash only where it is the newest:
/// anywhere else it is damage, and nothing is opened. Every other segment is found,
/// under its own number, with what its header says.
pub proof fn law_only_the_newest_segment_may_lack_a_header(
    dir: &str,
    files: Vec<SegmentFile>,
    max_record_bytes: u32,
    r: Result<(Vec<Segment>, Option<String>), Error>,
)
    requires
        call_ensures(discover, (dir, files, max_record_bytes), r),
    ensures
        ({
            let all = numbered(file_views(files@));
            let n = all.len() as int;
            &&& r is Ok <==> forall|i: int|
                0 <= i < n - 1 ==> header_of((#[trigger] all[i]).1.bytes, max_record_bytes) is Some
            &&& r matches Ok((segments, dropped)) ==> {
                let lacking = n > 0 && header_of(all[n - 1].1.bytes, max_record_bytes) is None;
                &&& dropped is Some <==> lacking
                &&& lacking ==> dropped->0@ == all[n - 1].1.name
                &&& segments@.len() == (if lacking {
                    n - 1
                } else {
                    n
                })
                &&& forall|i: int|
                    0 <= i < segments@.len() ==> {
                        let one = #[trigger] segments@[i];
                        let (header, end) = header_of(all[i].1.bytes, max_record_bytes)->0;
                        &&& one.seq == all[i].0
                        &&& one.file.name@ == all[i].1.name
                        &&& one.file.bytes@ == all[i].1.bytes
                        &&& one.base_index == header.base_index
                        &&& one.start == end
                    }
            }
        }),
{
    let all = numbered(file_views(files@));
    lemma_headed(dir@, all, max_record_bytes);
    if let Ok((segments, dropped)) = r {
        let views = found_views(segments@);
        assert(headed(dir@, all, max_record_bytes)->Ok_0.0 == views);
        assert forall|i: int| 0 <= i < segments@.len() implies {
            let one = #[trigger] segments@[i];
            let (header, end) = header_of(all[i].1.bytes, max_record_bytes)->0;
            &&& one.seq == all[i].0
            &&& one.file.name@ == all[i].1.name
            &&& one.file.bytes@ == all[i].1.bytes
            &&& one.base_index == header.base_index
            &&& one.start == end
        } by {
            assert(views[i] == segments@[i]@);
        }
    }
}

proof fn lemma_headed(dir: Seq<char>, all: Seq<(u64, FileView)>, max: u32)
    ensures
        ({
            let n = all.len() as int;
            let lacking = n > 0 && header_of(all[n - 1].1.bytes, max) is None;
            let r = headed(dir, all, max);
            &&& r is Ok <==> forall|i: int|
                0 <= i < n - 1 ==> header_of((#[trigger] all[i]).1.bytes, max) is Some
            &&& r matches Ok((found, dropped)) ==> {
                &&& dropped == (if lacking {
                    Some(all[n - 1].1.name)
                } else {
                    None
                })
                &&& found.len() == (if lacking {
                    n - 1
                } else {
                    n
                })
                &&& forall|i: int|
                    0 <= i < found.len() ==> {
                        let one = #[trigger] found[i];
                        let (header, end) = header_of(all[i].1.bytes, max)->0;
                        &&& one.seq == all[i].0
                        &&& one.name == all[i].1.name
                        &&& one.bytes == all[i].1.bytes
                        &&& one.base_index == header.base_index
                        &&& one.start == end
                    }
            }
        }),
    decreases all.len(),
{
    if all.len() > 0 {
        let rest = all.skip(1);
        lemma_headed(dir, rest, max);
        let n = all.len() as int;
        assert forall|i: int| 0 <= i < rest.len() implies #[trigger] rest[i] == all[i + 1] by {}
        if n > 1 {
            assert(rest[n - 2] == all[n - 1]);
        }
        if header_of(all[0].1.bytes, max) is Some {
            if headed(dir, rest, max) is Ok {
                assert forall|i: int| 0 <= i < n - 1 implies header_of(
                    (#[trigger] all[i]).1.bytes,
                    max,
                ) is Some by {
                    if i > 0 {
                        assert(rest[i - 1] == all[i]);
                    }
                }
                let (found, _) = headed(dir, all, max)->Ok_0;
                let (others, _) = headed(dir, rest, max)->Ok_0;
                assert forall|i: int| 0 <= i < found.len() implies {
                    let one = #[trigger] found[i];
                    let (header, end) = header_of(all[i].1.bytes, max)->0;
                    &&& one.seq == all[i].0
                    &&& one.name == all[i].1.name
                    &&& one.bytes == all[i].1.bytes
                    &&& one.base_index == header.base_index
                    &&& one.start == end
                } by {
                    if i > 0 {
                        assert(found[i] == others[i - 1]);
                        assert(rest[i - 1] == all[i]);
                    }
                }
            } else {
                let j = choose|j: int|
                    0 <= j < rest.len() - 1 && header_of((#[trigger] rest[j]).1.bytes, max) is None;
                assert(all[j + 1] == rest[j]);
            }
        }
    }
}

} // verus!
