//! What a directory holds of a log, and what that amounts to.
//!
//! Recovery looks at the files of a directory, takes those that are segments in
//! order, and folds their records. A crash can leave two things that are not
//! damage: a newest segment whose header never landed, which is dropped, and
//! bytes above the last intact record, which are erased before anything is
//! written over them.

use vstd::prelude::*;
use vstd::string::*;

use crate::log::error::{Error, ErrorView};
use crate::log::fold::{replayed, Fold, FoldView};
use crate::log::fs::Disk;
use crate::log::record::{Stop, FRAME_HEADER};
use crate::log::segment::{header_of, parse_segment_seq, path_in, path_of, read_header, segment_seq};
use crate::le::{from_le32, read_le32};
use crate::raft::Index;
use crate::text::{decimal, push_decimal};
use crate::wire::Wire;

verus! {

/// A file of the log's directory: its name in it, and its bytes.
#[derive(Debug)]
pub struct SegmentFile {
    pub name: String,
    pub bytes: Vec<u8>,
}

/// What a [`SegmentFile`] stands for.
pub struct FileView {
    pub name: Seq<char>,
    pub bytes: Seq<u8>,
}

impl View for SegmentFile {
    type V = FileView;

    open spec fn view(&self) -> FileView {
        FileView { name: self.name@, bytes: self.bytes@ }
    }
}

/// What the views of some files are.
pub open spec fn file_views(files: Seq<SegmentFile>) -> Seq<FileView> {
    files.map_values(|f: SegmentFile| f@)
}

/// The directory that some files make up.
pub open spec fn disk_of(files: Seq<FileView>) -> Disk
    decreases files.len(),
{
    if files.len() == 0 {
        Map::empty()
    } else {
        disk_of(files.drop_last()).insert(files.last().name, files.last().bytes)
    }
}

/// A numbered file put in its place: after every one whose number is not larger.
pub open spec fn placed(found: Seq<(u64, FileView)>, one: (u64, FileView)) -> Seq<(u64, FileView)>
    decreases found.len(),
{
    if found.len() == 0 || found.last().0 <= one.0 {
        found.push(one)
    } else {
        placed(found.drop_last(), one).push(found.last())
    }
}

/// The files that are segments by their names, in the order of their numbers.
pub open spec fn numbered(files: Seq<FileView>) -> Seq<(u64, FileView)>
    decreases files.len(),
{
    if files.len() == 0 {
        Seq::empty()
    } else {
        let before = numbered(files.drop_last());
        match segment_seq(files.last().name) {
            Some(seq) => placed(before, (seq, files.last())),
            None => before,
        }
    }
}

/// What the views of some numbered files are.
pub open spec fn numbered_views(found: Seq<(u64, SegmentFile)>) -> Seq<(u64, FileView)> {
    found.map_values(|f: (u64, SegmentFile)| (f.0, f.1@))
}

/// Put a numbered file in its place.
fn place(found: &mut Vec<(u64, SegmentFile)>, seq: u64, file: SegmentFile)
    ensures
        numbered_views(final(found)@) == placed(numbered_views(old(found)@), (seq, file@)),
{
    let ghost all = numbered_views(found@);
    let ghost one = (seq, file@);
    let mut at: usize = found.len();
    proof {
        assert(all.take(at as int) =~= all);
        assert(all.skip(at as int) =~= Seq::empty());
        assert(placed(all, one) + Seq::empty() =~= placed(all, one));
    }
    while at > 0 && found[at - 1].0 > seq
        invariant
            at <= found@.len(),
            all == numbered_views(found@),
            placed(all, one) == placed(all.take(at as int), one) + all.skip(at as int),
            one.0 == seq,
        decreases at,
    {
        proof {
            let head = all.take(at as int);
            assert(head.last() == (found@[at - 1].0, found@[at - 1].1@));
            assert(head.drop_last() =~= all.take(at - 1));
            assert(placed(head.drop_last(), one).push(head.last()) + all.skip(at as int)
                =~= placed(all.take(at - 1), one) + all.skip(at - 1));
        }
        at -= 1;
    }
    proof {
        let head = all.take(at as int);
        if at > 0 {
            assert(head.last() == (found@[at - 1].0, found@[at - 1].1@));
        }
        assert(placed(head, one) == head.push(one));
    }
    let ghost before = found@;
    found.insert(at, (seq, file));
    proof {
        assert(numbered_views(found@) =~= all.take(at as int).push(one) + all.skip(at as int));
    }
}

/// The files that are segments by their names, in the order of their numbers.
fn sort_segments(files: Vec<SegmentFile>) -> (found: Vec<(u64, SegmentFile)>)
    ensures
        numbered_views(found@) == numbered(file_views(files@)),
{
    let ghost all = file_views(files@);
    let mut found: Vec<(u64, SegmentFile)> = Vec::new();
    proof {
        assert(numbered_views(found@) =~= Seq::empty());
        assert(all.take(0) =~= Seq::empty());
    }
    for file in it: files
        invariant
            all == file_views(it.seq()),
            numbered_views(found@) == numbered(all.take(it.index() as int)),
    {
        proof {
            let next = all.take(it.index() + 1);
            assert(next.drop_last() =~= all.take(it.index() as int));
            assert(next.last() == file@);
        }
        match parse_segment_seq(file.name.as_str()) {
            Some(seq) => {
                place(&mut found, seq, file);
            },
            None => {},
        }
    }
    proof {
        assert(all.take(all.len() as int) =~= all);
    }
    found
}

/// A segment whose header was read.
#[derive(Debug)]
pub struct Segment {
    pub seq: u64,
    pub file: SegmentFile,
    pub base_index: Index,
    /// Where its records start.
    pub start: usize,
}

/// What a [`Segment`] stands for.
pub struct FoundView {
    pub seq: u64,
    pub name: Seq<char>,
    pub bytes: Seq<u8>,
    pub base_index: Index,
    pub start: int,
}

impl View for Segment {
    type V = FoundView;

    open spec fn view(&self) -> FoundView {
        FoundView {
            seq: self.seq,
            name: self.file.name@,
            bytes: self.file.bytes@,
            base_index: self.base_index,
            start: self.start as int,
        }
    }
}

/// What the views of some found segments are.
pub open spec fn found_views(segments: Seq<Segment>) -> Seq<FoundView> {
    segments.map_values(|s: Segment| s@)
}

/// The segments among numbered files, and the newest file where its header never
/// landed. A missing header is possible on the newest segment only; anywhere
/// else it is damage.
pub open spec fn headed(dir: Seq<char>, files: Seq<(u64, FileView)>, max: u32) -> Result<
    (Seq<FoundView>, Option<Seq<char>>),
    ErrorView,
>
    decreases files.len(),
{
    if files.len() == 0 {
        Ok((Seq::empty(), None))
    } else {
        let (seq, file) = files[0];
        match header_of(file.bytes, max) {
            Some((header, start)) => match headed(dir, files.skip(1), max) {
                Ok((others, dropped)) => Ok(
                    (
                        seq![
                            FoundView {
                                seq,
                                name: file.name,
                                bytes: file.bytes,
                                base_index: header.base_index,
                                start,
                            },
                        ] + others,
                        dropped,
                    ),
                ),
                Err(e) => Err(e),
            },
            None => if files.len() == 1 {
                Ok((Seq::empty(), Some(file.name)))
            } else {
                Err(
                    ErrorView::Damaged {
                        path: path_of(dir, file.name),
                        reason: "segment header is missing or unreadable"@,
                    },
                )
            },
        }
    }
}

/// List the segments among a directory's files, and the newest file where its
/// header never landed: the trace of a crash while a segment was being created.
pub fn discover(dir: &str, files: Vec<SegmentFile>, max_record_bytes: u32) -> (r: Result<
    (Vec<Segment>, Option<String>),
    Error,
>)
    ensures
        match r {
            Ok((segments, dropped)) => {
                &&& headed(dir@, numbered(file_views(files@)), max_record_bytes) == Ok::<
                    (Seq<FoundView>, Option<Seq<char>>),
                    ErrorView,
                >((found_views(segments@), dropped.model()))
                &&& forall|i: int|
                    0 <= i < segments@.len() ==> (#[trigger] segments@[i]).start
                        <= segments@[i].file.bytes@.len()
            },
            Err(e) => headed(dir@, numbered(file_views(files@)), max_record_bytes) == Err::<
                (Seq<FoundView>, Option<Seq<char>>),
                ErrorView,
            >(e@),
        },
{
    let found = sort_segments(files);
    let ghost all = numbered_views(found@);
    let n: usize = found.len();
    let mut segments: Vec<Segment> = Vec::new();
    let mut i: usize = 0;
    proof {
        assert(all.skip(0) =~= all);
        assert(found_views(segments@) =~= Seq::empty());
        assert(joined(Seq::empty(), headed(dir@, all, max_record_bytes)) == headed(
            dir@,
            all,
            max_record_bytes,
        )) by {
            match headed(dir@, all, max_record_bytes) {
                Ok((others, _)) => {
                    assert(Seq::empty() + others =~= others);
                },
                Err(_) => {},
            }
        }
    }
    for (seq, file) in it: found
        invariant
            all == numbered_views(it.seq()),
            all == numbered(file_views(files@)),
            n == all.len(),
            i == it.index(),
            headed(dir@, all, max_record_bytes) == joined(
                found_views(segments@),
                headed(dir@, all.skip(it.index() as int), max_record_bytes),
            ),
            forall|j: int|
                0 <= j < segments@.len() ==> (#[trigger] segments@[j]).start
                    <= segments@[j].file.bytes@.len(),
    {
        let ghost rest = all.skip(it.index() as int);
        proof {
            assert(rest[0] == (seq, file@));
            assert(rest.skip(1) =~= all.skip(it.index() + 1));
        }
        match read_header(file.bytes.as_slice(), max_record_bytes) {
            Some((header, start)) => {
                let ghost before = found_views(segments@);
                let segment = Segment { seq, file, base_index: header.base_index, start };
                let ghost one = segment@;
                segments.push(segment);
                proof {
                    assert(found_views(segments@) =~= before.push(one));
                    match headed(dir@, rest.skip(1), max_record_bytes) {
                        Ok((others, _)) => {
                            assert(before + (seq![one] + others) =~= before.push(one) + others);
                        },
                        Err(_) => {},
                    }
                }
            },
            None => {
                proof {
                    assert(found_views(segments@) + Seq::empty() =~= found_views(segments@));
                }
                if i + 1 == n {
                    return Ok((segments, Some(file.name)));
                }
                return Err(
                    Error::Damaged {
                        path: path_in(dir, file.name.as_str()),
                        reason: "segment header is missing or unreadable".to_owned(),
                    },
                );
            },
        }
        i += 1;
    }
    proof {
        assert(all.skip(all.len() as int) =~= Seq::empty());
        assert(found_views(segments@) + Seq::empty() =~= found_views(segments@));
    }
    Ok((segments, None))
}

/// Segments found before some others.
spec fn joined(
    before: Seq<FoundView>,
    rest: Result<(Seq<FoundView>, Option<Seq<char>>), ErrorView>,
) -> Result<(Seq<FoundView>, Option<Seq<char>>), ErrorView> {
    match rest {
        Ok((others, dropped)) => Ok((before + others, dropped)),
        Err(e) => Err(e),
    }
}

/// What a tear in a segment that is not the newest is called.
pub open spec fn tear_reason(stop: Stop, end: nat, later: nat) -> Seq<char> {
    stop.name() + " at offset "@ + decimal(end) + ", with "@ + decimal(later)
        + " later segment(s)"@
}

fn tear_text(stop: Stop, end: usize, later: usize) -> (r: String)
    ensures
        r@ == tear_reason(stop, end as nat, later as nat),
{
    let mut r = String::new();
    r.append(stop.describe());
    r.append(" at offset ");
    push_decimal(&mut r, end as u64);
    r.append(", with ");
    push_decimal(&mut r, later as u64);
    r.append(" later segment(s)");
    proof {
        assert(r@ =~= tear_reason(stop, end as nat, later as nat));
    }
    r
}

/// Segments replayed in order, with where the last one ended. A torn tail
/// belongs at the end of the log; anywhere else it is damage, and reading past
/// it would silently produce a log with a hole in it.
pub open spec fn all_replayed(dir: Seq<char>, f: FoldView, segments: Seq<FoundView>, max: u32) -> Result<
    (FoldView, int),
    ErrorView,
>
    decreases segments.len(),
{
    if segments.len() == 0 {
        Ok((f, 0))
    } else {
        match replayed(f, segments[0].bytes, segments[0].start, max) {
            Err(e) => Err(e),
            Ok((next, end, stop)) => if segments.len() == 1 {
                Ok((next, end))
            } else if stop != Stop::EndOfWrittenRegion {
                Err(
                    ErrorView::Damaged {
                        path: path_of(dir, segments[0].name),
                        reason: tear_reason(stop, end as nat, (segments.len() - 1) as nat),
                    },
                )
            } else {
                all_replayed(dir, next, segments.skip(1), max)
            },
        }
    }
}

/// Replay segments in order. Returns where the last one ended.
pub fn replay_all(fold: &mut Fold, dir: &str, segments: &[Segment], max_record_bytes: u32) -> (r:
    Result<usize, Error>)
    requires
        forall|i: int|
            0 <= i < segments@.len() ==> (#[trigger] segments@[i]).start
                <= segments@[i].file.bytes@.len(),
    ensures
        match r {
            Ok(end) => {
                &&& all_replayed(
                    dir@,
                    old(fold)@,
                    found_views(segments@),
                    max_record_bytes,
                ) == Ok::<(FoldView, int), ErrorView>((final(fold)@, end as int))
                &&& segments@.len() > 0 ==> end <= segments@.last().file.bytes@.len()
            },
            Err(e) => all_replayed(dir@, old(fold)@, found_views(segments@), max_record_bytes)
                == Err::<(FoldView, int), ErrorView>(e@),
        },
{
    let ghost all = found_views(segments@);
    let n: usize = segments.len();
    let mut i: usize = 0;
    proof {
        assert(all.skip(0) =~= all);
    }
    while i < n
        invariant
            i <= n == segments@.len(),
            all == found_views(segments@),
            forall|i: int|
                0 <= i < segments@.len() ==> (#[trigger] segments@[i]).start
                    <= segments@[i].file.bytes@.len(),
            all_replayed(dir@, old(fold)@, all, max_record_bytes) == all_replayed(
                dir@,
                fold@,
                all.skip(i as int),
                max_record_bytes,
            ),
            n > 0 ==> i < n,
        decreases n - i,
    {
        let segment = &segments[i];
        proof {
            assert(all.skip(i as int)[0] == segment@);
            assert(all.skip(i as int).skip(1) =~= all.skip(i + 1));
        }
        match fold.replay(segment.file.bytes.as_slice(), segment.start, max_record_bytes) {
            Ok((end, stop)) => {
                if i + 1 == n {
                    return Ok(end);
                }
                if stop.is_torn() {
                    return Err(
                        Error::Damaged {
                            path: path_in(dir, segment.file.name.as_str()),
                            reason: tear_text(stop, end, n - 1 - i),
                        },
                    );
                }
            },
            Err(e) => {
                return Err(e);
            },
        }
        i += 1;
    }
    Ok(0)
}

/// Where the records of a segment start, by the length its header claims.
pub open spec fn header_end_of(dir: Seq<char>, name: Seq<char>, bytes: Seq<u8>, max: u32) -> Result<
    int,
    ErrorView,
> {
    if bytes.len() < FRAME_HEADER {
        Err(
            ErrorView::Damaged {
                path: path_of(dir, name),
                reason: "segment is shorter than one frame header"@,
            },
        )
    } else if from_le32(bytes) == 0 || from_le32(bytes) > max {
        Err(
            ErrorView::Damaged {
                path: path_of(dir, name),
                reason: "segment header has an implausible length"@,
            },
        )
    } else {
        Ok(FRAME_HEADER + from_le32(bytes))
    }
}

/// Where the records of a segment start, by the length its header claims.
pub fn header_end(dir: &str, name: &str, bytes: &[u8], max_record_bytes: u32) -> (r: Result<
    u64,
    Error,
>)
    ensures
        match r {
            Ok(end) => header_end_of(dir@, name@, bytes@, max_record_bytes) == Ok::<int, ErrorView>(
                end as int,
            ),
            Err(e) => header_end_of(dir@, name@, bytes@, max_record_bytes) == Err::<int, ErrorView>(
                e@,
            ),
        },
{
    if bytes.len() < FRAME_HEADER {
        return Err(
            Error::Damaged {
                path: path_in(dir, name),
                reason: "segment is shorter than one frame header".to_owned(),
            },
        );
    }
    proof {
        assert(bytes@.skip(0) =~= bytes@);
    }
    let len: u32 = read_le32(bytes, 0);
    if len == 0 || len > max_record_bytes {
        return Err(
            Error::Damaged {
                path: path_in(dir, name),
                reason: "segment header has an implausible length".to_owned(),
            },
        );
    }
    Ok(FRAME_HEADER as u64 + len as u64)
}

} // verus!
