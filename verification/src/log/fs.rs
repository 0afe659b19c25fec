//! What the log asks of a filesystem.

use vstd::prelude::*;

verus! {

/// How durable a sync has to be.
///
/// An enum rather than one operation, because the obvious operation is not the
/// same on every platform: it maps to `fdatasync` on Linux and to plain `fsync`
/// on macOS, which does not flush the drive's write cache there.
#[derive(Debug, Clone, Copy, PartialEq, Eq, Structural)]
pub enum SyncMode {
    /// `fdatasync` on Linux, `F_FULLFSYNC` on macOS. Survives power loss, and
    /// the only mode a published performance number may use.
    Durable,
    /// Full file-and-metadata sync. Exists primarily for the benchmark that
    /// compares the two.
    Full,
    /// Ordering, not power-loss durability. Never used for a claim.
    Barrier,
    /// No sync at all. Tests and deliberately unsafe benchmarks.
    Off,
}

impl Default for SyncMode {
    fn default() -> (r: Self)
        ensures
            r == SyncMode::Durable,
    {
        SyncMode::Durable
    }
}

impl SyncMode {
    /// Whether a write survives power loss under this mode.
    pub fn is_durable(self) -> (r: bool)
        ensures
            r == (self == SyncMode::Durable || self == SyncMode::Full),
    {
        matches!(self, SyncMode::Durable | SyncMode::Full)
    }
}

/// What a file is being opened for.
#[derive(Debug, Clone, Copy, PartialEq, Eq, Structural)]
pub enum OpenMode {
    /// Read and write, creating if absent. Does not truncate.
    Create,
    /// Read only. Fails if absent.
    Read,
    /// Take an exclusive, non-blocking advisory lock on the file, creating it if
    /// absent. Fails if the lock is held elsewhere.
    Lock,
}

/// One thing the log wants done to its directory. A host does them in order, and
/// a log whose host could not do one of them is not used again.
#[derive(Debug, PartialEq, Eq)]
pub enum Effect {
    /// Open the file, creating it if absent, and grow it to `allocate` bytes
    /// that read as zeros if it is shorter.
    Create { name: String, allocate: u64 },
    /// Write bytes at an offset, extending the file with zeros if the offset is
    /// past its end.
    Write { name: String, offset: u64, bytes: Vec<u8> },
    /// Write zeros from one offset up to another.
    Erase { name: String, from: u64, to: u64 },
    /// Make what was written to the file durable.
    Sync { name: String },
    /// Remove the file.
    Remove { name: String },
    /// Make what was created and removed in the directory durable.
    SyncDir,
}

/// What an [`Effect`] stands for.
pub enum EffectView {
    Create { name: Seq<char>, allocate: u64 },
    Write { name: Seq<char>, offset: u64, bytes: Seq<u8> },
    Erase { name: Seq<char>, from: u64, to: u64 },
    Sync { name: Seq<char> },
    Remove { name: Seq<char> },
    SyncDir,
}

impl View for Effect {
    type V = EffectView;

    open spec fn view(&self) -> EffectView {
        match self {
            Effect::Create { name, allocate } => EffectView::Create {
                name: name@,
                allocate: *allocate,
            },
            Effect::Write { name, offset, bytes } => EffectView::Write {
                name: name@,
                offset: *offset,
                bytes: bytes@,
            },
            Effect::Erase { name, from, to } => EffectView::Erase {
                name: name@,
                from: *from,
                to: *to,
            },
            Effect::Sync { name } => EffectView::Sync { name: name@ },
            Effect::Remove { name } => EffectView::Remove { name: name@ },
            Effect::SyncDir => EffectView::SyncDir,
        }
    }
}

/// What the views of some effects are.
pub open spec fn effect_views(effects: Seq<Effect>) -> Seq<EffectView> {
    effects.map_values(|e: Effect| e@)
}

/// The files of a directory, by name.
pub type Disk = Map<Seq<char>, Seq<u8>>;

/// A file made at least this long, with zeros.
pub open spec fn grown(file: Seq<u8>, len: nat) -> Seq<u8> {
    if file.len() >= len {
        file
    } else {
        file + Seq::new((len - file.len()) as nat, |i: int| 0u8)
    }
}

/// A file with bytes written at an offset.
pub open spec fn overwritten(file: Seq<u8>, offset: nat, bytes: Seq<u8>) -> Seq<u8> {
    let base = grown(file, offset + bytes.len());
    base.take(offset as int) + bytes + base.skip((offset + bytes.len()) as int)
}

/// What the directory holds after an effect.
pub open spec fn performed(disk: Disk, effect: EffectView) -> Disk {
    match effect {
        EffectView::Create { name, allocate } => disk.insert(
            name,
            grown(if disk.contains_key(name) { disk[name] } else { Seq::empty() }, allocate as nat),
        ),
        EffectView::Write { name, offset, bytes } => disk.insert(
            name,
            overwritten(disk[name], offset as nat, bytes),
        ),
        EffectView::Erase { name, from, to } => disk.insert(
            name,
            overwritten(disk[name], from as nat, Seq::new((to - from) as nat, |i: int| 0u8)),
        ),
        EffectView::Sync { .. } => disk,
        EffectView::Remove { name } => disk.remove(name),
        EffectView::SyncDir => disk,
    }
}

/// What the directory holds after several effects.
pub open spec fn all_performed(disk: Disk, effects: Seq<EffectView>) -> Disk
    decreases effects.len(),
{
    if effects.len() == 0 {
        disk
    } else {
        performed(all_performed(disk, effects.drop_last()), effects.last())
    }
}

/// Whether what an effect changes is there to be changed.
pub open spec fn grounded(disk: Disk, effect: EffectView) -> bool {
    match effect {
        EffectView::Create { .. } => true,
        EffectView::Write { name, .. } => disk.contains_key(name),
        EffectView::Erase { name, from, to } => disk.contains_key(name) && from <= to,
        EffectView::Sync { name } => disk.contains_key(name),
        EffectView::Remove { name } => disk.contains_key(name),
        EffectView::SyncDir => true,
    }
}

/// Whether, of several effects carried out in order, each finds what it changes.
pub open spec fn all_grounded(disk: Disk, effects: Seq<EffectView>) -> bool
    decreases effects.len(),
{
    effects.len() == 0 || {
        &&& all_grounded(disk, effects.drop_last())
        &&& grounded(all_performed(disk, effects.drop_last()), effects.last())
    }
}

/// The largest run of zeros written in one go.
pub const ERASE_CHUNK: u64 = 1_048_576;

/// The runs of zeros that erase `[from, to)`: each starts where the one before
/// it ended, none is longer than [`ERASE_CHUNK`], and the last ends at `to`.
pub fn erase_chunks(from: u64, to: u64) -> (r: Vec<(u64, u64)>)
    ensures
        to <= from ==> r@.len() == 0,
        from < to ==> {
            &&& r@.len() > 0
            &&& r@[0].0 == from
            &&& r@.last().0 + r@.last().1 == to
        },
        forall|i: int| 0 <= i < r@.len() ==> 0 < (#[trigger] r@[i]).1 <= ERASE_CHUNK,
        forall|i: int|
            0 < i < r@.len() ==> (#[trigger] r@[i]).0 == r@[i - 1].0 + r@[i - 1].1,
{
    let mut r: Vec<(u64, u64)> = Vec::new();
    let mut off: u64 = from;
    while off < to
        invariant
            from <= off,
            off <= to || r@.len() == 0,
            r@.len() == 0 ==> off == from,
            r@.len() > 0 ==> {
                &&& r@[0].0 == from
                &&& r@.last().0 + r@.last().1 == off
                &&& from < to
            },
            forall|i: int| 0 <= i < r@.len() ==> 0 < (#[trigger] r@[i]).1 <= ERASE_CHUNK,
            forall|i: int|
                0 < i < r@.len() ==> (#[trigger] r@[i]).0 == r@[i - 1].0 + r@[i - 1].1,
        decreases to - off,
    {
        let left: u64 = to - off;
        let n: u64 = if left < ERASE_CHUNK {
            left
        } else {
            ERASE_CHUNK
        };
        r.push((off, n));
        off += n;
    }
    r
}

/// What a directory promises of a file that is opened: what it held is still
/// there, what it was grown by reads as zeros, and its size is the larger of what
/// it was and what was asked for. So preallocating never shrinks a file, and
/// never leaves garbage where the end of the written region is looked for.
pub proof fn law_opening_keeps_and_zero_fills(disk: Disk, name: Seq<char>, allocate: u64)
    requires
        disk.contains_key(name),
    ensures
        ({
            let after = performed(disk, EffectView::Create { name, allocate })[name];
            &&& after.len() == if disk[name].len() >= allocate {
                disk[name].len()
            } else {
                allocate as nat
            }
            &&& disk[name] == after.take(disk[name].len() as int)
            &&& forall|i: int| disk[name].len() <= i < after.len() ==> after[i] == 0
        }),
{
    let after = performed(disk, EffectView::Create { name, allocate })[name];
    assert(disk[name] =~= after.take(disk[name].len() as int));
}

/// A file that was not there is all zeros once it is opened, as long as was asked
/// for.
pub proof fn law_a_new_file_reads_as_zeros(disk: Disk, name: Seq<char>, allocate: u64)
    requires
        !disk.contains_key(name),
    ensures
        ({
            let after = performed(disk, EffectView::Create { name, allocate })[name];
            &&& after.len() == allocate
            &&& forall|i: int| 0 <= i < after.len() ==> after[i] == 0
        }),
{
}

/// What a directory promises of a write: the bytes are there, what was outside
/// them is as it was, a gap between the old end and the write reads as zeros, and
/// the size covers the furthest byte.
pub proof fn law_a_write_is_read_back(disk: Disk, name: Seq<char>, offset: u64, bytes: Seq<u8>)
    requires
        disk.contains_key(name),
    ensures
        ({
            let before = disk[name];
            let after = performed(disk, EffectView::Write { name, offset, bytes })[name];
            let end = offset + bytes.len();
            &&& after.len() == if before.len() >= end {
                before.len() as int
            } else {
                end
            }
            &&& after.subrange(offset as int, end) == bytes
            &&& forall|i: int|
                0 <= i < before.len() && !(offset <= i < end) ==> after[i] == before[i]
            &&& forall|i: int| before.len() <= i < offset ==> after[i] == 0
        }),
{
    let before = disk[name];
    let after = performed(disk, EffectView::Write { name, offset, bytes })[name];
    let end = offset + bytes.len();
    assert(after.subrange(offset as int, end) =~= bytes);
}

/// What a directory promises of its names: an effect touches the file it names
/// and no other, opening a file lists it, and removing it takes it off the list.
pub proof fn law_an_effect_touches_one_file(disk: Disk, effect: EffectView, other: Seq<char>)
    requires
        match effect {
            EffectView::Create { name, .. } => name != other,
            EffectView::Write { name, .. } => name != other,
            EffectView::Erase { name, .. } => name != other,
            EffectView::Remove { name } => name != other,
            _ => true,
        },
    ensures
        performed(disk, effect).contains_key(other) == disk.contains_key(other),
        performed(disk, effect)[other] == disk[other],
        effect matches EffectView::Create { name, .. } ==> performed(disk, effect).contains_key(
            name,
        ),
        effect matches EffectView::Remove { name } ==> !performed(disk, effect).contains_key(name),
{
}

/// A sync changes nothing that can be read.
pub proof fn law_a_sync_changes_nothing_read(disk: Disk, name: Seq<char>)
    ensures
        performed(disk, EffectView::Sync { name }) == disk,
        performed(disk, EffectView::SyncDir) == disk,
{
}

} // verus!
