//! A directory that lives in memory, for a log nobody has to keep.

use vstd::prelude::*;
use vstd::string::*;

use crate::log::durability::lemma_performed_in_turn;
use crate::log::fs::{
    all_performed, effect_views, grounded, grown, overwritten, performed, Disk, Effect, EffectView,
};
use crate::log::recovery::{disk_of, file_views, FileView, SegmentFile};
use crate::text::same_text;

verus! {

/// A directory in memory.
#[derive(Debug)]
pub struct MemoryDisk {
    files: Vec<SegmentFile>,
}

impl View for MemoryDisk {
    type V = Disk;

    closed spec fn view(&self) -> Disk {
        disk_of(file_views(self.files@))
    }
}

/// No two files have the same name.
pub open spec fn distinct(files: Seq<FileView>) -> bool {
    forall|i: int, j: int|
        0 <= i < j < files.len() ==> (#[trigger] files[i]).name != (#[trigger] files[j]).name
}

/// A file with other bytes is the directory with that file replaced.
proof fn lemma_disk_updated(files: Seq<FileView>, i: int, bytes: Seq<u8>)
    requires
        distinct(files),
        0 <= i < files.len(),
    ensures
        disk_of(files.update(i, FileView { name: files[i].name, bytes })) == disk_of(files).insert(
            files[i].name,
            bytes,
        ),
    decreases files.len(),
{
    let new = FileView { name: files[i].name, bytes };
    let after = files.update(i, new);
    if i == files.len() - 1 {
        assert(after.drop_last() =~= files.drop_last());
        assert(disk_of(after) =~= disk_of(files).insert(files[i].name, bytes));
    } else {
        let head = files.drop_last();
        assert(distinct(head)) by {
            assert forall|a: int, b: int| 0 <= a < b < head.len() implies (#[trigger] head[a]).name
                != (#[trigger] head[b]).name by {
                assert(files[a].name != files[b].name);
            }
        }
        lemma_disk_updated(head, i, bytes);
        assert(after.drop_last() =~= head.update(i, new));
        assert(files[i].name != files[files.len() - 1].name);
        assert(disk_of(after) =~= disk_of(files).insert(files[i].name, bytes));
    }
}

/// A file is in the directory under its name.
proof fn lemma_disk_holds(files: Seq<FileView>, i: int)
    requires
        distinct(files),
        0 <= i < files.len(),
    ensures
        disk_of(files).contains_key(files[i].name),
        disk_of(files)[files[i].name] == files[i].bytes,
    decreases files.len(),
{
    if i < files.len() - 1 {
        let head = files.drop_last();
        assert forall|a: int, b: int| 0 <= a < b < head.len() implies (#[trigger] head[a]).name != (
        #[trigger] head[b]).name by {
            assert(files[a].name != files[b].name);
        }
        lemma_disk_holds(head, i);
        assert(files[i].name != files[files.len() - 1].name);
    }
}

/// A name no file has is not in the directory.
proof fn lemma_disk_lacks(files: Seq<FileView>, name: Seq<char>)
    requires
        forall|i: int| 0 <= i < files.len() ==> (#[trigger] files[i]).name != name,
    ensures
        !disk_of(files).contains_key(name),
    decreases files.len(),
{
    if files.len() > 0 {
        let head = files.drop_last();
        assert forall|i: int| 0 <= i < head.len() implies (#[trigger] head[i]).name != name by {
            assert(files[i].name != name);
        }
        lemma_disk_lacks(head, name);
        assert(files[files.len() - 1].name != name);
    }
}

/// Without a file, the directory is without its name.
proof fn lemma_disk_removed(files: Seq<FileView>, i: int)
    requires
        distinct(files),
        0 <= i < files.len(),
    ensures
        disk_of(files.remove(i)) == disk_of(files).remove(files[i].name),
    decreases files.len(),
{
    let head = files.drop_last();
    assert(distinct(head)) by {
        assert forall|a: int, b: int| 0 <= a < b < head.len() implies (#[trigger] head[a]).name != (
        #[trigger] head[b]).name by {
            assert(files[a].name != files[b].name);
        }
    }
    if i == files.len() - 1 {
        assert(files.remove(i) =~= head);
        assert forall|k: int| 0 <= k < head.len() implies (#[trigger] head[k]).name
            != files[i].name by {
            assert(files[k].name != files[i].name);
        }
        lemma_disk_lacks(head, files[i].name);
        assert(disk_of(head) =~= disk_of(files).remove(files[i].name));
    } else {
        lemma_disk_removed(head, i);
        assert(files.remove(i).drop_last() =~= head.remove(i));
        assert(files[i].name != files[files.len() - 1].name);
        assert(disk_of(files.remove(i)) =~= disk_of(files).remove(files[i].name));
    }
}

/// Whether an effect can be carried out: what it changes is there, and what it
/// asks for fits.
pub open spec fn possible(disk: Disk, effect: EffectView) -> bool {
    &&& grounded(disk, effect)
    &&& match effect {
        EffectView::Create { allocate, .. } => allocate <= usize::MAX,
        EffectView::Write { offset, bytes, .. } => offset + bytes.len() <= usize::MAX,
        EffectView::Erase { to, .. } => to <= usize::MAX,
        _ => true,
    }
}

/// Whether some effects can be carried out, one after the other.
pub open spec fn all_possible(disk: Disk, effects: Seq<EffectView>) -> bool
    decreases effects.len(),
{
    effects.len() == 0 || {
        &&& all_possible(disk, effects.drop_last())
        &&& possible(all_performed(disk, effects.drop_last()), effects.last())
    }
}

fn grow(bytes: &mut Vec<u8>, len: usize)
    ensures
        final(bytes)@ == grown(old(bytes)@, len as nat),
{
    let ghost before = bytes@;
    while bytes.len() < len
        invariant
            before.len() <= bytes@.len(),
            bytes@.len() <= len || bytes@ == before,
            bytes@ == before + Seq::new((bytes@.len() - before.len()) as nat, |i: int| 0u8),
        decreases len - bytes@.len(),
    {
        bytes.push(0);
        proof {
            assert(bytes@ =~= before + Seq::new(
                (bytes@.len() - before.len()) as nat,
                |i: int| 0u8,
            ));
        }
    }
    proof {
        assert(bytes@ =~= grown(before, len as nat));
    }
}

/// Put bytes at an offset, growing the file where they go past its end.
fn overwrite(file: &mut Vec<u8>, offset: usize, bytes: &[u8])
    requires
        offset + bytes@.len() <= usize::MAX,
    ensures
        final(file)@ == overwritten(old(file)@, offset as nat, bytes@),
{
    let ghost before = file@;
    let end: usize = offset + bytes.len();
    grow(file, end);
    let ghost base = file@;
    let mut i: usize = 0;
    proof {
        assert(base =~= base.take(offset as int) + bytes@.take(0) + base.skip(offset as int));
    }
    while i < bytes.len()
        invariant
            i <= bytes@.len(),
            end == offset + bytes@.len(),
            base == grown(before, (offset + bytes@.len()) as nat),
            base.len() >= end,
            file@.len() == base.len(),
            file@ == base.take(offset as int) + bytes@.take(i as int) + base.skip(offset + i),
        decreases bytes@.len() - i,
    {
        file.set(offset + i, bytes[i]);
        proof {
            assert(file@ =~= base.take(offset as int) + bytes@.take(i + 1) + base.skip(
                offset + i + 1,
            ));
        }
        i += 1;
    }
    proof {
        assert(bytes@.take(i as int) =~= bytes@);
        assert(file@ =~= overwritten(before, offset as nat, bytes@));
    }
}

impl MemoryDisk {
    pub closed spec fn wf(&self) -> bool {
        distinct(file_views(self.files@))
    }

    pub fn new() -> (r: Self)
        ensures
            r.wf(),
            r@ == Map::<Seq<char>, Seq<u8>>::empty(),
    {
        let r = MemoryDisk { files: Vec::new() };
        proof {
            assert(file_views(r.files@) =~= Seq::empty());
        }
        r
    }

    fn find(&self, name: &str) -> (r: Option<usize>)
        requires
            self.wf(),
        ensures
            r is Some <==> self@.contains_key(name@),
            r matches Some(i) ==> i < self.files@.len() && self.files@[i as int].name@ == name@
                && self@[name@] == self.files@[i as int].bytes@,
    {
        let ghost all = file_views(self.files@);
        let mut i: usize = 0;
        while i < self.files.len()
            invariant
                i <= self.files@.len(),
                self.wf(),
                all == file_views(self.files@),
                forall|j: int| 0 <= j < i ==> (#[trigger] all[j]).name != name@,
            decreases self.files@.len() - i,
        {
            proof {
                assert(all[i as int] == self.files@[i as int]@);
            }
            if same_text(self.files[i].name.as_str(), name) {
                proof {
                    lemma_disk_holds(all, i as int);
                }
                return Some(i);
            }
            i += 1;
        }
        proof {
            assert forall|j: int| 0 <= j < all.len() implies (#[trigger] all[j]).name != name@ by {}
            lemma_disk_lacks(all, name@);
        }
        None
    }

    /// The bytes of a file.
    pub fn read(&self, name: &str) -> (r: Option<Vec<u8>>)
        requires
            self.wf(),
        ensures
            r is Some <==> self@.contains_key(name@),
            r matches Some(bytes) ==> bytes@ == self@[name@],
    {
        match self.find(name) {
            Some(i) => {
                let mut copy: Vec<u8> = Vec::new();
                copy.extend_from_slice(self.files[i].bytes.as_slice());
                proof {
                    assert(copy@ =~= self.files@[i as int].bytes@);
                }
                Some(copy)
            },
            None => None,
        }
    }

    /// Put a file in place of the one at an index.
    fn replace(&mut self, i: usize, bytes: Vec<u8>)
        requires
            old(self).wf(),
            i < old(self).files@.len(),
        ensures
            final(self).wf(),
            final(self)@ == old(self)@.insert(old(self).files@[i as int].name@, bytes@),
    {
        let ghost before = file_views(self.files@);
        let file: SegmentFile = self.files.remove(i);
        let new = SegmentFile { name: file.name, bytes };
        self.files.insert(i, new);
        proof {
            lemma_disk_updated(before, i as int, bytes@);
            assert(file_views(self.files@) =~= before.update(
                i as int,
                FileView { name: before[i as int].name, bytes: bytes@ },
            ));
        }
    }

    /// Add a file that is not there.
    fn create(&mut self, name: &str, bytes: Vec<u8>)
        requires
            old(self).wf(),
            !old(self)@.contains_key(name@),
        ensures
            final(self).wf(),
            final(self)@ == old(self)@.insert(name@, bytes@),
    {
        let ghost before = file_views(self.files@);
        self.files.push(SegmentFile { name: name.to_owned(), bytes });
        proof {
            let after = file_views(self.files@);
            let new = FileView { name: name@, bytes: bytes@ };
            assert(after =~= before.push(new));
            assert(after.drop_last() =~= before);
            assert forall|a: int, b: int| 0 <= a < b < after.len() implies (
            #[trigger] after[a]).name != (#[trigger] after[b]).name by {
                assert(after[a] == before[a]);
                if b < before.len() {
                    assert(after[b] == before[b]);
                } else {
                    lemma_disk_holds(before, a);
                }
            }
        }
    }

    /// Carry out one effect, where it can be.
    pub fn perform(&mut self, effect: &Effect) -> (r: bool)
        requires
            old(self).wf(),
        ensures
            final(self).wf(),
            r == possible(old(self)@, effect@),
            r ==> final(self)@ == performed(old(self)@, effect@),
            !r ==> final(self)@ == old(self)@,
    {
        match effect {
            Effect::Create { name, allocate } => {
                if *allocate > usize::MAX as u64 {
                    return false;
                }
                let len: usize = *allocate as usize;
                match self.find(name.as_str()) {
                    Some(i) => {
                        let mut bytes: Vec<u8> = self.copy_at(i);
                        grow(&mut bytes, len);
                        self.replace(i, bytes);
                    },
                    None => {
                        let mut bytes: Vec<u8> = Vec::new();
                        grow(&mut bytes, len);
                        self.create(name.as_str(), bytes);
                    },
                }
            },
            Effect::Write { name, offset, bytes } => {
                if *offset > (usize::MAX - bytes.len()) as u64 {
                    return false;
                }
                match self.find(name.as_str()) {
                    Some(i) => {
                        let mut file: Vec<u8> = self.copy_at(i);
                        overwrite(&mut file, *offset as usize, bytes.as_slice());
                        self.replace(i, file);
                    },
                    None => {
                        return false;
                    },
                }
            },
            Effect::Erase { name, from, to } => {
                if *from > *to || *to > usize::MAX as u64 {
                    return false;
                }
                match self.find(name.as_str()) {
                    Some(i) => {
                        let mut file: Vec<u8> = self.copy_at(i);
                        let mut zeros: Vec<u8> = Vec::new();
                        grow(&mut zeros, (*to - *from) as usize);
                        proof {
                            assert(zeros@ =~= Seq::new((*to - *from) as nat, |k: int| 0u8));
                        }
                        overwrite(&mut file, *from as usize, zeros.as_slice());
                        self.replace(i, file);
                    },
                    None => {
                        return false;
                    },
                }
            },
            Effect::Sync { name } => {
                if self.find(name.as_str()).is_none() {
                    return false;
                }
            },
            Effect::Remove { name } => {
                match self.find(name.as_str()) {
                    Some(i) => {
                        let ghost before = file_views(self.files@);
                        let gone: SegmentFile = self.files.remove(i);
                        proof {
                            lemma_disk_removed(before, i as int);
                            let after = file_views(self.files@);
                            assert(after =~= before.remove(i as int));
                            assert forall|a: int, b: int| 0 <= a < b < after.len() implies (
                            #[trigger] after[a]).name != (#[trigger] after[b]).name by {
                                let x = if a < i {
                                    a
                                } else {
                                    a + 1
                                };
                                let y = if b < i {
                                    b
                                } else {
                                    b + 1
                                };
                                assert(after[a] == before[x] && after[b] == before[y]);
                            }
                        }
                    },
                    None => {
                        return false;
                    },
                }
            },
            Effect::SyncDir => {},
        }
        true
    }

    fn copy_at(&self, i: usize) -> (r: Vec<u8>)
        requires
            i < self.files@.len(),
        ensures
            r@ == self.files@[i as int].bytes@,
    {
        let mut copy: Vec<u8> = Vec::new();
        copy.extend_from_slice(self.files[i].bytes.as_slice());
        proof {
            assert(copy@ =~= self.files@[i as int].bytes@);
        }
        copy
    }

    /// Carry out effects, one after the other, up to the first that cannot be.
    pub fn perform_all(&mut self, effects: &[Effect]) -> (r: bool)
        requires
            old(self).wf(),
        ensures
            final(self).wf(),
            r == all_possible(old(self)@, effect_views(effects@)),
            r ==> final(self)@ == all_performed(old(self)@, effect_views(effects@)),
    {
        let ghost all = effect_views(effects@);
        let ghost begin = self@;
        let mut i: usize = 0;
        proof {
            assert(all.take(0) =~= Seq::empty());
        }
        while i < effects.len()
            invariant
                i <= effects@.len(),
                all == effect_views(effects@),
                all.len() == effects@.len(),
                self.wf(),
                begin == old(self)@,
                all_possible(begin, all.take(i as int)),
                self@ == all_performed(begin, all.take(i as int)),
            decreases effects@.len() - i,
        {
            proof {
                assert(all.take(i + 1).drop_last() =~= all.take(i as int));
                assert(all.take(i + 1).last() == effects@[i as int]@);
            }
            if !self.perform(&effects[i]) {
                proof {
                    if all_possible(begin, all) {
                        lemma_possible_prefix(begin, all, i + 1);
                    }
                }
                return false;
            }
            i += 1;
        }
        proof {
            assert(all.take(i as int) =~= all);
        }
        true
    }

    /// Every file, for a log to be opened on.
    pub fn files(&self) -> (r: Vec<SegmentFile>)
        requires
            self.wf(),
        ensures
            disk_of(file_views(r@)) == self@,
            distinct(file_views(r@)),
    {
        let mut r: Vec<SegmentFile> = Vec::new();
        let ghost all = file_views(self.files@);
        let mut i: usize = 0;
        while i < self.files.len()
            invariant
                i <= self.files@.len(),
                all == file_views(self.files@),
                file_views(r@) == all.take(i as int),
            decreases self.files@.len() - i,
        {
            let copy = SegmentFile {
                name: self.files[i].name.clone(),
                bytes: self.copy_at(i),
            };
            let ghost before = file_views(r@);
            r.push(copy);
            proof {
                assert(file_views(r@) =~= before.push(copy@));
                assert(all[i as int] == self.files@[i as int]@);
                assert(all.take(i + 1) =~= all.take(i as int).push(all[i as int]));
            }
            i += 1;
        }
        proof {
            assert(all.take(i as int) =~= all);
        }
        r
    }
}

/// Effects that can be carried out in one go can be carried out in two.
pub proof fn lemma_possible_in_turn(disk: Disk, a: Seq<EffectView>, b: Seq<EffectView>)
    ensures
        all_possible(disk, a + b) == (all_possible(disk, a) && all_possible(
            all_performed(disk, a),
            b,
        )),
    decreases b.len(),
{
    if b.len() == 0 {
        assert(a + b =~= a);
    } else {
        lemma_possible_in_turn(disk, a, b.drop_last());
        lemma_performed_in_turn(disk, a, b.drop_last());
        assert((a + b).drop_last() =~= a + b.drop_last());
    }
}

proof fn lemma_possible_prefix(disk: Disk, effects: Seq<EffectView>, n: int)
    requires
        0 <= n <= effects.len(),
        all_possible(disk, effects),
    ensures
        all_possible(disk, effects.take(n)),
    decreases effects.len() - n,
{
    if n == effects.len() {
        assert(effects.take(n) =~= effects);
    } else {
        lemma_possible_prefix(disk, effects, n + 1);
        assert(effects.take(n + 1).drop_last() =~= effects.take(n));
    }
}

} // verus!
