//! What the partitions directory holds, as far as the partition manager
//! looks at it: for each partition number, which of its three files exist
//! and what the sidecar says. Changes are made to this picture and written
//! down in a journal; whoever holds the real directory carries the journal
//! out, in its order.

use vstd::prelude::*;
use vstd::string::*;
use crate::partition::meta::{Partition, PartitionError, PartitionView};
use crate::partition::names::{parse_file_name, parsed_name, FileKind};
use crate::text::str_eq;

verus! {

/// What is known of a sidecar.
pub enum SidecarView {
    /// There is no sidecar.
    Absent,
    /// There is a sidecar, and it cannot be read.
    Unreadable,
    /// There is a sidecar, and it says this.
    Holds(PartitionView),
}

/// The files of one partition number.
pub struct FilesView {
    /// The data file under its temporary name exists.
    pub tmp: bool,
    /// The data file under its final name exists.
    pub data: bool,
    pub meta: SidecarView,
}

/// No file at all.
pub open spec fn no_files() -> FilesView {
    FilesView { tmp: false, data: false, meta: SidecarView::Absent }
}

/// True when the file of `kind` exists.
pub open spec fn present(files: FilesView, kind: FileKind) -> bool {
    match kind {
        FileKind::Data => files.data,
        FileKind::DataTmp => files.tmp,
        FileKind::Meta => !(files.meta is Absent),
    }
}

/// True when the data file exists and its sidecar cannot be read.
pub open spec fn unreadable(files: FilesView) -> bool {
    files.data && files.meta is Unreadable
}

/// True when the data file and a readable sidecar exist.
pub open spec fn is_committed(files: FilesView) -> bool {
    files.data && files.meta is Holds
}

/// What a numbered run of sidecars says.
pub open spec fn numbered_views(list: Seq<(usize, Partition)>) -> Seq<(usize, PartitionView)> {
    list.map_values(|entry: (usize, Partition)| (entry.0, entry.1@))
}

/// `list` holds the committed partitions of `files`, each once, by ascending
/// number.
pub open spec fn lists_committed(
    files: Map<usize, FilesView>,
    list: Seq<(usize, PartitionView)>,
) -> bool {
    &&& forall|i: int, j: int|
        0 <= i < j < list.len() ==> (#[trigger] list[i]).0 < (#[trigger] list[j]).0
    &&& forall|i: int|
        0 <= i < list.len() ==> (#[trigger] files[list[i].0]).data && files[list[i].0].meta
            == SidecarView::Holds(list[i].1)
    &&& forall|id: usize|
        is_committed(#[trigger] files[id]) ==> exists|i: int|
            0 <= i < list.len() && (#[trigger] list[i]).0 == id
}

/// One change to the directory.
pub enum OpView {
    WriteData { id: usize, bytes: Seq<u8> },
    WriteMeta { id: usize, meta: PartitionView },
    Promote { id: usize },
    Remove { id: usize, kind: FileKind },
}

/// One change to the directory, to be carried out on the real one.
#[derive(Debug, PartialEq)]
pub enum DirOp {
    /// Write `bytes` to the temporary data file of partition `id`, and sync.
    WriteData { id: usize, bytes: Vec<u8> },
    /// Write `meta` to the sidecar of partition `id`, and sync.
    WriteMeta { id: usize, meta: Partition },
    /// Rename the temporary data file of partition `id` to its final name.
    Promote { id: usize },
    /// Remove the file of `kind` of partition `id`; that it is gone already
    /// is no error.
    Remove { id: usize, kind: FileKind },
}

impl View for DirOp {
    type V = OpView;

    open spec fn view(&self) -> OpView {
        match self {
            DirOp::WriteData { id, bytes } => OpView::WriteData { id: *id, bytes: bytes@ },
            DirOp::WriteMeta { id, meta } => OpView::WriteMeta { id: *id, meta: meta@ },
            DirOp::Promote { id } => OpView::Promote { id: *id },
            DirOp::Remove { id, kind } => OpView::Remove { id: *id, kind: *kind },
        }
    }
}

/// What a run of changes says.
pub open spec fn op_views(ops: Seq<DirOp>) -> Seq<OpView> {
    ops.map_values(|op: DirOp| op@)
}

enum Sidecar {
    Absent,
    Unreadable,
    Holds(Partition),
}

struct Slot {
    id: usize,
    tmp: bool,
    data: bool,
    meta: Sidecar,
}

struct SlotView {
    id: usize,
    files: FilesView,
}

spec fn sidecar_view(meta: Sidecar) -> SidecarView {
    match meta {
        Sidecar::Absent => SidecarView::Absent,
        Sidecar::Unreadable => SidecarView::Unreadable,
        Sidecar::Holds(partition) => SidecarView::Holds(partition@),
    }
}

spec fn slot_view(slot: Slot) -> SlotView {
    SlotView {
        id: slot.id,
        files: FilesView { tmp: slot.tmp, data: slot.data, meta: sidecar_view(slot.meta) },
    }
}

/// The number of leading slots with a number below `id`.
spec fn place(slots: Seq<SlotView>, id: usize) -> nat
    decreases slots.len(),
{
    if slots.len() == 0 || slots[0].id >= id {
        0
    } else {
        1 + place(slots.drop_first(), id)
    }
}

spec fn files_at(slots: Seq<SlotView>, id: usize) -> FilesView {
    let at = place(slots, id) as int;
    if at < slots.len() && slots[at].id == id {
        slots[at].files
    } else {
        no_files()
    }
}

spec fn ordered(slots: Seq<SlotView>) -> bool {
    forall|i: int, j: int|
        0 <= i < j < slots.len() ==> (#[trigger] slots[i]).id < (#[trigger] slots[j]).id
}

proof fn lemma_place(slots: Seq<SlotView>, id: usize)
    ensures
        place(slots, id) <= slots.len(),
        forall|j: int| 0 <= j < place(slots, id) ==> (#[trigger] slots[j]).id < id,
        place(slots, id) < slots.len() ==> slots[place(slots, id) as int].id >= id,
    decreases slots.len(),
{
    if slots.len() == 0 || slots[0].id >= id {
    } else {
        let rest = slots.drop_first();
        lemma_place(rest, id);
        assert forall|j: int| 0 <= j < place(slots, id) implies (#[trigger] slots[j]).id < id by {
            if j > 0 {
                assert(slots[j] == rest[j - 1]);
            }
        }
    }
}

proof fn lemma_place_is(slots: Seq<SlotView>, id: usize, i: int)
    requires
        0 <= i <= slots.len(),
        forall|j: int| 0 <= j < i ==> (#[trigger] slots[j]).id < id,
        i < slots.len() ==> slots[i].id >= id,
    ensures
        place(slots, id) == i,
    decreases slots.len(),
{
    if slots.len() == 0 || slots[0].id >= id {
        if i > 0 {
            assert(slots[0].id < id);
        }
    } else {
        let rest = slots.drop_first();
        assert forall|j: int| 0 <= j < i - 1 implies (#[trigger] rest[j]).id < id by {
            assert(rest[j] == slots[j + 1]);
        }
        lemma_place_is(rest, id, i - 1);
    }
}

/// Changing the files of one slot changes what is found under its number,
/// and nothing else.
proof fn lemma_update(slots: Seq<SlotView>, at: int, files: FilesView, other: usize)
    requires
        ordered(slots),
        0 <= at < slots.len(),
    ensures
        ordered(slots.update(at, SlotView { id: slots[at].id, files })),
        files_at(slots.update(at, SlotView { id: slots[at].id, files }), other) == if other
            == slots[at].id {
            files
        } else {
            files_at(slots, other)
        },
{
    let after = slots.update(at, SlotView { id: slots[at].id, files });
    lemma_place(slots, other);
    let found = place(slots, other) as int;
    assert forall|j: int| 0 <= j < found implies (#[trigger] after[j]).id < other by {
        assert(after[j].id == slots[j].id);
    }
    lemma_place_is(after, other, found);
    if found < slots.len() && found != at && slots[found].id == other {
        assert(slots[found].id != slots[at].id);
    }
    if other == slots[at].id {
        lemma_place_is(slots, other, at);
    }
}

/// A new slot without files changes nothing that is found.
proof fn lemma_insert_empty(slots: Seq<SlotView>, id: usize, other: usize)
    requires
        ordered(slots),
        !(place(slots, id) < slots.len() && slots[place(slots, id) as int].id == id),
    ensures
        ordered(slots.insert(place(slots, id) as int, SlotView { id, files: no_files() })),
        place(slots.insert(place(slots, id) as int, SlotView { id, files: no_files() }), id)
            == place(slots, id),
        files_at(slots.insert(place(slots, id) as int, SlotView { id, files: no_files() }), other)
            == files_at(slots, other),
{
    lemma_place(slots, id);
    lemma_place(slots, other);
    let at = place(slots, id) as int;
    let found = place(slots, other) as int;
    let after = slots.insert(at, SlotView { id, files: no_files() });
    assert forall|i: int, j: int| 0 <= i < j < after.len() implies (#[trigger] after[i]).id < (
    #[trigger] after[j]).id by {
        if j < at {
            assert(after[i] == slots[i] && after[j] == slots[j]);
        } else if j == at {
            assert(after[i] == slots[i]);
        } else if i < at {
            assert(after[i] == slots[i] && after[j] == slots[j - 1]);
            assert(slots[at].id >= id);
            if j - 1 > at {
                assert(slots[at].id < slots[j - 1].id);
            }
        } else if i == at {
            assert(after[j] == slots[j - 1]);
            if j - 1 > at {
                assert(slots[at].id < slots[j - 1].id);
            }
        } else {
            assert(after[i] == slots[i - 1] && after[j] == slots[j - 1]);
        }
    }
    assert forall|j: int| 0 <= j < at implies (#[trigger] after[j]).id < id by {
        assert(after[j] == slots[j]);
    }
    lemma_place_is(after, id, at);
    if other < id {
        assert(found <= at) by {
            if found > at {
                assert(slots[at].id < other);
            }
        }
        assert forall|j: int| 0 <= j < found implies (#[trigger] after[j]).id < other by {
            assert(after[j] == slots[j]);
        }
        if found < at {
            assert(after[found] == slots[found]);
        }
        lemma_place_is(after, other, found);
    } else if other > id {
        assert(found >= at) by {
            if found < at {
                assert(slots[found].id < id);
            }
        }
        assert forall|j: int| 0 <= j < found + 1 implies (#[trigger] after[j]).id < other by {
            if j < at {
                assert(after[j] == slots[j]);
            } else if j > at {
                assert(after[j] == slots[j - 1]);
            }
        }
        if found < slots.len() {
            assert(after[found + 1] == slots[found]);
        }
        lemma_place_is(after, other, found + 1);
    }
}

/// The picture of the partitions directory and the journal of the changes
/// made to it.
pub struct PartitionDir {
    slots: Vec<Slot>,
    journal: Vec<DirOp>,
}

impl PartitionDir {
    closed spec fn slot_views(&self) -> Seq<SlotView> {
        self.slots@.map_values(|slot: Slot| slot_view(slot))
    }

    /// The files of every partition number.
    pub closed spec fn files(&self) -> Map<usize, FilesView> {
        Map::new(|id: usize| true, |id: usize| files_at(self.slot_views(), id))
    }

    /// The changes that were made and not handed out yet, in their order.
    pub closed spec fn journal(&self) -> Seq<OpView> {
        op_views(self.journal@)
    }

    /// What holds of every value that the functions of the type hand out.
    pub closed spec fn wf(&self) -> bool {
        ordered(self.slot_views())
    }

    /// Every number has its files, if none.
    pub proof fn lemma_files_total(&self)
        ensures
            forall|id: usize| self.files().dom().contains(id),
    {
    }

    /// An empty directory.
    pub fn new() -> (dir: PartitionDir)
        ensures
            dir.wf(),
            dir.files() == Map::new(|id: usize| true, |id: usize| no_files()),
            dir.journal() == Seq::<OpView>::empty(),
    {
        let dir = PartitionDir { slots: Vec::new(), journal: Vec::new() };
        assert(dir.slot_views() =~= Seq::empty());
        assert(dir.files() =~= Map::new(|id: usize| true, |id: usize| no_files()));
        assert(dir.journal() =~= Seq::empty());
        dir
    }

    fn locate(&self, id: usize) -> (at: usize)
        ensures
            at == place(self.slot_views(), id),
            at <= self.slots@.len(),
    {
        let mut at: usize = 0;
        while at < self.slots.len() && self.slots[at].id < id
            invariant
                at <= self.slots@.len(),
                forall|j: int| 0 <= j < at ==> (#[trigger] self.slot_views()[j]).id < id,
            decreases self.slots@.len() - at,
        {
            at = at + 1;
        }
        proof {
            lemma_place_is(self.slot_views(), id, at as int);
        }
        at
    }

    /// The index of the slot of `id`, which is made if need be.
    fn slot(&mut self, id: usize) -> (at: usize)
        requires
            old(self).wf(),
        ensures
            final(self).wf(),
            final(self).files() == old(self).files(),
            final(self).journal() == old(self).journal(),
            at < final(self).slots@.len(),
            final(self).slot_views()[at as int].id == id,
            final(self).slot_views()[at as int].files == old(self).files()[id],
    {
        let at: usize = self.locate(id);
        if at < self.slots.len() && self.slots[at].id == id {
            return at;
        }
        let ghost before = self.slot_views();
        self.slots.insert(at, Slot { id, tmp: false, data: false, meta: Sidecar::Absent });
        proof {
            assert(self.slot_views() =~= before.insert(
                at as int,
                SlotView { id, files: no_files() },
            ));
            lemma_insert_empty(before, id, id);
            assert forall|other: usize| files_at(self.slot_views(), other) == files_at(
                before,
                other,
            ) by {
                lemma_insert_empty(before, id, other);
            }
            assert(self.files() =~= old(self).files());
        }
        at
    }

    /// True when the file of `kind` of partition `id` exists.
    pub fn has_file(&self, id: usize, kind: FileKind) -> (found: bool)
        ensures
            found == present(self.files()[id], kind),
    {
        let at: usize = self.locate(id);
        if at < self.slots.len() && self.slots[at].id == id {
            match kind {
                FileKind::Data => self.slots[at].data,
                FileKind::DataTmp => self.slots[at].tmp,
                FileKind::Meta => match &self.slots[at].meta {
                    Sidecar::Absent => false,
                    _ => true,
                },
            }
        } else {
            false
        }
    }

    /// What the sidecar of partition `id` says.
    pub fn load_meta(&self, id: usize) -> (meta: Result<Partition, PartitionError>)
        ensures
            match self.files()[id].meta {
                SidecarView::Holds(partition) => meta matches Ok(copy) && copy@ == partition,
                SidecarView::Unreadable => meta matches Err(e) && e == PartitionError::InvalidData,
                SidecarView::Absent => meta matches Err(e) && e == PartitionError::NotFound,
            },
    {
        let at: usize = self.locate(id);
        if at < self.slots.len() && self.slots[at].id == id {
            match &self.slots[at].meta {
                Sidecar::Holds(partition) => Ok(partition.duplicate()),
                Sidecar::Unreadable => Err(PartitionError::InvalidData),
                Sidecar::Absent => Err(PartitionError::NotFound),
            }
        } else {
            Err(PartitionError::NotFound)
        }
    }

    /// Takes note of one file that the real directory holds. A name that is
    /// not that of a partition file is passed over. `meta` is what a sidecar
    /// says, or `None` where the file is no sidecar or cannot be read.
    pub fn record(&mut self, file_name: &str, meta: Option<Partition>)
        requires
            old(self).wf(),
        ensures
            final(self).wf(),
            final(self).journal() == old(self).journal(),
            final(self).files() == match parsed_name(file_name.spec_bytes()) {
                None => old(self).files(),
                Some((id, suffix)) => {
                    let files = old(self).files()[id];
                    old(self).files().insert(
                        id,
                        if vstd::utf8::decode_utf8(suffix) == "data"@ {
                            FilesView { tmp: files.tmp, data: true, meta: files.meta }
                        } else if vstd::utf8::decode_utf8(suffix) == "data-tmp"@ {
                            FilesView { tmp: true, data: files.data, meta: files.meta }
                        } else {
                            FilesView {
                                tmp: files.tmp,
                                data: files.data,
                                meta: match meta {
                                    Some(partition) => SidecarView::Holds(partition@),
                                    None => SidecarView::Unreadable,
                                },
                            }
                        },
                    )
                },
            },
    {
        match parse_file_name(file_name) {
            None => {},
            Some((id, suffix)) => {
                proof {
                    crate::text::lemma_text_of_bytes(suffix);
                }
                let at: usize = self.slot(id);
                let ghost before = self.slot_views();
                if str_eq(suffix, "data") {
                    self.slots[at].data = true;
                } else if str_eq(suffix, "data-tmp") {
                    self.slots[at].tmp = true;
                } else {
                    match meta {
                        Some(partition) => {
                            self.slots[at].meta = Sidecar::Holds(partition);
                        },
                        None => {
                            self.slots[at].meta = Sidecar::Unreadable;
                        },
                    }
                }
                proof {
                    self.lemma_changed(before, at as int);
                }
            },
        }
    }

    /// After a change to the slot at `at`, the files of its number are those
    /// of the slot, and all others are as before.
    proof fn lemma_changed(&self, before: Seq<SlotView>, at: int)
        requires
            ordered(before),
            0 <= at < before.len(),
            self.slot_views().len() == before.len(),
            self.slot_views()[at].id == before[at].id,
            forall|j: int| 0 <= j < before.len() && j != at ==> self.slot_views()[j] == before[j],
        ensures
            self.wf(),
            self.files() == Map::new(|id: usize| true, |id: usize| files_at(before, id)).insert(
                before[at].id,
                self.slot_views()[at].files,
            ),
    {
        let files = self.slot_views()[at].files;
        let after = before.update(at, SlotView { id: before[at].id, files });
        assert(self.slot_views() =~= after);
        lemma_update(before, at, files, before[at].id);
        assert forall|other: usize| files_at(after, other) == if other == before[at].id {
            files
        } else {
            files_at(before, other)
        } by {
            lemma_update(before, at, files, other);
        }
        assert(self.files() =~= Map::new(|id: usize| true, |id: usize| files_at(before, id)).insert(
            before[at].id,
            files,
        ));
    }

    /// Writes the temporary data file of partition `id`.
    pub fn write_data(&mut self, id: usize, bytes: Vec<u8>)
        requires
            old(self).wf(),
        ensures
            final(self).wf(),
            final(self).files() == old(self).files().insert(
                id,
                FilesView {
                    tmp: true,
                    data: old(self).files()[id].data,
                    meta: old(self).files()[id].meta,
                },
            ),
            final(self).journal() == old(self).journal().push(OpView::WriteData { id, bytes: bytes@ }),
    {
        let at: usize = self.slot(id);
        let ghost before = self.slot_views();
        self.slots[at].tmp = true;
        proof {
            self.lemma_changed(before, at as int);
        }
        let ghost listed = self.journal@;
        self.journal.push(DirOp::WriteData { id, bytes });
        assert(op_views(self.journal@) =~= op_views(listed).push(OpView::WriteData { id, bytes: bytes@ }));
    }

    /// Writes the sidecar of partition `id`.
    pub fn write_meta(&mut self, id: usize, meta: Partition)
        requires
            old(self).wf(),
        ensures
            final(self).wf(),
            final(self).files() == old(self).files().insert(
                id,
                FilesView {
                    tmp: old(self).files()[id].tmp,
                    data: old(self).files()[id].data,
                    meta: SidecarView::Holds(meta@),
                },
            ),
            final(self).journal() == old(self).journal().push(OpView::WriteMeta { id, meta: meta@ }),
    {
        let at: usize = self.slot(id);
        let ghost before = self.slot_views();
        let copy: Partition = meta.duplicate();
        self.slots[at].meta = Sidecar::Holds(copy);
        proof {
            self.lemma_changed(before, at as int);
        }
        let ghost listed = self.journal@;
        self.journal.push(DirOp::WriteMeta { id, meta });
        assert(op_views(self.journal@) =~= op_views(listed).push(OpView::WriteMeta { id, meta: meta@ }));
    }

    /// Gives the temporary data file of partition `id` its final name, in
    /// place of a data file that may be there. Fails when there is no
    /// temporary data file.
    pub fn promote(&mut self, id: usize) -> (done: Result<(), PartitionError>)
        requires
            old(self).wf(),
        ensures
            final(self).wf(),
            old(self).files()[id].tmp ==> done is Ok && final(self).files() == old(
                self,
            ).files().insert(
                id,
                FilesView { tmp: false, data: true, meta: old(self).files()[id].meta },
            ) && final(self).journal() == old(self).journal().push(OpView::Promote { id }),
            !old(self).files()[id].tmp ==> done == Err::<(), PartitionError>(
                PartitionError::NotFound,
            ) && final(self).files() == old(self).files() && final(self).journal() == old(
                self,
            ).journal(),
    {
        if !self.has_file(id, FileKind::DataTmp) {
            return Err(PartitionError::NotFound);
        }
        let at: usize = self.slot(id);
        let ghost before = self.slot_views();
        self.slots[at].tmp = false;
        self.slots[at].data = true;
        proof {
            self.lemma_changed(before, at as int);
        }
        let ghost listed = self.journal@;
        self.journal.push(DirOp::Promote { id });
        assert(op_views(self.journal@) =~= op_views(listed).push(OpView::Promote { id }));
        Ok(())
    }

    /// Removes the file of `kind` of partition `id`, if it is there.
    pub fn remove(&mut self, id: usize, kind: FileKind)
        requires
            old(self).wf(),
        ensures
            final(self).wf(),
            final(self).files() == old(self).files().insert(
                id,
                match kind {
                    FileKind::Data => FilesView {
                        tmp: old(self).files()[id].tmp,
                        data: false,
                        meta: old(self).files()[id].meta,
                    },
                    FileKind::DataTmp => FilesView {
                        tmp: false,
                        data: old(self).files()[id].data,
                        meta: old(self).files()[id].meta,
                    },
                    FileKind::Meta => FilesView {
                        tmp: old(self).files()[id].tmp,
                        data: old(self).files()[id].data,
                        meta: SidecarView::Absent,
                    },
                },
            ),
            final(self).journal() == old(self).journal().push(OpView::Remove { id, kind }),
    {
        let at: usize = self.slot(id);
        let ghost before = self.slot_views();
        match kind {
            FileKind::Data => {
                self.slots[at].data = false;
            },
            FileKind::DataTmp => {
                self.slots[at].tmp = false;
            },
            FileKind::Meta => {
                self.slots[at].meta = Sidecar::Absent;
            },
        }
        proof {
            self.lemma_changed(before, at as int);
        }
        let ghost listed = self.journal@;
        self.journal.push(DirOp::Remove { id, kind });
        assert(op_views(self.journal@) =~= op_views(listed).push(OpView::Remove { id, kind }));
    }

    /// The committed partitions, by ascending number: those whose data file
    /// and sidecar both exist. Fails when the sidecar of a data file cannot
    /// be read; a sidecar without a data file is not looked at.
    pub fn committed(&self) -> (list: Result<Vec<(usize, Partition)>, PartitionError>)
        requires
            self.wf(),
        ensures
            list is Err <==> exists|id: usize| unreadable(#[trigger] self.files()[id]),
            list matches Err(e) ==> e == PartitionError::InvalidData,
            list matches Ok(found) ==> lists_committed(self.files(), numbered_views(found@)),
    {
        let mut found: Vec<(usize, Partition)> = Vec::new();
        let ghost slots = self.slot_views();
        let mut k: usize = 0;
        while k < self.slots.len()
            invariant
                k <= self.slots@.len(),
                slots == self.slot_views(),
                ordered(slots),
                forall|j: int| 0 <= j < k ==> !unreadable((#[trigger] slots[j]).files),
                forall|i: int, j: int|
                    0 <= i < j < found@.len() ==> (#[trigger] found@[i]).0 < (
                    #[trigger] found@[j]).0,
                forall|i: int|
                    0 <= i < found@.len() ==> exists|j: int|
                        0 <= j < k && slots[j].id == (#[trigger] found@[i]).0 && slots[j].files.data
                            && slots[j].files.meta == SidecarView::Holds(found@[i].1@),
                forall|j: int|
                    0 <= j < k && is_committed((#[trigger] slots[j]).files) ==> exists|i: int|
                        0 <= i < found@.len() && found@[i].0 == slots[j].id,
            decreases self.slots@.len() - k,
        {
            let ghost listed = found@;
            match &self.slots[k].meta {
                Sidecar::Unreadable => {
                    if self.slots[k].data {
                        proof {
                            lemma_place_is(slots, slots[k as int].id, k as int);
                            assert(unreadable(self.files()[slots[k as int].id]));
                        }
                        return Err(PartitionError::InvalidData);
                    }
                },
                Sidecar::Holds(partition) => {
                    if self.slots[k].data {
                        found.push((self.slots[k].id, partition.duplicate()));
                        proof {
                            assert forall|i: int, j: int| 0 <= i < j < found@.len() implies (
                            #[trigger] found@[i]).0 < (#[trigger] found@[j]).0 by {
                                if j == listed.len() {
                                    assert(found@[i] == listed[i]);
                                    let w = choose|w: int|
                                        0 <= w < k && slots[w].id == listed[i].0;
                                    assert(slots[w].id < slots[k as int].id);
                                }
                            }
                            assert forall|i: int| 0 <= i < found@.len() implies exists|j: int|
                                0 <= j < k + 1 && slots[j].id == (#[trigger] found@[i]).0
                                    && slots[j].files.data && slots[j].files.meta
                                    == SidecarView::Holds(found@[i].1@) by {
                                if i < listed.len() {
                                    assert(found@[i] == listed[i]);
                                    let w = choose|w: int|
                                        0 <= w < k && slots[w].id == listed[i].0
                                            && slots[w].files.data && slots[w].files.meta
                                            == SidecarView::Holds(listed[i].1@);
                                    assert(0 <= w < k + 1);
                                } else {
                                    assert(slots[k as int].id == found@[i].0);
                                }
                            }
                            assert forall|j: int|
                                0 <= j < k + 1 && is_committed(
                                    (#[trigger] slots[j]).files,
                                ) implies exists|i: int|
                                0 <= i < found@.len() && found@[i].0 == slots[j].id by {
                                if j < k {
                                    let w = choose|w: int|
                                        0 <= w < listed.len() && listed[w].0 == slots[j].id;
                                    assert(found@[w] == listed[w]);
                                } else {
                                    assert(found@[listed.len() as int].0 == slots[j].id);
                                }
                            }
                        }
                    }
                },
                Sidecar::Absent => {},
            }
            k = k + 1;
        }
        proof {
            let list = numbered_views(found@);
            assert forall|id: usize| !unreadable(#[trigger] self.files()[id]) by {
                lemma_place(slots, id);
            }
            assert forall|i: int| 0 <= i < list.len() implies {
                &&& (#[trigger] self.files()[list[i].0]).data
                &&& self.files()[list[i].0].meta == SidecarView::Holds(list[i].1)
            } by {
                let w = choose|w: int|
                    0 <= w < k && slots[w].id == found@[i].0 && slots[w].files.data
                        && slots[w].files.meta == SidecarView::Holds(found@[i].1@);
                lemma_place_is(slots, slots[w].id, w);
            }
            assert forall|id: usize| is_committed(#[trigger] self.files()[id]) implies exists|
                i: int,
            |
                0 <= i < list.len() && (#[trigger] list[i]).0 == id by {
                lemma_place(slots, id);
                let at = place(slots, id) as int;
                let w = choose|w: int| 0 <= w < found@.len() && found@[w].0 == slots[at].id;
                assert(list[w].0 == id);
            }
        }
        Ok(found)
    }

    /// Hands out the journal and starts a new one.
    pub fn take_journal(&mut self) -> (ops: Vec<DirOp>)
        requires
            old(self).wf(),
        ensures
            final(self).wf(),
            final(self).files() == old(self).files(),
            final(self).journal() == Seq::<OpView>::empty(),
            op_views(ops@) == old(self).journal(),
    {
        let mut ops: Vec<DirOp> = Vec::new();
        core::mem::swap(&mut self.journal, &mut ops);
        assert(op_views(self.journal@) =~= Seq::empty());
        ops
    }
}

} // verus!
