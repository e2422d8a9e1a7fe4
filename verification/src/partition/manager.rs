//! The partition manager: which partitions are committed, and the steps by
//! which a new one becomes so.
//!
//! A partition is committed once its data file and its sidecar both exist.
//! The data is written under a temporary name first, then the sidecar, and
//! last the data file gets its final name. A temporary data file with a
//! sidecar is what an interrupted commit leaves behind: the next roll
//! completes it. A temporary data file without a sidecar is removed.

use vstd::prelude::*;
use vstd::string::*;
use crate::partition::codec::{describes, files_view, packs, wrote, PartitionWriter};
use crate::partition::dir::{unreadable, 
    is_committed, lists_committed, no_files, numbered_views, DirOp, FilesView, OpView,
    PartitionDir, SidecarView,
};
use crate::partition::meta::{Partition, PartitionError, PartitionView};
use crate::partition::names::{parse_file_name, parsed_name, partition_file, file_name, FileKind};
use crate::storage::{MetricsData, PointView};

verus! {

/// A named place in the roll at which a test can make it fail.
#[derive(Clone, Copy, Debug, PartialEq, Eq, Structural)]
pub enum FailPoint {
    /// Before the partition body is written.
    WriteMetaStep,
    /// After the sidecar is written, before the data file gets its final
    /// name.
    RenameStep,
}

/// What a partition manager holds.
pub struct ManagerView {
    pub partitions_dir: Seq<char>,
    pub last_partition_id: usize,
    pub partitions: Seq<PartitionView>,
    pub files: Map<usize, FilesView>,
    pub journal: Seq<OpView>,
    pub failpoint: Option<FailPoint>,
}

/// What a run of sidecars says.
pub open spec fn partition_views(partitions: Seq<Partition>) -> Seq<PartitionView> {
    partitions.map_values(|p: Partition| p@)
}

/// The sidecars of a numbered list.
pub open spec fn sidecars(list: Seq<(usize, PartitionView)>) -> Seq<PartitionView> {
    list.map_values(|entry: (usize, PartitionView)| entry.1)
}

/// Every partition number has its files, if none.
pub open spec fn total(files: Map<usize, FilesView>) -> bool {
    forall|id: usize| files.dom().contains(id)
}

/// The three removals that clear a partition number.
pub open spec fn removals(id: usize) -> Seq<OpView> {
    seq![
        OpView::Remove { id, kind: FileKind::DataTmp },
        OpView::Remove { id, kind: FileKind::Data },
        OpView::Remove { id, kind: FileKind::Meta },
    ]
}

/// The first part of a roll: what earlier rolls left behind under the next
/// numbers is completed or removed. Returns the manager afterwards and the
/// error that ended the roll, if one did.
pub open spec fn recover(m: ManagerView) -> (ManagerView, Option<PartitionError>)
    decreases usize::MAX - m.last_partition_id,
{
    if m.last_partition_id >= usize::MAX {
        (m, Some(PartitionError::Exhausted))
    } else {
        let next = (m.last_partition_id + 1) as usize;
        let found = m.files[next];
        if !found.tmp {
            (m, None)
        } else if found.meta is Absent {
            (
                ManagerView {
                    partitions_dir: m.partitions_dir,
                    last_partition_id: m.last_partition_id,
                    partitions: m.partitions,
                    files: m.files.insert(next, no_files()),
                    journal: m.journal + removals(next),
                    failpoint: m.failpoint,
                },
                None,
            )
        } else {
            let files = if found.data {
                m.files
            } else {
                m.files.insert(next, FilesView { tmp: false, data: true, meta: found.meta })
            };
            let journal = if found.data {
                m.journal
            } else {
                m.journal.push(OpView::Promote { id: next })
            };
            match found.meta {
                SidecarView::Holds(partition) => recover(
                    ManagerView {
                        partitions_dir: m.partitions_dir,
                        last_partition_id: next,
                        partitions: m.partitions.push(partition),
                        files,
                        journal,
                        failpoint: m.failpoint,
                    },
                ),
                _ => (
                    ManagerView {
                        partitions_dir: m.partitions_dir,
                        last_partition_id: m.last_partition_id,
                        partitions: m.partitions,
                        files,
                        journal,
                        failpoint: m.failpoint,
                    },
                    Some(PartitionError::InvalidData),
                ),
            }
        }
    }
}

/// A whole roll of a partition whose data file holds `packed` and whose
/// sidecar says `partition`: the manager afterwards, and how the roll ended.
pub open spec fn commit(m: ManagerView, packed: Seq<u8>, partition: PartitionView) -> (
    ManagerView,
    Result<(), PartitionError>,
) {
    let (r, failed) = recover(m);
    match failed {
        Some(e) => (r, Err(e)),
        None => if r.failpoint == Some(FailPoint::WriteMetaStep) {
            (r, Err(PartitionError::WriteMetaStep))
        } else {
            let next = (r.last_partition_id + 1) as usize;
            let written = ManagerView {
                partitions_dir: r.partitions_dir,
                last_partition_id: r.last_partition_id,
                partitions: r.partitions,
                files: r.files.insert(
                    next,
                    FilesView {
                        tmp: true,
                        data: r.files[next].data,
                        meta: SidecarView::Holds(partition),
                    },
                ),
                journal: r.journal.push(OpView::WriteData { id: next, bytes: packed }).push(
                    OpView::WriteMeta { id: next, meta: partition },
                ),
                failpoint: r.failpoint,
            };
            if r.failpoint == Some(FailPoint::RenameStep) {
                (written, Err(PartitionError::RenameStep))
            } else {
                (
                    ManagerView {
                        partitions_dir: r.partitions_dir,
                        last_partition_id: next,
                        partitions: r.partitions.push(partition),
                        files: r.files.insert(
                            next,
                            FilesView {
                                tmp: false,
                                data: true,
                                meta: SidecarView::Holds(partition),
                            },
                        ),
                        journal: written.journal.push(OpView::Promote { id: next }),
                        failpoint: r.failpoint,
                    },
                    Ok(()),
                )
            }
        },
    }
}

/// What a roll does to a manager once the series were written, and how it
/// ends: where the compressor has failed, nothing, with its error; else a
/// whole roll of the data file and the sidecar that were written.
pub open spec fn rolled_with(
    before: ManagerView,
    written: Result<(Seq<u8>, PartitionView), PartitionError>,
) -> (ManagerView, Result<(), PartitionError>) {
    match written {
        Ok(files) => commit(before, files.0, files.1),
        Err(e) => (before, Err(e)),
    }
}

/// What `roll_new_partition` does to a manager for the series `entries`,
/// with the compressor at `level`: the series are written as `wrote` says,
/// and what was written is rolled as `rolled_with` says.
pub open spec fn rolls_at(
    before: ManagerView,
    entries: Seq<(Seq<char>, Seq<PointView>)>,
    level: i32,
    after: ManagerView,
    result: Result<(), PartitionError>,
) -> bool {
    exists|written: Result<(Seq<u8>, PartitionView), PartitionError>|
        wrote(entries, level, written) && #[trigger] rolled_with(before, written) == (after, result)
}

/// What `roll_new_partition` does to a manager for the series `entries`: a
/// roll at the level that the compressor works at.
pub open spec fn rolls(
    before: ManagerView,
    entries: Seq<(Seq<char>, Seq<PointView>)>,
    after: ManagerView,
    result: Result<(), PartitionError>,
) -> bool {
    exists|level: i32| #[trigger] rolls_at(before, entries, level, after, result)
}

/// Keeps the list of the committed partitions and leads new ones through
/// their commit.
pub struct PartitionManager {
    pub partitions_dir: String,
    pub last_partition_id: usize,
    pub partitions: Vec<Partition>,
    dir: PartitionDir,
    failpoint: Option<FailPoint>,
}

impl View for PartitionManager {
    type V = ManagerView;

    closed spec fn view(&self) -> ManagerView {
        ManagerView {
            partitions_dir: self.partitions_dir@,
            last_partition_id: self.last_partition_id,
            partitions: partition_views(self.partitions@),
            files: self.dir.files(),
            journal: self.dir.journal(),
            failpoint: self.failpoint,
        }
    }
}

impl PartitionManager {
    /// What holds of every value that the functions of the type hand out.
    pub closed spec fn wf(&self) -> bool {
        self.dir.wf()
    }

    /// The committed partitions, by ascending number: what the field
    /// `partitions` holds, for a caller that works with the view.
    pub fn committed_partitions(&self) -> (partitions: &Vec<Partition>)
        ensures
            partition_views(partitions@) == self@.partitions,
    {
        &self.partitions
    }

    /// The number of the partition that was committed last: what the field
    /// `last_partition_id` holds.
    pub fn last_id(&self) -> (id: usize)
        ensures
            id == self@.last_partition_id,
    {
        self.last_partition_id
    }

    /// The path of the directory: what the field `partitions_dir` holds.
    pub fn path(&self) -> (path: &str)
        ensures
            path@ == self@.partitions_dir,
    {
        self.partitions_dir.as_str()
    }

    /// The view holds the files of every partition number.
    pub proof fn lemma_total(&self)
        ensures
            total(self@.files),
    {
        self.dir.lemma_files_total();
    }

    /// A manager for the directory `dir`, whose path is `partitions_dir`. It
    /// lists the committed partitions by ascending number; the last number
    /// is the highest of them, or 0. Fails when the sidecar of a data file
    /// cannot be read.
    pub fn new(partitions_dir: &str, dir: PartitionDir) -> (manager: Result<Self, PartitionError>)
        requires
            dir.wf(),
        ensures
            manager is Err <==> exists|id: usize| unreadable(#[trigger] dir.files()[id]),
            manager matches Err(e) ==> e == PartitionError::InvalidData,
            manager matches Ok(m) ==> {
                &&& m.wf()
                &&& m@.partitions_dir == partitions_dir@
                &&& m@.files == dir.files()
                &&& m@.journal == dir.journal()
                &&& m@.failpoint is None
                &&& exists|list: Seq<(usize, PartitionView)>|
                    {
                        &&& lists_committed(dir.files(), list)
                        &&& #[trigger] sidecars(list) == m@.partitions
                        &&& m@.last_partition_id == if list.len() == 0 {
                            0
                        } else {
                            list.last().0
                        }
                    }
            },
    {
        let mut manager = PartitionManager {
            partitions_dir: String::from_str(partitions_dir),
            last_partition_id: 0,
            partitions: Vec::new(),
            dir,
            failpoint: None,
        };
        let mut existing_partitions: Vec<(usize, Partition)> = match manager.list_partitions() {
            Ok(list) => list,
            Err(e) => {
                return Err(e);
            },
        };
        let ghost list = numbered_views(existing_partitions@);
        if existing_partitions.len() > 0 {
            manager.last_partition_id = existing_partitions[existing_partitions.len() - 1].0;
        }
        let mut partitions: Vec<Partition> = Vec::with_capacity(existing_partitions.len());
        let mut i: usize = 0;
        while i < existing_partitions.len()
            invariant
                i <= existing_partitions@.len(),
                partitions@.len() == i,
                forall|k: int|
                    0 <= k < i ==> (#[trigger] partitions@[k])@ == existing_partitions@[k].1@,
            decreases existing_partitions@.len() - i,
        {
            partitions.push(existing_partitions[i].1.duplicate());
            i = i + 1;
        }
        manager.partitions = partitions;
        proof {
            assert(sidecars(list) =~= partition_views(manager.partitions@));
        }
        Ok(manager)
    }

    /// The name of the data file of partition `partition_id` while it is
    /// written.
    pub fn tmp_data_file(&self, partition_id: usize) -> (name: String)
        ensures
            name@ == file_name(partition_id as nat, FileKind::DataTmp),
    {
        partition_file(partition_id, FileKind::DataTmp)
    }

    /// The name of the data file of partition `partition_id`.
    pub fn data_file(&self, partition_id: usize) -> (name: String)
        ensures
            name@ == file_name(partition_id as nat, FileKind::Data),
    {
        partition_file(partition_id, FileKind::Data)
    }

    /// The name of the sidecar of partition `partition_id`.
    pub fn meta_file(&self, partition_id: usize) -> (name: String)
        ensures
            name@ == file_name(partition_id as nat, FileKind::Meta),
    {
        partition_file(partition_id, FileKind::Meta)
    }

    /// Completes the commit of partition `partition_id` if it can be: with a
    /// sidecar, a data file is committed already, and a temporary data file
    /// gets its final name. Reports whether the partition is committed now.
    pub fn try_recover(&mut self, partition_id: usize) -> (recovered: bool)
        requires
            old(self).wf(),
        ensures
            final(self).wf(),
            final(self)@.partitions_dir == old(self)@.partitions_dir,
            final(self)@.last_partition_id == old(self)@.last_partition_id,
            final(self)@.partitions == old(self)@.partitions,
            final(self)@.failpoint == old(self)@.failpoint,
            ({
                let found = old(self)@.files[partition_id];
                &&& recovered == (!(found.meta is Absent) && (found.data || found.tmp))
                &&& if recovered && !found.data {
                    &&& final(self)@.files == old(self)@.files.insert(
                        partition_id,
                        FilesView { tmp: false, data: true, meta: found.meta },
                    )
                    &&& final(self)@.journal == old(self)@.journal.push(
                        OpView::Promote { id: partition_id },
                    )
                } else {
                    &&& final(self)@.files == old(self)@.files
                    &&& final(self)@.journal == old(self)@.journal
                }
            }),
    {
        if !self.dir.has_file(partition_id, FileKind::Meta) {
            return false;
        }
        if self.dir.has_file(partition_id, FileKind::Data) {
            true
        } else if self.dir.has_file(partition_id, FileKind::DataTmp) {
            match self.dir.promote(partition_id) {
                Ok(_) => true,
                Err(_) => false,
            }
        } else {
            false
        }
    }

    /// Removes whatever files partition `partition_id` has.
    pub fn remove_partition_if_exists(&mut self, partition_id: usize)
        requires
            old(self).wf(),
        ensures
            final(self).wf(),
            final(self)@.partitions_dir == old(self)@.partitions_dir,
            final(self)@.last_partition_id == old(self)@.last_partition_id,
            final(self)@.partitions == old(self)@.partitions,
            final(self)@.failpoint == old(self)@.failpoint,
            final(self)@.files == old(self)@.files.insert(partition_id, no_files()),
            final(self)@.journal == old(self)@.journal + removals(partition_id),
    {
        self.dir.remove(partition_id, FileKind::DataTmp);
        self.dir.remove(partition_id, FileKind::Data);
        self.dir.remove(partition_id, FileKind::Meta);
        proof {
            assert(self@.files =~= old(self)@.files.insert(partition_id, no_files()));
            assert(self@.journal =~= old(self)@.journal + removals(partition_id));
        }
    }

    /// The committed partitions of the directory, by ascending number.
    pub fn list_partitions(&self) -> (list: Result<Vec<(usize, Partition)>, PartitionError>)
        requires
            self.wf(),
        ensures
            list is Err <==> exists|id: usize| unreadable(#[trigger] self@.files[id]),
            list matches Err(e) ==> e == PartitionError::InvalidData,
            list matches Ok(found) ==> lists_committed(self@.files, numbered_views(found@)),
    {
        let list = self.dir.committed();
        proof {
            assert(self@.files == self.dir.files());
            if exists|id: usize| unreadable(#[trigger] self.dir.files()[id]) {
                let id = choose|id: usize| unreadable(#[trigger] self.dir.files()[id]);
                assert(unreadable(self@.files[id]));
            }
            if exists|id: usize| unreadable(#[trigger] self@.files[id]) {
                let id = choose|id: usize| unreadable(#[trigger] self@.files[id]);
                assert(unreadable(self.dir.files()[id]));
            }
        }
        list
    }

    /// Reads the number and the suffix out of the name of a partition file.
    pub fn parse_file_name(file_name: &str) -> (parsed: Option<(usize, &str)>)
        ensures
            match parsed_name(file_name.spec_bytes()) {
                Some((id, kind)) => parsed matches Some(found) && found.0 == id
                    && found.1.spec_bytes() == kind,
                None => parsed is None,
            },
    {
        parse_file_name(file_name)
    }

    /// Arms a fail point, or disarms it with `None`.
    pub fn set_failpoint(&mut self, failpoint: Option<FailPoint>)
        ensures
            final(self).wf() == old(self).wf(),
            final(self)@ == (ManagerView {
                partitions_dir: old(self)@.partitions_dir,
                last_partition_id: old(self)@.last_partition_id,
                partitions: old(self)@.partitions,
                files: old(self)@.files,
                journal: old(self)@.journal,
                failpoint,
            }),
    {
        self.failpoint = failpoint;
    }

    /// Hands out the changes that were made to the directory since the last
    /// call, in the order in which they are to be carried out.
    pub fn take_journal(&mut self) -> (ops: Vec<DirOp>)
        requires
            old(self).wf(),
        ensures
            final(self).wf(),
            crate::partition::dir::op_views(ops@) == old(self)@.journal,
            final(self)@ == (ManagerView {
                partitions_dir: old(self)@.partitions_dir,
                last_partition_id: old(self)@.last_partition_id,
                partitions: old(self)@.partitions,
                files: old(self)@.files,
                journal: Seq::empty(),
                failpoint: old(self)@.failpoint,
            }),
    {
        self.dir.take_journal()
    }

    /// The directory as the manager sees it.
    pub fn dir(&self) -> (dir: &PartitionDir)
        ensures
            dir.wf() == self.wf(),
            dir.files() == self@.files,
            dir.journal() == self@.journal,
    {
        &self.dir
    }

    /// Gives the directory back.
    pub fn into_dir(self) -> (dir: PartitionDir)
        ensures
            dir.wf() == self.wf(),
            dir.files() == self@.files,
            dir.journal() == self@.journal,
    {
        self.dir
    }

    /// What the sidecar of partition `partition_id` says.
    pub fn load_meta(&self, partition_id: usize) -> (meta: Result<Partition, PartitionError>)
        ensures
            match self@.files[partition_id].meta {
                SidecarView::Holds(partition) => meta matches Ok(copy) && copy@ == partition,
                SidecarView::Unreadable => meta matches Err(e) && e == PartitionError::InvalidData,
                SidecarView::Absent => meta matches Err(e) && e == PartitionError::NotFound,
            },
    {
        self.dir.load_meta(partition_id)
    }

    /// The first part of a roll; see `recover`.
    fn recover_pending(&mut self) -> (failed: Option<PartitionError>)
        requires
            old(self).wf(),
        ensures
            final(self).wf(),
            (final(self)@, failed) == recover(old(self)@),
            failed is None ==> final(self)@.last_partition_id < usize::MAX,
    {
        loop
            invariant
                self.wf(),
                recover(self@) == recover(old(self)@),
            decreases usize::MAX - self.last_partition_id,
        {
            if self.last_partition_id >= usize::MAX {
                return Some(PartitionError::Exhausted);
            }
            let next: usize = self.last_partition_id + 1;
            if !self.dir.has_file(next, FileKind::DataTmp) {
                return None;
            }
            let ghost before = self@;
            if self.try_recover(next) {
                match self.dir.load_meta(next) {
                    Ok(partition) => {
                        let ghost listed = self.partitions@;
                        self.partitions.push(partition);
                        self.last_partition_id = next;
                        proof {
                            assert(partition_views(self.partitions@) =~= partition_views(
                                listed,
                            ).push(partition@));
                        }
                    },
                    Err(e) => {
                        return Some(e);
                    },
                }
            } else {
                self.remove_partition_if_exists(next);
                return None;
            }
        }
    }

    /// Leads a partition through its commit, once its data file is at
    /// hand: completes or removes what earlier rolls left behind, writes the
    /// data under its temporary name, writes the sidecar, and gives the data
    /// file its final name. An armed fail point ends the roll at its place.
    pub fn commit_partition(&mut self, packed: Vec<u8>, partition: Partition) -> (done: Result<
        (),
        PartitionError,
    >)
        requires
            old(self).wf(),
        ensures
            final(self).wf(),
            (final(self)@, done) == commit(old(self)@, packed@, partition@),
    {
        match self.recover_pending() {
            Some(e) => {
                return Err(e);
            },
            None => {},
        }
        let ghost r = self@;
        if let Some(FailPoint::WriteMetaStep) = self.failpoint {
            return Err(PartitionError::WriteMetaStep);
        }
        let next: usize = self.last_partition_id + 1;
        let copy: Partition = partition.duplicate();
        self.dir.write_data(next, packed);
        self.dir.write_meta(next, copy);
        proof {
            assert(self@.files =~= r.files.insert(
                next,
                FilesView {
                    tmp: true,
                    data: r.files[next].data,
                    meta: SidecarView::Holds(partition@),
                },
            ));
        }
        if let Some(FailPoint::RenameStep) = self.failpoint {
            return Err(PartitionError::RenameStep);
        }
        match self.dir.promote(next) {
            Ok(_) => {},
            Err(e) => {
                return Err(e);
            },
        }
        self.last_partition_id = next;
        let ghost listed = self.partitions@;
        self.partitions.push(partition);
        proof {
            assert(partition_views(self.partitions@) =~= partition_views(listed).push(partition@));
            assert(self@.files =~= r.files.insert(
                next,
                FilesView { tmp: false, data: true, meta: SidecarView::Holds(partition@) },
            ));
        }
        Ok(())
    }

    /// Writes `metrics` as the next partition and commits it, and returns its
    /// sidecar. The data is compressed first; when the compressor fails,
    /// nothing has changed. The rest is `commit_partition`.
    pub fn roll_new_partition(&mut self, metrics: &MetricsData) -> (rolled: Result<
        &Partition,
        PartitionError,
    >)
        requires
            old(self).wf(),
            metrics.wf(),
        ensures
            final(self).wf(),
            rolls(old(self)@, metrics.entries(), final(self)@, outcome(rolled)),
            rolled matches Ok(partition) ==> final(self)@.partitions.len() > 0,
            rolled matches Ok(partition) ==> partition@ == final(self)@.partitions.last(),
            rolled matches Ok(partition) ==> described(partition@, metrics.entries()),
    {
        let written = PartitionWriter::write_partition(metrics);
        let ghost level = choose|level: i32| #[trigger]
            wrote(metrics.entries(), level, files_view(written));
        self.roll_written(written, Ghost(metrics.entries()), Ghost(level))
    }

    /// Rolls what the writer has made of the series `entries` at `level`:
    /// where it has failed, nothing changes and its error is handed on; else
    /// the data file and the sidecar are committed.
    fn roll_written(
        &mut self,
        written: Result<(Vec<u8>, Partition), PartitionError>,
        Ghost(entries): Ghost<Seq<(Seq<char>, Seq<PointView>)>>,
        Ghost(level): Ghost<i32>,
    ) -> (rolled: Result<&Partition, PartitionError>)
        requires
            old(self).wf(),
            wrote(entries, level, files_view(written)),
        ensures
            final(self).wf(),
            rolled_with(old(self)@, files_view(written)) == (final(self)@, outcome(rolled)),
            rolls_at(old(self)@, entries, level, final(self)@, outcome(rolled)),
            rolls(old(self)@, entries, final(self)@, outcome(rolled)),
            rolled matches Ok(partition) ==> final(self)@.partitions.len() > 0,
            rolled matches Ok(partition) ==> partition@ == final(self)@.partitions.last(),
            rolled matches Ok(partition) ==> described(partition@, entries),
    {
        let ghost made = files_view(written);
        let (packed, new_partition) = match written {
            Ok(files) => files,
            Err(e) => {
                proof {
                    assert(rolled_with(old(self)@, made) == (self@, Err::<(), PartitionError>(e)));
                    assert(rolls_at(old(self)@, entries, level, self@, Err::<(), PartitionError>(e)));
                }
                return Err(e);
            },
        };
        let ghost bytes = packed@;
        let ghost sidecar = new_partition@;
        let done = self.commit_partition(packed, new_partition);
        proof {
            assert(describes(bytes, sidecar, entries));
            assert(commit(old(self)@, bytes, sidecar) == (self@, done));
            assert(rolled_with(old(self)@, made) == (self@, done));
            assert(rolls_at(old(self)@, entries, level, self@, done));
        }
        match done {
            Ok(_) => {
                proof {
                    let before = recover(old(self)@).0.partitions;
                    assert(self@.partitions == before.push(sidecar));
                    assert(partition_views(self.partitions@).len() == before.len() + 1);
                    assert(partition_views(self.partitions@)[before.len() as int] == sidecar);
                    assert(self@.partitions.last() == sidecar);
                    assert(self.partitions@[self.partitions@.len() - 1]@ == sidecar);
                    assert(describes(
                        bytes,
                        self.partitions@[self.partitions@.len() - 1]@,
                        entries,
                    ));
                }
                let last: usize = self.partitions.len() - 1;
                let rolled: &Partition = &self.partitions[last];
                proof {
                    assert(rolled@ == sidecar);
                    assert(describes(bytes, rolled@, entries));
                    assert(described(rolled@, entries));
                }
                Ok(rolled)
            },
            Err(e) => Err(e),
        }
    }
}

/// `partition` is the sidecar of some data file that holds the series
/// `entries`.
pub open spec fn described(partition: PartitionView, entries: Seq<(Seq<char>, Seq<PointView>)>) -> bool {
    exists|file: Seq<u8>| #[trigger] describes(file, partition, entries)
}

/// How a roll ended, without the sidecar that it returns.
pub open spec fn outcome(rolled: Result<&Partition, PartitionError>) -> Result<(), PartitionError> {
    match rolled {
        Ok(_) => Ok(()),
        Err(e) => Err(e),
    }
}

/// A roll does not end with the error of the compressor, which has done its
/// work before.
pub proof fn lemma_commit_errors(m: ManagerView, packed: Seq<u8>, partition: PartitionView)
    ensures
        commit(m, packed, partition).1 != Err::<(), PartitionError>(PartitionError::Codec),
{
    lemma_recover(m);
}

/// The first part of a roll ends, if with an error, with one of two. It
/// keeps the path and the fail point, and leaves no temporary data file
/// under the next number when it ends without error.
pub proof fn lemma_recover(m: ManagerView)
    ensures
        recover(m).1 matches Some(e) ==> e == PartitionError::Exhausted || e
            == PartitionError::InvalidData,
        recover(m).0.failpoint == m.failpoint,
        recover(m).0.partitions_dir == m.partitions_dir,
        total(m.files) ==> total(recover(m).0.files),
        recover(m).1 is None ==> recover(m).0.last_partition_id < usize::MAX,
        recover(m).1 is None && total(m.files) ==> !recover(m).0.files[(recover(
            m,
        ).0.last_partition_id + 1) as usize].tmp,
    decreases usize::MAX - m.last_partition_id,
{
    if m.last_partition_id < usize::MAX {
        let next = (m.last_partition_id + 1) as usize;
        let found = m.files[next];
        if found.tmp && !(found.meta is Absent) {
            let files = if found.data {
                m.files
            } else {
                m.files.insert(next, FilesView { tmp: false, data: true, meta: found.meta })
            };
            let journal = if found.data {
                m.journal
            } else {
                m.journal.push(OpView::Promote { id: next })
            };
            match found.meta {
                SidecarView::Holds(partition) => {
                    lemma_recover(
                        ManagerView {
                            partitions_dir: m.partitions_dir,
                            last_partition_id: next,
                            partitions: m.partitions.push(partition),
                            files,
                            journal,
                            failpoint: m.failpoint,
                        },
                    );
                },
                _ => {},
            }
        }
    }
}

/// The manager with its fail point disarmed.
pub open spec fn disarmed(m: ManagerView) -> ManagerView {
    ManagerView {
        partitions_dir: m.partitions_dir,
        last_partition_id: m.last_partition_id,
        partitions: m.partitions,
        files: m.files,
        journal: m.journal,
        failpoint: None,
    }
}

/// Recoverability of `roll_new_partition`: when a roll of the series
/// `first` fails between the writing of the sidecar and the renaming of the
/// data file, the list of partitions has not grown; and the next roll, of
/// the series `second` with the fail point disarmed, succeeds wherever the
/// compressor takes the sections of `second`, and commits both: the
/// partition that was left behind, which holds `first`, and its own, which
/// holds `second`.
pub proof fn lemma_rolls_recover_after_rename_step(
    m: ManagerView,
    first: Seq<(Seq<char>, Seq<PointView>)>,
    second: Seq<(Seq<char>, Seq<PointView>)>,
    level: i32,
    failed: ManagerView,
    done: ManagerView,
    result: Result<(), PartitionError>,
)
    requires
        total(m.files),
        rolls_at(m, first, level, failed, Err(PartitionError::RenameStep)),
        failed.last_partition_id + 2 <= usize::MAX,
        !failed.files[(failed.last_partition_id + 2) as usize].tmp,
        packs(second, level),
        rolls_at(disarmed(failed), second, level, done, result),
    ensures
        failed.partitions == recover(m).0.partitions,
        result is Ok,
        done.partitions.len() == failed.partitions.len() + 2,
        done.partitions.take(failed.partitions.len() as int) == failed.partitions,
        described(done.partitions[failed.partitions.len() as int], first),
        described(done.partitions[failed.partitions.len() as int + 1], second),
        done.last_partition_id == failed.last_partition_id + 2,
        is_committed(done.files[(failed.last_partition_id + 1) as usize]),
        is_committed(done.files[(failed.last_partition_id + 2) as usize]),
{
    let one = choose|written: Result<(Seq<u8>, PartitionView), PartitionError>|
        wrote(first, level, written) && #[trigger] rolled_with(m, written) == (
            failed,
            Err::<(), PartitionError>(PartitionError::RenameStep),
        );
    let two = choose|written: Result<(Seq<u8>, PartitionView), PartitionError>|
        wrote(second, level, written) && #[trigger] rolled_with(disarmed(failed), written) == (
            done,
            result,
        );
    assert(one is Ok);
    assert(two is Ok);
    let (first_packed, first_sidecar) = one->Ok_0;
    let (second_packed, second_sidecar) = two->Ok_0;
    lemma_roll_recovers_after_rename_step(
        m,
        first_packed,
        first_sidecar,
        second_packed,
        second_sidecar,
    );
    let held = failed.partitions;
    assert(done.partitions == held.push(first_sidecar).push(second_sidecar));
    assert(done.partitions.take(held.len() as int) =~= held);
    assert(describes(first_packed, done.partitions[held.len() as int], first));
    assert(describes(second_packed, done.partitions[held.len() as int + 1], second));
}

/// Recoverability: when a roll fails between the writing of the sidecar and
/// the renaming of the data file, the list of partitions does not grow by
/// the roll's partition; and the next roll, with the fail point disarmed,
/// commits both the partition that was left behind and its own.
pub proof fn lemma_roll_recovers_after_rename_step(
    m: ManagerView,
    first_packed: Seq<u8>,
    first: PartitionView,
    second_packed: Seq<u8>,
    second: PartitionView,
)
    requires
        total(m.files),
        commit(m, first_packed, first).1 == Err::<(), PartitionError>(PartitionError::RenameStep),
        commit(m, first_packed, first).0.last_partition_id + 2 <= usize::MAX,
        !commit(m, first_packed, first).0.files[(commit(m, first_packed, first).0.last_partition_id
            + 2) as usize].tmp,
    ensures
        ({
            let (failed, error) = commit(m, first_packed, first);
            let retry = ManagerView {
                partitions_dir: failed.partitions_dir,
                last_partition_id: failed.last_partition_id,
                partitions: failed.partitions,
                files: failed.files,
                journal: failed.journal,
                failpoint: None,
            };
            let (done, result) = commit(retry, second_packed, second);
            let one = (failed.last_partition_id + 1) as usize;
            let two = (failed.last_partition_id + 2) as usize;
            &&& failed.partitions == recover(m).0.partitions
            &&& result is Ok
            &&& done.partitions == failed.partitions.push(first).push(second)
            &&& done.last_partition_id == two
            &&& is_committed(done.files[one])
            &&& done.files[one].meta == SidecarView::Holds(first)
            &&& done.files[two] == (FilesView {
                tmp: false,
                data: true,
                meta: SidecarView::Holds(second),
            })
        }),
{
    lemma_recover(m);
    let (r, stopped) = recover(m);
    assert(stopped is None);
    assert(r.failpoint == Some(FailPoint::RenameStep));
    let (failed, error) = commit(m, first_packed, first);
    let one = (r.last_partition_id + 1) as usize;
    let two = (r.last_partition_id + 2) as usize;
    assert(failed.last_partition_id == r.last_partition_id);
    let retry = ManagerView {
        partitions_dir: failed.partitions_dir,
        last_partition_id: failed.last_partition_id,
        partitions: failed.partitions,
        files: failed.files,
        journal: failed.journal,
        failpoint: None,
    };
    let found = retry.files[one];
    assert(found.tmp && found.meta == SidecarView::Holds(first));
    let files = if found.data {
        retry.files
    } else {
        retry.files.insert(one, FilesView { tmp: false, data: true, meta: found.meta })
    };
    let journal = if found.data {
        retry.journal
    } else {
        retry.journal.push(OpView::Promote { id: one })
    };
    let stepped = ManagerView {
        partitions_dir: retry.partitions_dir,
        last_partition_id: one,
        partitions: retry.partitions.push(first),
        files,
        journal,
        failpoint: None,
    };
    assert(recover(retry) == recover(stepped));
    assert(files[two] == failed.files[two]);
    assert(recover(stepped) == (stepped, None::<PartitionError>));
}

/// When a roll fails before anything is written, nothing is left behind,
/// and the next roll commits its partition under the same number.
pub proof fn lemma_roll_after_write_meta_step(
    m: ManagerView,
    first_packed: Seq<u8>,
    first: PartitionView,
    second_packed: Seq<u8>,
    second: PartitionView,
)
    requires
        total(m.files),
        m.failpoint == Some(FailPoint::WriteMetaStep),
        m.last_partition_id + 1 <= usize::MAX,
        !m.files[(m.last_partition_id + 1) as usize].tmp,
    ensures
        ({
            let (failed, error) = commit(m, first_packed, first);
            let retry = ManagerView {
                partitions_dir: failed.partitions_dir,
                last_partition_id: failed.last_partition_id,
                partitions: failed.partitions,
                files: failed.files,
                journal: failed.journal,
                failpoint: None,
            };
            let (done, result) = commit(retry, second_packed, second);
            &&& error == Err::<(), PartitionError>(PartitionError::WriteMetaStep)
            &&& failed == m
            &&& result is Ok
            &&& done.partitions == m.partitions.push(second)
            &&& done.last_partition_id == m.last_partition_id + 1
        }),
{
    reveal_with_fuel(recover, 2);
}

} // verus!
