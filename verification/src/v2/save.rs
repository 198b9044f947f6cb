//! Saving a snapshot that was received, and checking one that is there.

use crate::error::{Error, Failure, SnapResult};
use crate::size::size_after_save;
use crate::v2::files::{CfFile, Snap};
use crate::v2::lifecycle::{files_to_delete, law_delete_leaves_nothing, FileId};
use crate::v2::meta::{lemma_total_of_prefix, total_of};
use vstd::prelude::*;

verus! {

/// Sizes and checksums that were found are those that are recorded for the files.
pub open spec fn as_recorded(files: Seq<CfFile>, found: Seq<(u64, u32)>) -> bool {
    &&& found.len() <= files.len()
    &&& forall|i: int|
        0 <= i < found.len() ==> #[trigger] found[i] == (files[i].size, files[i].checksum)
}

/// A size as it is tracked: one that is too large to be told is the largest there is.
pub open spec fn capped(n: nat) -> u64 {
    if n <= u64::MAX {
        n as u64
    } else {
        u64::MAX
    }
}

/// What saving does next.
#[derive(Clone, Copy, PartialEq, Eq, Debug, Structural)]
pub enum SaveStep {
    /// Flush the file of a column family, and close it.
    Flush(usize),
    /// Find the size of its temporary file.
    Size(usize),
    /// Find the checksum of its temporary file.
    Checksum(usize),
    /// Give the temporary file its own name.
    Rename(usize),
    /// Write the metadata, and close its file.
    WriteMeta,
    /// Give the metadata file its own name.
    RenameMeta,
    /// Nothing: the snapshot is saved, and has this size.
    Done(u64),
}

/// The first step for a file, or for the metadata if there is no such file.
pub open spec fn save_step_of(count: nat, i: int) -> SaveStep {
    if i < count {
        SaveStep::Flush(i as usize)
    } else {
        SaveStep::WriteMeta
    }
}

/// The step that follows one, where the temporary files have these sizes and checksums. `None` if
/// saving fails there.
pub open spec fn save_next(
    snap: Snap,
    sizes_and_sums: Seq<(u64, u32)>,
    step: SaveStep,
) -> Option<SaveStep> {
    let files = snap.cf_files@;
    match step {
        SaveStep::Flush(i) => Some(SaveStep::Size(i)),
        SaveStep::Size(i) => if sizes_and_sums[i as int].0 == files[i as int].size {
            Some(SaveStep::Checksum(i))
        } else {
            None
        },
        SaveStep::Checksum(i) => if sizes_and_sums[i as int].1 == files[i as int].checksum {
            Some(SaveStep::Rename(i))
        } else {
            None
        },
        SaveStep::Rename(i) => Some(save_step_of(files.len(), i + 1)),
        SaveStep::WriteMeta => Some(SaveStep::RenameMeta),
        SaveStep::RenameMeta => Some(SaveStep::Done(capped(total_of(files)))),
        SaveStep::Done(total) => Some(SaveStep::Done(total)),
    }
}

/// Where saving stands after some steps. `None` if it has failed.
pub open spec fn saved_after(
    snap: Snap,
    sizes_and_sums: Seq<(u64, u32)>,
    steps: nat,
) -> Option<SaveStep>
    decreases steps,
{
    if steps == 0 {
        Some(save_step_of(snap.cf_files@.len(), 0))
    } else {
        match saved_after(snap, sizes_and_sums, (steps - 1) as nat) {
            Some(step) => save_next(snap, sizes_and_sums, step),
            None => None,
        }
    }
}

/// The files of a snapshot on disk after a step, given those before.
pub open spec fn carried_out(disk: Set<FileId>, step: SaveStep) -> Set<FileId> {
    match step {
        SaveStep::Rename(i) => disk.remove(FileId::CfTmp(i)).insert(FileId::Cf(i)),
        SaveStep::RenameMeta => disk.remove(FileId::MetaTmp).insert(FileId::Meta),
        _ => disk,
    }
}

/// The temporary files of a snapshot.
pub open spec fn all_temporary(count: nat) -> Set<FileId> {
    Set::new(
        |id: FileId|
            match id {
                FileId::CfTmp(i) => i < count,
                FileId::MetaTmp => true,
                _ => false,
            },
    )
}

/// The files of a snapshot under their own names.
pub open spec fn all_finished(count: nat) -> Set<FileId> {
    Set::new(
        |id: FileId|
            match id {
                FileId::Cf(i) => i < count,
                FileId::Meta => true,
                _ => false,
            },
    )
}

/// Saves a received snapshot, step by step. A file is only given its own name if it has the size
/// and the checksum that its metadata says.
pub struct Saving {
    step: SaveStep,
    total: u64,
    found: Ghost<Seq<(u64, u32)>>,
}

impl Saving {
    pub closed spec fn step(&self) -> SaveStep {
        self.step
    }

    /// The sizes and checksums of the temporary files that passed the check.
    pub closed spec fn found(&self) -> Seq<(u64, u32)> {
        self.found@
    }

    /// How many files were given their own names.
    pub open spec fn saved(&self, snap: Snap) -> nat {
        match self.step() {
            SaveStep::Flush(i) => i as nat,
            SaveStep::Size(i) => i as nat,
            SaveStep::Checksum(i) => i as nat,
            SaveStep::Rename(i) => i as nat,
            _ => snap.cf_files@.len(),
        }
    }

    /// The files of the snapshot on disk, where all temporary ones and no others were there at the
    /// start.
    pub open spec fn on_disk(&self, snap: Snap) -> Set<FileId> {
        let saved = self.saved(snap);
        let done = self.step() is Done;
        Set::new(
            |id: FileId|
                match id {
                    FileId::Cf(i) => i < saved,
                    FileId::CfTmp(i) => saved <= i < snap.cf_files@.len(),
                    FileId::Meta => done,
                    FileId::MetaTmp => !done,
                },
        )
    }

    pub closed spec fn wf(&self, snap: Snap) -> bool {
        let files = snap.cf_files@;
        let saved = self.saved(snap);
        &&& self.total == capped(total_of(files.take(saved as int)))
        &&& as_recorded(files, self.found@)
        &&& match self.step {
            SaveStep::Flush(_) | SaveStep::Size(_) | SaveStep::Checksum(_) => saved < files.len()
                && self.found@.len() == saved,
            SaveStep::Rename(_) => saved < files.len() && self.found@.len() == saved + 1,
            SaveStep::Done(total) => total == capped(total_of(files)) && self.found@.len()
                == files.len(),
            _ => self.found@.len() == files.len(),
        }
    }

    /// Starts to save a snapshot, whatever sizes were announced for it.
    pub fn new(snap: &Snap) -> (saving: Saving)
        ensures
            saving.wf(*snap),
            saving.step() == save_step_of(snap.cf_files@.len(), 0),
            saving.found() == Seq::<(u64, u32)>::empty(),
            saving.on_disk(*snap) == all_temporary(snap.cf_files@.len()),
    {
        let step = if snap.cf_files.len() > 0 {
            SaveStep::Flush(0)
        } else {
            SaveStep::WriteMeta
        };
        assert(snap.cf_files@.take(0) =~= Seq::<CfFile>::empty());
        let saving = Saving { step, total: 0, found: Ghost(Seq::empty()) };
        assert(saving.on_disk(*snap) =~= all_temporary(snap.cf_files@.len()));
        saving
    }

    /// What to do next.
    pub fn next(&self) -> (step: SaveStep)
        ensures
            step == self.step(),
    {
        self.step
    }

    /// The step was done. Not for a step that finds something.
    pub fn done(&mut self, snap: &Snap)
        requires
            old(self).wf(*snap),
            !(old(self).step() is Size),
            !(old(self).step() is Checksum),
        ensures
            final(self).wf(*snap),
            final(self).found() == old(self).found(),
            final(self).step() == (match old(self).step() {
                SaveStep::Flush(i) => SaveStep::Size(i),
                SaveStep::Rename(i) => save_step_of(snap.cf_files@.len(), i + 1),
                SaveStep::WriteMeta => SaveStep::RenameMeta,
                SaveStep::RenameMeta => SaveStep::Done(capped(total_of(snap.cf_files@))),
                step => step,
            }),
            forall|sizes_and_sums: Seq<(u64, u32)>| #[trigger]
                save_next(*snap, sizes_and_sums, old(self).step()) == Some(final(self).step()),
            final(self).on_disk(*snap) == carried_out(old(self).on_disk(*snap), old(self).step()),
    {
        match self.step {
            SaveStep::Flush(i) => {
                self.step = SaveStep::Size(i);
            },
            SaveStep::Rename(i) => {
                proof {
                    lemma_total_of_prefix(snap.cf_files@, i as int);
                    assert(snap.cf_files@.take(snap.cf_files@.len() as int) =~= snap.cf_files@);
                }
                self.total = self.total.saturating_add(snap.cf_files[i].size);
                assert(i < snap.cf_files.len());
                self.step = if i + 1 < snap.cf_files.len() {
                    SaveStep::Flush(i + 1)
                } else {
                    SaveStep::WriteMeta
                };
            },
            SaveStep::WriteMeta => {
                self.step = SaveStep::RenameMeta;
            },
            SaveStep::RenameMeta => {
                assert(snap.cf_files@.take(snap.cf_files@.len() as int) =~= snap.cf_files@);
                self.step = SaveStep::Done(self.total);
            },
            _ => {},
        }
        assert(self.on_disk(*snap) =~= carried_out(old(self).on_disk(*snap), old(self).step()));
    }

    /// The temporary file has this size. Refuses one that was not fully written.
    pub fn found_size(&mut self, snap: &Snap, size: u64) -> (res: SnapResult<()>)
        requires
            old(self).wf(*snap),
            old(self).step() is Size,
        ensures
            final(self).wf(*snap),
            final(self).found() == old(self).found(),
            final(self).on_disk(*snap) == old(self).on_disk(*snap),
            forall|sizes_and_sums: Seq<(u64, u32)>|
                sizes_and_sums[old(self).step()->Size_0 as int].0 == size ==> #[trigger] save_next(
                    *snap,
                    sizes_and_sums,
                    old(self).step(),
                ) == (if res is Ok {
                    Some(final(self).step())
                } else {
                    None
                }),
            ({
                let i = old(self).step()->Size_0;
                let file = snap.cf_files@[i as int];
                match res {
                    Ok(_) => size == file.size && final(self).step() == SaveStep::Checksum(i),
                    Err(e) => {
                        &&& size != file.size
                        &&& *final(self) == *old(self)
                        &&& e matches Error::Other(Failure::SizeMismatch(path, cf, actual, expected))
                        &&& path@ == file.path@
                        &&& cf@ == file.cf@
                        &&& actual == size
                        &&& expected == file.size
                    },
                }
            }),
    {
        if let SaveStep::Size(i) = self.step {
            let file = &snap.cf_files[i];
            if size != file.size {
                return Err(
                    Error::Other(
                        Failure::SizeMismatch(
                            file.path.clone(),
                            file.cf.to_owned(),
                            size,
                            file.size,
                        ),
                    ),
                );
            }
            self.step = SaveStep::Checksum(i);
            assert(self.on_disk(*snap) =~= old(self).on_disk(*snap));
        }
        Ok(())
    }

    /// The temporary file has this checksum. Refuses one that differs from what was announced.
    pub fn found_checksum(&mut self, snap: &Snap, checksum: u32) -> (res: SnapResult<()>)
        requires
            old(self).wf(*snap),
            old(self).step() is Checksum,
        ensures
            final(self).wf(*snap),
            final(self).on_disk(*snap) == old(self).on_disk(*snap),
            forall|sizes_and_sums: Seq<(u64, u32)>|
                sizes_and_sums[old(self).step()->Checksum_0 as int].1 == checksum
                    ==> #[trigger] save_next(*snap, sizes_and_sums, old(self).step()) == (
                if res is Ok {
                    Some(final(self).step())
                } else {
                    None
                }),
            ({
                let i = old(self).step()->Checksum_0;
                let file = snap.cf_files@[i as int];
                match res {
                    Ok(_) => {
                        &&& checksum == file.checksum
                        &&& final(self).step() == SaveStep::Rename(i)
                        &&& final(self).found() == old(self).found().push((file.size, checksum))
                    },
                    Err(e) => {
                        &&& checksum != file.checksum
                        &&& *final(self) == *old(self)
                        &&& e matches Error::Other(
                            Failure::ChecksumMismatch(path, cf, actual, expected),
                        )
                        &&& path@ == file.path@
                        &&& cf@ == file.cf@
                        &&& actual == checksum
                        &&& expected == file.checksum
                    },
                }
            }),
    {
        if let SaveStep::Checksum(i) = self.step {
            let file = &snap.cf_files[i];
            if checksum != file.checksum {
                return Err(
                    Error::Other(
                        Failure::ChecksumMismatch(
                            file.path.clone(),
                            file.cf.to_owned(),
                            checksum,
                            file.checksum,
                        ),
                    ),
                );
            }
            self.step = SaveStep::Rename(i);
            proof {
                self.found@ = self.found@.push((file.size, checksum));
                assert(self.on_disk(*snap) =~= old(self).on_disk(*snap));
            }
        }
        Ok(())
    }
}

/// A snapshot is saved only if every file had the size and the checksum that its metadata says.
pub proof fn law_saved_as_announced(saving: Saving, snap: Snap)
    requires
        saving.wf(snap),
        saving.step() is Done,
    ensures
        saving.found().len() == snap.cf_files@.len(),
        as_recorded(snap.cf_files@, saving.found()),
        saving.step() == SaveStep::Done(capped(total_of(snap.cf_files@))),
{
}

/// Saving succeeds if and only if every temporary file has the size and the checksum that was
/// announced for it. It is decided after at most four steps for each file and two for the metadata.
pub proof fn law_save_succeeds_exactly(snap: Snap, sizes_and_sums: Seq<(u64, u32)>)
    requires
        sizes_and_sums.len() == snap.cf_files@.len(),
    ensures
        ({
            let files = snap.cf_files@;
            saved_after(snap, sizes_and_sums, 4 * files.len() + 2) == if as_recorded(
                files,
                sizes_and_sums,
            ) {
                Some(SaveStep::Done(capped(total_of(files))))
            } else {
                None::<SaveStep>
            }
        }),
{
    let files = snap.cf_files@;
    let n = files.len();
    if as_recorded(files, sizes_and_sums) {
        lemma_good_files_pass(snap, sizes_and_sums, n);
        assert(saved_after(snap, sizes_and_sums, 4 * n) == Some(SaveStep::WriteMeta));
        assert(saved_after(snap, sizes_and_sums, 4 * n + 1) == Some(SaveStep::RenameMeta));
    } else {
        let bad = choose|i: int|
            0 <= i < sizes_and_sums.len() && #[trigger] sizes_and_sums[i] != (
                files[i].size,
                files[i].checksum,
            );
        let first = lemma_first_bad(files, sizes_and_sums, bad as nat);
        lemma_good_files_pass(snap, sizes_and_sums, first);
        assert(first < snap.cf_files.len());
        assert(first as usize as int == first);
        assert(saved_after(snap, sizes_and_sums, 4 * first) == Some(SaveStep::Flush(first as usize)));
        assert(saved_after(snap, sizes_and_sums, 4 * first + 1) == Some(
            SaveStep::Size(first as usize),
        ));
        assert(saved_after(snap, sizes_and_sums, 4 * first + 2) is None || saved_after(
            snap,
            sizes_and_sums,
            4 * first + 2,
        ) == Some(SaveStep::Checksum(first as usize)));
        assert(saved_after(snap, sizes_and_sums, 4 * first + 3) is None);
        lemma_failed_stays_failed(snap, sizes_and_sums, 4 * first + 3, 4 * n + 2);
    }
}

proof fn lemma_first_bad(files: Seq<CfFile>, sizes_and_sums: Seq<(u64, u32)>, bad: nat) -> (first: nat)
    requires
        bad < sizes_and_sums.len(),
        sizes_and_sums[bad as int] != (files[bad as int].size, files[bad as int].checksum),
    ensures
        first <= bad,
        sizes_and_sums[first as int] != (files[first as int].size, files[first as int].checksum),
        forall|j: int|
            0 <= j < first ==> #[trigger] sizes_and_sums[j] == (files[j].size, files[j].checksum),
    decreases bad,
{
    if forall|j: int|
        0 <= j < bad ==> #[trigger] sizes_and_sums[j] == (files[j].size, files[j].checksum) {
        bad
    } else {
        let j = choose|j: int|
            0 <= j < bad && #[trigger] sizes_and_sums[j] != (files[j].size, files[j].checksum);
        lemma_first_bad(files, sizes_and_sums, j as nat)
    }
}

proof fn lemma_good_files_pass(snap: Snap, sizes_and_sums: Seq<(u64, u32)>, count: nat)
    requires
        count <= snap.cf_files@.len(),
        forall|j: int|
            0 <= j < count ==> #[trigger] sizes_and_sums[j] == (
                snap.cf_files@[j].size,
                snap.cf_files@[j].checksum,
            ),
    ensures
        saved_after(snap, sizes_and_sums, 4 * count) == Some(
            save_step_of(snap.cf_files@.len(), count as int),
        ),
    decreases count,
{
    if count > 0 {
        let i = (count - 1) as nat;
        lemma_good_files_pass(snap, sizes_and_sums, i);
        assert(i < snap.cf_files.len());
        assert(i as usize as int == i);
        assert(sizes_and_sums[i as int] == (
            snap.cf_files@[i as int].size,
            snap.cf_files@[i as int].checksum,
        ));
        assert(saved_after(snap, sizes_and_sums, 4 * i) == Some(SaveStep::Flush(i as usize)));
        assert(saved_after(snap, sizes_and_sums, 4 * i + 1) == Some(SaveStep::Size(i as usize)));
        assert(saved_after(snap, sizes_and_sums, 4 * i + 2) == Some(SaveStep::Checksum(i as usize)));
        assert(saved_after(snap, sizes_and_sums, 4 * i + 3) == Some(SaveStep::Rename(i as usize)));
    }
}

proof fn lemma_failed_stays_failed(
    snap: Snap,
    sizes_and_sums: Seq<(u64, u32)>,
    steps: nat,
    later: nat,
)
    requires
        steps <= later,
        saved_after(snap, sizes_and_sums, steps) is None,
    ensures
        saved_after(snap, sizes_and_sums, later) is None,
    decreases later,
{
    if steps < later {
        lemma_failed_stays_failed(snap, sizes_and_sums, steps, (later - 1) as nat);
    }
}

/// Once a snapshot is saved it is there, with nothing temporary left; its size is added to the
/// tracked one, which stays within its limit.
pub proof fn law_saved_is_visible(saving: Saving, snap: Snap, before: u64)
    requires
        saving.wf(snap),
        saving.step() is Done,
    ensures
        saving.on_disk(snap) == all_finished(snap.cf_files@.len()),
        saving.step() == SaveStep::Done(capped(total_of(snap.cf_files@))),
        size_after_save(before, capped(total_of(snap.cf_files@))) == capped(
            before as nat + total_of(snap.cf_files@),
        ),
{
    assert(saving.on_disk(snap) =~= all_finished(snap.cf_files@.len()));
}

/// Until then, and so where a check fails, it is not there: the metadata file is still temporary.
/// Dropping it deletes every file that it has on disk.
pub proof fn law_unsaved_is_invisible(saving: Saving, snap: Snap)
    requires
        saving.wf(snap),
        !(saving.step() is Done),
    ensures
        !saving.on_disk(snap).contains(FileId::Meta),
        saving.on_disk(snap).contains(FileId::MetaTmp),
        forall|id: FileId| #[trigger]
            saving.on_disk(snap).contains(id) ==> files_to_delete(snap.cf_files@.len()).contains(
                id,
            ),
{
    let count = snap.cf_files@.len();
    assert(snap.cf_files.len() == count);
    law_delete_leaves_nothing(count);
    assert forall|id: FileId| #[trigger] saving.on_disk(snap).contains(id) implies files_to_delete(
        count,
    ).contains(id) by {
        match id {
            FileId::Cf(i) => {
                assert(files_to_delete(count).contains(FileId::Cf(i)));
            },
            FileId::CfTmp(i) => {
                assert(files_to_delete(count).contains(FileId::Cf(i)));
            },
            _ => {},
        }
    }
}

/// The metadata is only written when every file stands under its own name.
pub proof fn law_metadata_comes_last(saving: Saving, snap: Snap)
    requires
        saving.wf(snap),
        saving.saved(snap) < snap.cf_files@.len(),
    ensures
        !(saving.step() is WriteMeta),
        !(saving.step() is RenameMeta),
        !(saving.step() is Done),
{
}

/// What checking a snapshot needs next.
#[derive(Clone, Copy, PartialEq, Eq, Debug, Structural)]
pub enum CheckStep {
    /// The size of the file of a column family.
    Size(usize),
    /// Its checksum.
    Checksum(usize),
    /// Nothing: all files are as recorded.
    Done,
}

pub open spec fn check_step_of(count: nat, i: int) -> CheckStep {
    if i < count {
        CheckStep::Size(i as usize)
    } else {
        CheckStep::Done
    }
}

/// Checks the files of a snapshot against their recorded sizes and checksums, step by step.
pub struct Checking {
    step: CheckStep,
    found: Ghost<Seq<(u64, u32)>>,
}

impl Checking {
    pub closed spec fn step(&self) -> CheckStep {
        self.step
    }

    /// The sizes and checksums of the files that passed the check.
    pub closed spec fn found(&self) -> Seq<(u64, u32)> {
        self.found@
    }

    pub closed spec fn wf(&self, snap: Snap) -> bool {
        let files = snap.cf_files@;
        &&& as_recorded(files, self.found@)
        &&& match self.step {
            CheckStep::Size(i) => i < files.len() && self.found@.len() == i,
            CheckStep::Checksum(i) => i < files.len() && self.found@.len() == i,
            CheckStep::Done => self.found@.len() == files.len(),
        }
    }

    pub fn new(snap: &Snap) -> (checking: Checking)
        ensures
            checking.wf(*snap),
            checking.step() == check_step_of(snap.cf_files@.len(), 0),
            checking.found() == Seq::<(u64, u32)>::empty(),
    {
        let step = if snap.cf_files.len() > 0 {
            CheckStep::Size(0)
        } else {
            CheckStep::Done
        };
        Checking { step, found: Ghost(Seq::empty()) }
    }

    /// What to find out next.
    pub fn next(&self) -> (step: CheckStep)
        ensures
            step == self.step(),
    {
        self.step
    }

    /// The file has this size.
    pub fn found_size(&mut self, snap: &Snap, size: u64) -> (res: SnapResult<()>)
        requires
            old(self).wf(*snap),
            old(self).step() is Size,
        ensures
            final(self).wf(*snap),
            final(self).found() == old(self).found(),
            ({
                let i = old(self).step()->Size_0;
                let file = snap.cf_files@[i as int];
                match res {
                    Ok(_) => size == file.size && final(self).step() == CheckStep::Checksum(i),
                    Err(e) => {
                        &&& size != file.size
                        &&& *final(self) == *old(self)
                        &&& e matches Error::Other(Failure::InvalidSize(actual, cf, expected))
                        &&& actual == size
                        &&& cf@ == file.cf@
                        &&& expected == file.size
                    },
                }
            }),
    {
        if let CheckStep::Size(i) = self.step {
            let file = &snap.cf_files[i];
            if size != file.size {
                return Err(
                    Error::Other(Failure::InvalidSize(size, file.cf.to_owned(), file.size)),
                );
            }
            self.step = CheckStep::Checksum(i);
        }
        Ok(())
    }

    /// The file has this checksum.
    pub fn found_checksum(&mut self, snap: &Snap, checksum: u32) -> (res: SnapResult<()>)
        requires
            old(self).wf(*snap),
            old(self).step() is Checksum,
        ensures
            final(self).wf(*snap),
            ({
                let i = old(self).step()->Checksum_0;
                let file = snap.cf_files@[i as int];
                match res {
                    Ok(_) => {
                        &&& checksum == file.checksum
                        &&& final(self).step() == check_step_of(snap.cf_files@.len(), i + 1)
                        &&& final(self).found() == old(self).found().push((file.size, checksum))
                    },
                    Err(e) => {
                        &&& checksum != file.checksum
                        &&& *final(self) == *old(self)
                        &&& e matches Error::Other(Failure::InvalidChecksum(actual, cf, expected))
                        &&& actual == checksum
                        &&& cf@ == file.cf@
                        &&& expected == file.checksum
                    },
                }
            }),
    {
        if let CheckStep::Checksum(i) = self.step {
            let file = &snap.cf_files[i];
            if checksum != file.checksum {
                return Err(
                    Error::Other(
                        Failure::InvalidChecksum(checksum, file.cf.to_owned(), file.checksum),
                    ),
                );
            }
            assert(i < snap.cf_files.len());
            self.step = if i + 1 < snap.cf_files.len() {
                CheckStep::Size(i + 1)
            } else {
                CheckStep::Done
            };
            proof {
                self.found@ = self.found@.push((file.size, checksum));
            }
        }
        Ok(())
    }
}

/// A snapshot passes the check only if every file has its recorded size and checksum.
pub proof fn law_checked_as_recorded(checking: Checking, snap: Snap)
    requires
        checking.wf(snap),
        checking.step() == CheckStep::Done,
    ensures
        checking.found().len() == snap.cf_files@.len(),
        as_recorded(snap.cf_files@, checking.found()),
{
}

/// A size that can be told is kept, any other becomes the largest.
pub proof fn law_capped_sizes(n: nat)
    ensures
        capped(n) <= n,
        capped(n) == n || (n > u64::MAX && capped(n) == u64::MAX),
{
}

/// Sizes and checksums are as recorded exactly if each is that of the file at its place.
pub proof fn law_as_recorded(files: Seq<CfFile>, found: Seq<(u64, u32)>)
    ensures
        as_recorded(files, found) <==> found.len() <= files.len() && forall|i: int|
            0 <= i < found.len() ==> (#[trigger] found[i]).0 == files[i].size && found[i].1
                == files[i].checksum,
{
}

/// Saving and checking begin with the file at their place, and come to their end only behind the
/// last.
pub proof fn law_files_come_in_order(count: nat, i: usize)
    ensures
        i < count ==> save_step_of(count, i as int) == SaveStep::Flush(i) && check_step_of(
            count,
            i as int,
        ) == CheckStep::Size(i),
        i >= count ==> save_step_of(count, i as int) == SaveStep::WriteMeta && check_step_of(
            count,
            i as int,
        ) == CheckStep::Done,
{
}

} // verus!
