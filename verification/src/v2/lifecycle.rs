//! How a snapshot comes into being, and how it goes.

use crate::error::{Error, Failure, SnapResult};
use crate::key::SnapKey;
use crate::text::same_text;
use crate::types::{SnapshotMeta, CF_LOCK};
use crate::v2::files::{snapshot_cf_names, snapshot_cfs, CfFile, Snap};
use crate::v2::meta::{
    check_snapshot_meta, complete, covers, first_bad_name, first_missing, known,
    lemma_total_of_prefix, meta_names, no_bad_name, total_of, with_meta,
};
use vstd::prelude::*;

verus! {

/// A temporary file to create. It must not exist yet.
#[derive(Clone, Copy, PartialEq, Eq, Debug, Structural)]
pub enum Create {
    /// The file of a column family, to be written directly.
    Plain(usize),
    /// The file of a column family, to be written as a table of the store.
    Sst(usize),
    /// The metadata file.
    Meta,
}

/// What to create before a snapshot is built. Locks are written as records, everything else as
/// tables.
pub open spec fn created_for_building(files: Seq<CfFile>) -> Seq<Create> {
    files.map(
        |i: int, file: CfFile|
            if file.cf@ == CF_LOCK@ {
                Create::Plain(i as usize)
            } else {
                Create::Sst(i as usize)
            },
    ).push(Create::Meta)
}

/// What to create before a snapshot is received.
pub open spec fn created_for_receiving(files: Seq<CfFile>) -> Seq<Create> {
    files.map(|i: int, file: CfFile| Create::Plain(i as usize)).push(Create::Meta)
}

/// One of the files of a snapshot.
#[derive(Clone, Copy, PartialEq, Eq, Debug, Structural)]
pub enum FileId {
    Cf(usize),
    CfTmp(usize),
    Meta,
    MetaTmp,
}

/// The files of a snapshot in the order in which they are deleted, but for the metadata.
pub open spec fn cf_files_to_delete(count: nat) -> Seq<FileId>
    decreases count,
{
    if count == 0 {
        Seq::empty()
    } else {
        cf_files_to_delete((count - 1) as nat).push(FileId::CfTmp((count - 1) as usize)).push(
            FileId::Cf((count - 1) as usize),
        )
    }
}

/// The files of a snapshot in the order in which they are deleted.
pub open spec fn files_to_delete(count: nat) -> Seq<FileId> {
    cf_files_to_delete(count).push(FileId::MetaTmp).push(FileId::Meta)
}

/// How to delete a snapshot. A file that is not there is skipped.
pub struct Deletion {
    pub files: Vec<FileId>,
    /// The size that is no longer tracked.
    pub untracked: Option<u64>,
}

pub open spec fn all_present(present: Seq<bool>) -> bool {
    forall|i: int| 0 <= i < present.len() ==> present[i]
}

fn all(present: &Vec<bool>) -> (yes: bool)
    ensures
        yes == all_present(present@),
{
    let mut i: usize = 0;
    while i < present.len()
        invariant
            i <= present@.len(),
            forall|j: int| 0 <= j < i ==> present@[j],
        decreases present@.len() - i,
    {
        if !present[i] {
            return false;
        }
        i = i + 1;
    }
    true
}

impl Snap {
    /// A snapshot to be built; [`Snap::init_for_building`] says what to create.
    pub fn new_for_building(dir: &str, key: &SnapKey) -> (snap: Snap)
        ensures
            snap.is_new(dir@, true, *key, snapshot_cf_names()),
    {
        Snap::new(dir, key, &snapshot_cfs(), true)
    }

    /// A snapshot to be sent; [`Snap::init_for_sending`] says whether it can be.
    pub fn new_for_sending(dir: &str, key: &SnapKey) -> (snap: Snap)
        ensures
            snap.is_new(dir@, true, *key, snapshot_cf_names()),
    {
        Snap::new(dir, key, &snapshot_cfs(), true)
    }

    /// A snapshot to be received, with files in the order of its metadata;
    /// [`Snap::init_for_receiving`] says what to create.
    pub fn new_for_receiving(dir: &str, key: &SnapKey, snapshot_meta: &SnapshotMeta) -> (res:
        SnapResult<Snap>)
        ensures
            ({
                let names = meta_names(snapshot_meta@);
                match res {
                    Ok(snap) => complete(names) && snap.is_new(dir@, false, *key, names),
                    Err(Error::Other(Failure::DecodeInvalidCf(cf))) => exists|i: int|
                        #[trigger] first_bad_name(names, i) && !known(names[i]) && cf@ == names[i],
                    Err(Error::Other(Failure::DecodeDuplicatedCf(cf))) => exists|i: int|
                        #[trigger] first_bad_name(names, i) && known(names[i]) && cf@ == names[i],
                    Err(Error::Other(Failure::CfCount(got, expect))) => {
                        &&& no_bad_name(names)
                        &&& got == names.len()
                        &&& expect == snapshot_cf_names().len()
                        &&& got != expect
                    },
                    Err(_) => false,
                }
            }),
    {
        match check_snapshot_meta(snapshot_meta) {
            Ok(cfs) => Ok(Snap::new(dir, key, &cfs, false)),
            Err(e) => Err(e),
        }
    }

    /// A snapshot to be applied; [`Snap::init_for_applying`] says whether it can be.
    pub fn new_for_applying(dir: &str, key: &SnapKey) -> (snap: Snap)
        ensures
            snap.is_new(dir@, false, *key, snapshot_cf_names()),
    {
        Snap::new(dir, key, &snapshot_cfs(), false)
    }

    /// What to create, in order, before the snapshot is built. Nothing if it is there already.
    pub fn init_for_building(&self, present: bool) -> (create: Vec<Create>)
        ensures
            create@ == (if present {
                Seq::empty()
            } else {
                created_for_building(self.cf_files@)
            }),
    {
        let mut create: Vec<Create> = Vec::new();
        if present {
            return create;
        }
        let ghost plan = created_for_building(self.cf_files@);
        let mut i: usize = 0;
        while i < self.cf_files.len()
            invariant
                i <= self.cf_files@.len(),
                plan == created_for_building(self.cf_files@),
                create@ == plan.take(i as int),
            decreases self.cf_files@.len() - i,
        {
            if same_text(self.cf_files[i].cf, CF_LOCK) {
                create.push(Create::Plain(i));
            } else {
                create.push(Create::Sst(i));
            }
            assert(create@ =~= plan.take(i + 1));
            i = i + 1;
        }
        create.push(Create::Meta);
        assert(create@ =~= plan);
        create
    }

    /// Refuses to send a snapshot that is not there. Otherwise the size of each file is taken over
    /// by [`Snap::opened_for_sending`] while it is opened, and the metadata that is read from the
    /// snapshot by [`Snap::set_snapshot_meta`].
    pub fn init_for_sending(&self, present: bool) -> (res: SnapResult<()>)
        ensures
            match res {
                Ok(_) => present,
                Err(e) => {
                    &&& !present
                    &&& e matches Error::Other(Failure::SendNotExist(path))
                    &&& path@ == self.display_path@
                },
            },
    {
        if !present {
            return Err(Error::Other(Failure::SendNotExist(self.display_path.clone())));
        }
        Ok(())
    }

    /// The file of a column family was opened, and has this size.
    pub fn opened_for_sending(&mut self, i: usize, size: u64)
        requires
            i < old(self).cf_files@.len(),
        ensures
            final(self).cf_files@ == old(self).cf_files@.update(
                i as int,
                CfFile { size, ..old(self).cf_files@[i as int] },
            ),
            final(self).display_path == old(self).display_path,
            final(self).cf_index == old(self).cf_index,
            final(self).meta_file == old(self).meta_file,
    {
        self.cf_files[i].size = size;
    }

    /// What to create, in order, before the snapshot is received. Nothing if it is there already.
    /// Otherwise sizes and checksums are taken over from the metadata first.
    pub fn init_for_receiving(&mut self, present: bool, snapshot_meta: SnapshotMeta) -> (res:
        SnapResult<Vec<Create>>)
        ensures
            final(self).display_path == old(self).display_path,
            final(self).cf_index == old(self).cf_index,
            final(self).meta_file.path == old(self).meta_file.path,
            final(self).meta_file.tmp_path == old(self).meta_file.tmp_path,
            match res {
                Ok(create) => if present {
                    create@.len() == 0 && *final(self) == *old(self)
                } else {
                    &&& create@ == created_for_receiving(old(self).cf_files@)
                    &&& covers(snapshot_meta@, old(self).cf_files@)
                    &&& final(self).cf_files@ == with_meta(
                        old(self).cf_files@,
                        snapshot_meta@,
                        old(self).cf_files@.len() as int,
                    )
                    &&& final(self).meta_file.meta == snapshot_meta
                },
                Err(e) => {
                    &&& !present
                    &&& e matches Error::Other(Failure::CfNotInMeta(cf))
                    &&& exists|i: int|
                        #[trigger]
                        first_missing(old(self).cf_files@, snapshot_meta@, i) && cf@ == old(
                            self,
                        ).cf_files@[i].cf@ && final(self).cf_files@ == with_meta(
                            old(self).cf_files@,
                            snapshot_meta@,
                            i,
                        )
                    &&& final(self).meta_file == old(self).meta_file
                },
            },
    {
        let mut create: Vec<Create> = Vec::new();
        if present {
            return Ok(create);
        }
        match self.set_snapshot_meta(snapshot_meta) {
            Ok(_) => {},
            Err(e) => {
                return Err(e);
            },
        }
        let ghost plan = created_for_receiving(old(self).cf_files@);
        let mut i: usize = 0;
        while i < self.cf_files.len()
            invariant
                i <= self.cf_files@.len(),
                self.cf_files@.len() == old(self).cf_files@.len(),
                plan == created_for_receiving(old(self).cf_files@),
                create@ == plan.take(i as int),
            decreases self.cf_files@.len() - i,
        {
            create.push(Create::Plain(i));
            assert(create@ =~= plan.take(i + 1));
            i = i + 1;
        }
        create.push(Create::Meta);
        assert(create@ =~= plan);
        Ok(create)
    }

    /// Refuses to apply a snapshot that is not there. Otherwise the metadata that is read from it
    /// is taken over by [`Snap::set_snapshot_meta`].
    pub fn init_for_applying(&self, present: bool) -> (res: SnapResult<()>)
        ensures
            match res {
                Ok(_) => present,
                Err(e) => {
                    &&& !present
                    &&& e matches Error::Other(Failure::ApplyNotExist(path))
                    &&& path@ == self.display_path@
                },
            },
    {
        if !present {
            return Err(Error::Other(Failure::ApplyNotExist(self.display_path.clone())));
        }
        Ok(())
    }

    /// Whether the snapshot is there, given which of its files are.
    pub fn is_present(&self, cf_files_present: &Vec<bool>, meta_present: bool) -> (yes: bool)
        requires
            cf_files_present@.len() == self.cf_files@.len(),
        ensures
            yes == (all_present(cf_files_present@) && meta_present),
    {
        all(cf_files_present) && meta_present
    }

    /// The path of one of the files.
    pub fn path_of(&self, id: FileId) -> (path: &str)
        requires
            match id {
                FileId::Cf(i) => i < self.cf_files@.len(),
                FileId::CfTmp(i) => i < self.cf_files@.len(),
                _ => true,
            },
        ensures
            path@ == (match id {
                FileId::Cf(i) => self.cf_files@[i as int].path@,
                FileId::CfTmp(i) => self.cf_files@[i as int].tmp_path@,
                FileId::Meta => self.meta_file.path@,
                FileId::MetaTmp => self.meta_file.tmp_path@,
            }),
    {
        match id {
            FileId::Cf(i) => self.cf_files[i].path.as_str(),
            FileId::CfTmp(i) => self.cf_files[i].tmp_path.as_str(),
            FileId::Meta => self.meta_file.path.as_str(),
            FileId::MetaTmp => self.meta_file.tmp_path.as_str(),
        }
    }

    /// How many bytes the files of the column families take together.
    pub fn total_size(&self) -> (size: u64)
        requires
            total_of(self.cf_files@) <= u64::MAX,
        ensures
            size == total_of(self.cf_files@),
    {
        match self.checked_total_size() {
            Some(size) => size,
            None => 0,
        }
    }

    /// How many bytes the files of the column families take together, if that can be told.
    pub fn checked_total_size(&self) -> (size: Option<u64>)
        ensures
            match size {
                Some(total) => total == total_of(self.cf_files@),
                None => total_of(self.cf_files@) > u64::MAX,
            },
    {
        let mut total_size: u64 = 0;
        let mut i: usize = 0;
        while i < self.cf_files.len()
            invariant
                i <= self.cf_files@.len(),
                total_size == total_of(self.cf_files@.take(i as int)),
            decreases self.cf_files@.len() - i,
        {
            proof {
                lemma_total_of_prefix(self.cf_files@, i as int);
            }
            match total_size.checked_add(self.cf_files[i].size) {
                Some(total) => {
                    total_size = total;
                },
                None => {
                    return None;
                },
            }
            i = i + 1;
        }
        assert(self.cf_files@.take(i as int) =~= self.cf_files@);
        Some(total_size)
    }

    /// How to delete the snapshot. One that is dropped before it is complete was never tracked: its
    /// sizes are not added up.
    pub fn try_delete(&self, to_be_dropped: bool, present: bool) -> (deletion: Deletion)
        requires
            to_be_dropped && !present || total_of(self.cf_files@) <= u64::MAX,
        ensures
            deletion.files@ == files_to_delete(self.cf_files@.len()),
            deletion.untracked == (if to_be_dropped && !present {
                None
            } else {
                Some(total_of(self.cf_files@) as u64)
            }),
    {
        let mut files: Vec<FileId> = Vec::new();
        let mut i: usize = 0;
        while i < self.cf_files.len()
            invariant
                i <= self.cf_files@.len(),
                files@ == cf_files_to_delete(i as nat),
            decreases self.cf_files@.len() - i,
        {
            files.push(FileId::CfTmp(i));
            files.push(FileId::Cf(i));
            i = i + 1;
        }
        files.push(FileId::MetaTmp);
        files.push(FileId::Meta);
        let untracked = if to_be_dropped && !present {
            None
        } else {
            Some(self.total_size())
        };
        Deletion { files, untracked }
    }

    /// How to delete the snapshot, whether or not it is complete.
    pub fn delete(&self) -> (deletion: Deletion)
        requires
            total_of(self.cf_files@) <= u64::MAX,
        ensures
            deletion.files@ == files_to_delete(self.cf_files@.len()),
            deletion.untracked == Some(total_of(self.cf_files@) as u64),
    {
        self.try_delete(false, true)
    }

    /// Whether a snapshot that is dropped leaves something to delete: one of its temporary files
    /// is still there.
    pub fn left_unfinished(&self, cf_tmp_present: &Vec<bool>, meta_tmp_present: bool) -> (yes: bool)
        requires
            cf_tmp_present@.len() == self.cf_files@.len(),
        ensures
            yes == (cf_tmp_present@.contains(true) || meta_tmp_present),
    {
        let mut i: usize = 0;
        while i < cf_tmp_present.len()
            invariant
                i <= cf_tmp_present@.len(),
                forall|j: int| 0 <= j < i ==> !cf_tmp_present@[j],
            decreases cf_tmp_present@.len() - i,
        {
            if cf_tmp_present[i] {
                assert(cf_tmp_present@[i as int] == true);
                return true;
            }
            i = i + 1;
        }
        meta_tmp_present
    }
}

/// Deleting a snapshot deletes every file of it.
pub proof fn law_delete_leaves_nothing(count: nat)
    requires
        count <= usize::MAX,
    ensures
        forall|i: usize|
            i < count ==> #[trigger] files_to_delete(count).contains(FileId::Cf(i))
                && files_to_delete(count).contains(FileId::CfTmp(i)),
        files_to_delete(count).contains(FileId::Meta),
        files_to_delete(count).contains(FileId::MetaTmp),
{
    let files = files_to_delete(count);
    let n = cf_files_to_delete(count).len() as int;
    assert(files[n + 1] == FileId::Meta);
    assert(files[n] == FileId::MetaTmp);
    assert forall|i: usize| i < count implies #[trigger] files.contains(FileId::Cf(i))
        && files.contains(FileId::CfTmp(i)) by {
        lemma_deleted(count, i);
        let a = choose|k: int|
            0 <= k < n && cf_files_to_delete(count)[k] == FileId::Cf(i);
        let b = choose|k: int|
            0 <= k < n && cf_files_to_delete(count)[k] == FileId::CfTmp(i);
        assert(files[a] == FileId::Cf(i));
        assert(files[b] == FileId::CfTmp(i));
    }
}

proof fn lemma_deleted(count: nat, i: usize)
    requires
        i < count,
        count <= usize::MAX,
    ensures
        cf_files_to_delete(count).contains(FileId::Cf(i)),
        cf_files_to_delete(count).contains(FileId::CfTmp(i)),
    decreases count,
{
    let front = cf_files_to_delete((count - 1) as nat);
    let files = cf_files_to_delete(count);
    if i == count - 1 {
        assert(files[front.len() as int] == FileId::CfTmp(i));
        assert(files[front.len() as int + 1] == FileId::Cf(i));
    } else {
        lemma_deleted((count - 1) as nat, i);
        let a = choose|k: int| 0 <= k < front.len() && front[k] == FileId::Cf(i);
        let b = choose|k: int| 0 <= k < front.len() && front[k] == FileId::CfTmp(i);
        assert(files[a] == FileId::Cf(i));
        assert(files[b] == FileId::CfTmp(i));
    }
}

/// Before a snapshot is built or received, one file is created for each column family, at its own
/// place, and the metadata file last. Where it is built, locks go to a plain file and everything
/// else to a table; where it is received, all go to plain files.
pub proof fn law_what_is_created(snap: Snap, i: int)
    requires
        0 <= i < snap.cf_files@.len(),
    ensures
        ({
            let files = snap.cf_files@;
            let (building, receiving) = (created_for_building(files), created_for_receiving(files));
            &&& building.len() == files.len() + 1 && receiving.len() == files.len() + 1
            &&& building.last() == Create::Meta && receiving.last() == Create::Meta
            &&& receiving[i] == Create::Plain(i as usize)
            &&& building[i] == Create::Plain(i as usize) <==> files[i].cf@ == "lock"@
            &&& building[i] == Create::Sst(i as usize) <==> files[i].cf@ != "lock"@
        }),
{
}

/// Deleting a snapshot deletes no file twice, and none that it does not have.
pub proof fn law_delete_takes_nothing_else(count: nat)
    requires
        count <= usize::MAX,
    ensures
        files_to_delete(count).len() == 2 * count + 2,
        files_to_delete(count).no_duplicates(),
        forall|id: FileId| #[trigger]
            files_to_delete(count).contains(id) ==> match id {
                FileId::Cf(i) => i < count,
                FileId::CfTmp(i) => i < count,
                _ => true,
            },
{
    lemma_deleted_ids(count);
    let cfs = cf_files_to_delete(count);
    let all = files_to_delete(count);
    assert forall|a: int, b: int| 0 <= a < b < all.len() implies all[a] != all[b] by {
        if a < cfs.len() {
            assert(all[a] == cfs[a]);
        }
        if b < cfs.len() {
            assert(all[b] == cfs[b]);
        }
    }
    assert forall|id: FileId| #[trigger] all.contains(id) implies match id {
        FileId::Cf(i) => i < count,
        FileId::CfTmp(i) => i < count,
        _ => true,
    } by {
        let k = choose|k: int| 0 <= k < all.len() && all[k] == id;
        if k < cfs.len() {
            assert(cfs[k] == id);
        }
    }
}

/// The files of column families are deleted in order, the temporary one first.
proof fn lemma_deleted_ids(count: nat)
    requires
        count <= usize::MAX,
    ensures
        cf_files_to_delete(count).len() == 2 * count,
        forall|k: int|
            0 <= k < 2 * count ==> #[trigger] cf_files_to_delete(count)[k] == if k % 2 == 0 {
                FileId::CfTmp((k / 2) as usize)
            } else {
                FileId::Cf((k / 2) as usize)
            },
    decreases count,
{
    if count > 0 {
        lemma_deleted_ids((count - 1) as nat);
        let front = cf_files_to_delete((count - 1) as nat);
        assert forall|k: int| 0 <= k < 2 * count implies #[trigger] cf_files_to_delete(count)[k]
            == if k % 2 == 0 {
            FileId::CfTmp((k / 2) as usize)
        } else {
            FileId::Cf((k / 2) as usize)
        } by {
            if k < front.len() {
                assert(cf_files_to_delete(count)[k] == front[k]);
            }
        }
    }
}

/// A snapshot is deleted file by file in the order of its column families, what is temporary before
/// what is not, and its metadata last: until then the snapshot can be told to be there.
pub proof fn law_delete_in_order(count: nat, i: usize)
    requires
        i < count <= usize::MAX,
    ensures
        files_to_delete(count)[2 * i] == FileId::CfTmp(i),
        files_to_delete(count)[2 * i + 1] == FileId::Cf(i),
        files_to_delete(count)[2 * count as int] == FileId::MetaTmp,
        files_to_delete(count).last() == FileId::Meta,
{
    lemma_deleted_ids(count);
    let cfs = cf_files_to_delete(count);
    assert(files_to_delete(count)[2 * i] == cfs[2 * i]);
    assert(files_to_delete(count)[2 * i + 1] == cfs[2 * i + 1]);
}

/// A snapshot is there exactly if none of its files is missing.
pub proof fn law_nothing_is_missing(present: Seq<bool>)
    ensures
        all_present(present) <==> !present.contains(false),
{
    if !all_present(present) {
        let i = choose|i: int| 0 <= i < present.len() && !present[i];
        assert(present[i] == false);
    }
}

} // verus!
