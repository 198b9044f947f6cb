//! Building a snapshot.

use crate::codec::{lemma_stream_append, stream_of};
use crate::error::{Error, Failure, SnapResult};
use crate::records::{
    encode_end, encode_pair, need_to_pack, packed, pair_count, pair_records, CfContent,
};
use crate::size::{size_after_save, SizeTrack};
use crate::text::same_text;
use crate::types::{BuildContext, RaftSnapshotData, CF_LOCK};
use crate::v2::files::{CfFile, Snap};
use crate::v2::meta::{first_unknown, get_snapshot_meta, known, meta_of, total_of};
use crate::v2::save::as_recorded;
use crate::v2::SNAPSHOT_VERSION;
use vstd::prelude::*;
use vstd::string::*;

verus! {

/// The first file of a column family is at this place.
pub open spec fn first_of_cf(files: Seq<CfFile>, cf: Seq<char>, i: int) -> bool {
    &&& 0 <= i < files.len()
    &&& files[i].cf@ == cf
    &&& forall|j: int| 0 <= j < i ==> (#[trigger] files[j]).cf@ != cf
}

pub open spec fn has_cf(files: Seq<CfFile>, cf: Seq<char>) -> bool {
    exists|i: int| 0 <= i < files.len() && (#[trigger] files[i]).cf@ == cf
}

impl Snap {
    /// Goes to the file of a column family.
    pub fn switch_to_cf_file(&mut self, cf: &str) -> (res: SnapResult<()>)
        ensures
            final(self).cf_files == old(self).cf_files,
            final(self).display_path == old(self).display_path,
            final(self).meta_file == old(self).meta_file,
            match res {
                Ok(_) => first_of_cf(old(self).cf_files@, cf@, final(self).cf_index as int),
                Err(e) => {
                    &&& !has_cf(old(self).cf_files@, cf@)
                    &&& final(self).cf_index == old(self).cf_index
                    &&& e matches Error::Other(Failure::CfNotFound(name))
                    &&& name@ == cf@
                },
            },
    {
        let mut i: usize = 0;
        while i < self.cf_files.len()
            invariant
                i <= self.cf_files@.len(),
                *self == *old(self),
                forall|j: int| 0 <= j < i ==> (#[trigger] self.cf_files@[j]).cf@ != cf@,
            decreases self.cf_files@.len() - i,
        {
            if same_text(self.cf_files[i].cf, cf) {
                self.cf_index = i;
                return Ok(());
            }
            i = i + 1;
        }
        Err(Error::Other(Failure::CfNotFound(cf.to_owned())))
    }
}

/// Where the keys and values of a column family go.
#[derive(Clone, Copy, PartialEq, Eq, Debug, Structural)]
pub enum Target {
    /// To a file of records.
    Records(usize),
    /// To a table of the store.
    Table(usize),
}

/// Builds the files of a snapshot, column family by column family.
pub struct Building {
    target: Option<Target>,
    cf_count: usize,
    total: usize,
    done: Ghost<Seq<CfContent>>,
    current: Ghost<CfContent>,
    output: Ghost<Seq<u8>>,
}

impl Building {
    /// Where the keys of the current column family go, if one was begun.
    pub closed spec fn target(&self) -> Option<Target> {
        self.target
    }

    /// The column families that are complete.
    pub closed spec fn done(&self) -> Seq<CfContent> {
        self.done@
    }

    /// The column family that is being written.
    pub closed spec fn current(&self) -> CfContent {
        self.current@
    }

    /// The bytes given for a file of records so far.
    pub closed spec fn output(&self) -> Seq<u8> {
        self.output@
    }

    /// How many keys were written.
    pub open spec fn keys_written(&self) -> nat {
        pair_count(self.done()) + if self.target() is Some {
            self.current().pairs.len()
        } else {
            0
        }
    }

    pub closed spec fn wf(&self) -> bool {
        &&& self.total == pair_count(self.done@)
        &&& self.target is Some ==> self.cf_count == self.current@.pairs.len()
        &&& self.target matches Some(Target::Records(_)) ==> self.output@ == stream_of(
            pair_records(self.current@.pairs),
        )
    }

    pub fn new() -> (building: Building)
        ensures
            building.wf(),
            building.target() is None,
            building.done() == Seq::<CfContent>::empty(),
    {
        Building {
            target: None,
            cf_count: 0,
            total: 0,
            done: Ghost(Seq::empty()),
            current: Ghost(CfContent { name: Seq::empty(), pairs: Seq::empty() }),
            output: Ghost(Seq::empty()),
        }
    }

    /// Begins a column family. `None` if snapshots leave it out.
    pub fn begin_cf(&mut self, snap: &mut Snap, cf: &str) -> (res: SnapResult<Option<Target>>)
        requires
            old(self).wf(),
            old(self).target() is None,
        ensures
            final(self).wf(),
            final(self).done() == old(self).done(),
            final(snap).cf_files == old(snap).cf_files,
            final(snap).display_path == old(snap).display_path,
            final(snap).meta_file == old(snap).meta_file,
            match res {
                Ok(None) => !packed(cf@) && *final(self) == *old(self) && *final(snap) == *old(snap),
                Ok(Some(target)) => {
                    &&& packed(cf@)
                    &&& first_of_cf(old(snap).cf_files@, cf@, final(snap).cf_index as int)
                    &&& target == if cf@ == CF_LOCK@ {
                        Target::Records(final(snap).cf_index)
                    } else {
                        Target::Table(final(snap).cf_index)
                    }
                    &&& final(self).target() == Some(target)
                    &&& final(self).current() == (CfContent {
                        name: cf.spec_bytes(),
                        pairs: Seq::empty(),
                    })
                    &&& final(self).output() == Seq::<u8>::empty()
                },
                Err(e) => {
                    &&& packed(cf@)
                    &&& !has_cf(old(snap).cf_files@, cf@)
                    &&& *final(self) == *old(self)
                    &&& *final(snap) == *old(snap)
                    &&& e matches Error::Other(Failure::CfNotFound(name))
                    &&& name@ == cf@
                },
            },
    {
        if !need_to_pack(cf) {
            return Ok(None);
        }
        match snap.switch_to_cf_file(cf) {
            Ok(_) => {},
            Err(e) => {
                return Err(e);
            },
        }
        let target = if same_text(cf, CF_LOCK) {
            Target::Records(snap.cf_index)
        } else {
            Target::Table(snap.cf_index)
        };
        self.target = Some(target);
        self.cf_count = 0;
        proof {
            self.current@ = CfContent { name: cf.spec_bytes(), pairs: Seq::empty() };
            self.output@ = Seq::empty();
        }
        Ok(Some(target))
    }

    /// Adds a key and its value to a file of records. Gives the bytes to write.
    pub fn add_record(&mut self, key: &[u8], value: &[u8]) -> (bytes: Vec<u8>)
        requires
            old(self).wf(),
            old(self).target() matches Some(Target::Records(_)),
            old(self).keys_written() < usize::MAX,
            key@.len() <= i64::MAX,
            value@.len() <= i64::MAX,
        ensures
            final(self).wf(),
            final(self).target() == old(self).target(),
            final(self).done() == old(self).done(),
            final(self).current() == (CfContent {
                name: old(self).current().name,
                pairs: old(self).current().pairs.push((key@, value@)),
            }),
            final(self).output() == old(self).output() + bytes@,
    {
        let out = encode_pair(key, value);
        self.cf_count = self.cf_count + 1;
        proof {
            let before = pair_records(self.current@.pairs);
            let pairs = self.current@.pairs.push((key@, value@));
            assert(pairs.drop_last() =~= self.current@.pairs);
            lemma_stream_append(before, seq![key@, value@]);
            assert(pair_records(pairs) =~= before + seq![key@, value@]);
            self.current@ = CfContent { name: self.current@.name, pairs };
            self.output@ = self.output@ + out@;
        }
        out
    }

    /// This key and value were added to a table.
    pub fn add_kv(&mut self, snap: &mut Snap, key: &[u8], value: &[u8])
        requires
            old(self).wf(),
            old(self).target() == Some(Target::Table(old(snap).cf_index)),
            old(self).keys_written() < usize::MAX,
            old(snap).cf_index < old(snap).cf_files@.len(),
            old(snap).cf_files@[old(snap).cf_index as int].kv_count < u64::MAX,
        ensures
            final(self).wf(),
            final(self).target() == old(self).target(),
            final(self).done() == old(self).done(),
            final(self).current() == (CfContent {
                name: old(self).current().name,
                pairs: old(self).current().pairs.push((key@, value@)),
            }),
            ({
                let index = old(snap).cf_index as int;
                let file = old(snap).cf_files@[index];
                final(snap).cf_files@ == old(snap).cf_files@.update(
                    index,
                    CfFile { kv_count: (file.kv_count + 1) as u64, ..file },
                )
            }),
            final(snap).cf_index == old(snap).cf_index,
            final(snap).display_path == old(snap).display_path,
            final(snap).meta_file == old(snap).meta_file,
    {
        let index: usize = snap.cf_index;
        self.cf_count = self.cf_count + 1;
        snap.cf_files[index].kv_count = snap.cf_files[index].kv_count + 1;
        proof {
            let pairs = self.current@.pairs.push((key@, value@));
            self.current@ = CfContent { name: self.current@.name, pairs };
        }
    }

    /// Ends the column family. Gives the bytes that end a file of records, none for a table.
    pub fn end_cf(&mut self) -> (bytes: Vec<u8>)
        requires
            old(self).wf(),
            old(self).target() is Some,
            old(self).keys_written() <= usize::MAX,
        ensures
            final(self).wf(),
            final(self).target() is None,
            final(self).done() == old(self).done().push(old(self).current()),
            match old(self).target().unwrap() {
                Target::Records(_) => old(self).output() + bytes@ == stream_of(
                    pair_records(old(self).current().pairs).push(Seq::empty()),
                ),
                Target::Table(_) => bytes@.len() == 0,
            },
    {
        let out = match self.target {
            Some(Target::Records(_)) => encode_end(),
            _ => Vec::new(),
        };
        self.target = None;
        self.total = self.total + self.cf_count;
        self.cf_count = 0;
        proof {
            let before = pair_records(self.current@.pairs);
            let end = seq![Seq::<u8>::empty()];
            lemma_stream_append(before, end);
            assert(before + end =~= before.push(Seq::empty()));
            let done = self.done@.push(self.current@);
            assert(done.drop_last() =~= self.done@);
            self.done@ = done;
        }
        out
    }

    /// How many keys the column families hold that are complete.
    pub fn key_count(&self) -> (count: usize)
        requires
            self.wf(),
        ensures
            count == pair_count(self.done()),
    {
        self.total
    }
}

/// At every moment, the bytes given for a file of records are those of what was added so far.
pub proof fn law_recorded_bytes_are_records(building: Building)
    requires
        building.wf(),
        building.target() matches Some(Target::Records(_)),
    ensures
        building.output() == stream_of(pair_records(building.current().pairs)),
{
}

/// How the file of a column family is completed before it is given its own name.
#[derive(Clone, Copy, PartialEq, Eq, Debug, Structural)]
pub enum Finish {
    /// Close the file of records.
    CloseFile,
    /// Drop the writer of a table without keys: it cannot be finished.
    DropWriter,
    /// Finish the table.
    FinishWriter,
}

pub open spec fn finish_of(file: CfFile) -> Finish {
    if file.cf@ == CF_LOCK@ {
        Finish::CloseFile
    } else if file.kv_count == 0 {
        Finish::DropWriter
    } else {
        Finish::FinishWriter
    }
}

impl Snap {
    /// How to complete the file of a column family, before it is given its own name and
    /// [`Snap::cf_file_saved`] is told its size and checksum.
    pub fn save_cf_file(&self, i: usize) -> (finish: Finish)
        requires
            i < self.cf_files@.len(),
        ensures
            finish == finish_of(self.cf_files@[i as int]),
    {
        let file = &self.cf_files[i];
        if same_text(file.cf, CF_LOCK) {
            Finish::CloseFile
        } else if file.kv_count == 0 {
            Finish::DropWriter
        } else {
            Finish::FinishWriter
        }
    }

    /// The file of a column family stands under its own name, and has this size and checksum.
    pub fn cf_file_saved(&mut self, i: usize, size: u64, checksum: u32)
        requires
            i < old(self).cf_files@.len(),
        ensures
            final(self).cf_files@ == old(self).cf_files@.update(
                i as int,
                CfFile { size, checksum, ..old(self).cf_files@[i as int] },
            ),
            final(self).cf_index == old(self).cf_index,
            final(self).display_path == old(self).display_path,
            final(self).meta_file == old(self).meta_file,
    {
        self.cf_files[i].size = size;
        self.cf_files[i].checksum = checksum;
    }

    /// All files are complete: describes them in the snapshot's metadata, and in the message that
    /// announces the snapshot. Gives their size.
    pub fn describe(&mut self, snap_data: &mut RaftSnapshotData) -> (res: SnapResult<u64>)
        requires
            total_of(old(self).cf_files@) <= u64::MAX,
        ensures
            final(self).cf_files == old(self).cf_files,
            final(self).cf_index == old(self).cf_index,
            final(self).display_path == old(self).display_path,
            final(self).meta_file.path == old(self).meta_file.path,
            final(self).meta_file.tmp_path == old(self).meta_file.tmp_path,
            match res {
                Ok(size) => {
                    let files = old(self).cf_files@;
                    &&& forall|i: int| 0 <= i < files.len() ==> known((#[trigger] files[i]).cf@)
                    &&& size == total_of(files)
                    &&& final(self).meta_file.meta@ == meta_of(files)
                    &&& final(snap_data).meta@ == meta_of(files)
                    &&& final(snap_data).file_size == size
                    &&& final(snap_data).version == SNAPSHOT_VERSION
                    &&& final(snap_data).region == old(snap_data).region
                },
                Err(e) => {
                    &&& *final(self) == *old(self)
                    &&& *final(snap_data) == *old(snap_data)
                    &&& e matches Error::Other(Failure::EncodeInvalidCf(cf))
                    &&& exists|i: int|
                        #![trigger old(self).cf_files@[i]]
                        first_unknown(old(self).cf_files@, i) && cf@ == old(self).cf_files@[i].cf@
                },
            },
    {
        match get_snapshot_meta(&self.cf_files) {
            Ok((total_size, snapshot_meta)) => {
                snap_data.file_size = total_size;
                snap_data.version = SNAPSHOT_VERSION;
                snap_data.meta = snapshot_meta.clone();
                self.meta_file.meta = snapshot_meta;
                Ok(total_size)
            },
            Err(e) => Err(e),
        }
    }
}

/// What completing the files of a snapshot does next.
#[derive(Clone, Copy, PartialEq, Eq, Debug, Structural)]
pub enum FinishStep {
    /// Complete the file of a column family in this way, give it its own name, and find its size
    /// and checksum.
    File(usize, Finish),
    /// Nothing: all are complete.
    Done,
}

/// Files with the sizes and checksums that were found, up to one of them.
pub open spec fn with_found(files: Seq<CfFile>, found: Seq<(u64, u32)>) -> Seq<CfFile> {
    files.map(
        |i: int, file: CfFile|
            if i < found.len() {
                CfFile { size: found[i].0, checksum: found[i].1, ..file }
            } else {
                file
            },
    )
}

/// Completes the files of a snapshot that was built, one after the other.
pub struct Finishing {
    index: usize,
    start: Ghost<Seq<CfFile>>,
    found: Ghost<Seq<(u64, u32)>>,
}

impl Finishing {
    /// How many files are complete.
    pub closed spec fn index(&self) -> usize {
        self.index
    }

    /// The files as they were at the start.
    pub closed spec fn start(&self) -> Seq<CfFile> {
        self.start@
    }

    /// The sizes and checksums that were found, in order.
    pub closed spec fn found(&self) -> Seq<(u64, u32)> {
        self.found@
    }

    /// Each file before the current one was completed once, in order, and has the size and the
    /// checksum that were found; the others are as they were.
    pub open spec fn wf(&self, snap: Snap) -> bool {
        &&& self.index() == self.found().len()
        &&& self.index() <= self.start().len()
        &&& snap.cf_files@ == with_found(self.start(), self.found())
    }

    pub fn new(snap: &Snap) -> (finishing: Finishing)
        ensures
            finishing.wf(*snap),
            finishing.index() == 0,
            finishing.start() == snap.cf_files@,
    {
        assert(with_found(snap.cf_files@, Seq::empty()) =~= snap.cf_files@);
        Finishing { index: 0, start: Ghost(snap.cf_files@), found: Ghost(Seq::empty()) }
    }

    /// What to do next.
    pub fn next(&self, snap: &Snap) -> (step: FinishStep)
        requires
            self.wf(*snap),
        ensures
            step == (if self.index() < snap.cf_files@.len() {
                FinishStep::File(self.index(), finish_of(self.start()[self.index() as int]))
            } else {
                FinishStep::Done
            }),
    {
        assert(snap.cf_files@.len() == self.start().len());
        if self.index >= snap.cf_files.len() {
            return FinishStep::Done;
        }
        assert(snap.cf_files@[self.index as int] == self.start()[self.index as int]);
        FinishStep::File(self.index, snap.save_cf_file(self.index))
    }

    /// The file stands under its own name, and has this size and checksum.
    pub fn done(&mut self, snap: &mut Snap, size: u64, checksum: u32)
        requires
            old(self).wf(*old(snap)),
            old(self).index() < old(snap).cf_files@.len(),
        ensures
            final(self).wf(*final(snap)),
            final(self).index() == old(self).index() + 1,
            final(self).start() == old(self).start(),
            final(self).found() == old(self).found().push((size, checksum)),
            final(snap).cf_index == old(snap).cf_index,
            final(snap).display_path == old(snap).display_path,
            final(snap).meta_file == old(snap).meta_file,
    {
        assert(self.index < snap.cf_files.len());
        snap.cf_file_saved(self.index, size, checksum);
        self.index = self.index + 1;
        proof {
            let found = self.found@.push((size, checksum));
            assert(snap.cf_files@ =~= with_found(self.start@, found));
            self.found@ = found;
        }
    }
}

/// Once there is nothing left to do, every file was completed, and is recorded with the size and
/// checksum that were found for it.
pub proof fn law_every_file_is_finished(finishing: Finishing, snap: Snap)
    requires
        finishing.wf(snap),
        finishing.index() >= snap.cf_files@.len(),
    ensures
        finishing.found().len() == snap.cf_files@.len(),
        as_recorded(snap.cf_files@, finishing.found()),
{
    let files = snap.cf_files@;
    assert(files.len() == finishing.start().len());
    assert forall|i: int| 0 <= i < finishing.found().len() implies #[trigger] finishing.found()[i]
        == (files[i].size, files[i].checksum) by {
        assert(files[i] == with_found(finishing.start(), finishing.found())[i]);
    }
}

/// The metadata file is saved too: the snapshot is complete.
pub fn finish_build(size: u64, track: &mut SizeTrack, context: &mut BuildContext)
    ensures
        final(track).total == size_after_save(old(track).total, size),
        *final(context) == (BuildContext { snapshot_size: size, ..*old(context) }),
{
    track.saved(size);
    context.snapshot_size = size;
}

/// How a file is completed: a file of locks is closed, a table with keys is finished, and one
/// without is dropped.
pub proof fn law_how_files_are_completed(file: CfFile)
    ensures
        finish_of(file) == Finish::CloseFile <==> file.cf@ == "lock"@,
        finish_of(file) == Finish::FinishWriter <==> file.cf@ != "lock"@ && file.kv_count > 0,
        finish_of(file) == Finish::DropWriter <==> file.cf@ != "lock"@ && file.kv_count == 0,
{
}

/// Recording sizes and checksums changes nothing else of the files, and nothing of those for which
/// none was found.
pub proof fn law_found_is_recorded(files: Seq<CfFile>, found: Seq<(u64, u32)>, i: int)
    requires
        0 <= i < files.len(),
    ensures
        with_found(files, found).len() == files.len(),
        i < found.len() ==> with_found(files, found)[i] == (CfFile {
            size: found[i].0,
            checksum: found[i].1,
            ..files[i]
        }),
        i >= found.len() ==> with_found(files, found)[i] == files[i],
{
}

/// The file of a column family is the first one that has its name; there is none exactly if no file
/// has it.
pub proof fn law_file_of_a_column_family(files: Seq<CfFile>, cf: Seq<char>, i: int, j: int)
    ensures
        first_of_cf(files, cf, i) ==> 0 <= i < files.len() && files[i].cf@ == cf,
        first_of_cf(files, cf, i) && 0 <= j < files.len() && files[j].cf@ == cf ==> i <= j,
        has_cf(files, cf) <==> !(forall|k: int|
            0 <= k < files.len() ==> (#[trigger] files[k]).cf@ != cf),
{
}

/// A message that announces a snapshot with a file for each column family says version two.
pub proof fn law_version_of_many_files()
    ensures
        SNAPSHOT_VERSION == 2,
{
}

} // verus!
