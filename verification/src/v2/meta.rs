//! What a snapshot's metadata says of its files.

use crate::error::{Error, Failure, SnapResult};
use crate::text::same_text;
use crate::types::{CfFileView, CfName, SnapshotCfFile, SnapshotMeta};
use crate::v2::files::{cf_texts, snapshot_cf_names, snapshot_cfs, CfFile, Snap};
use vstd::prelude::*;

verus! {

/// How many bytes files take together.
pub open spec fn total_of(files: Seq<CfFile>) -> nat
    decreases files.len(),
{
    if files.len() == 0 {
        0
    } else {
        total_of(files.drop_last()) + files.last().size as nat
    }
}

pub proof fn lemma_total_of_prefix(files: Seq<CfFile>, i: int)
    requires
        0 <= i < files.len(),
    ensures
        total_of(files.take(i + 1)) == total_of(files.take(i)) + files[i].size,
        total_of(files.take(i + 1)) <= total_of(files),
    decreases files.len() - i,
{
    assert(files.take(i + 1).drop_last() =~= files.take(i));
    if i + 1 < files.len() {
        lemma_total_of_prefix(files, i + 1);
    } else {
        assert(files.take(i + 1) =~= files);
    }
}

/// Whether snapshots have a file for a column family.
pub open spec fn known(cf: Seq<char>) -> bool {
    snapshot_cf_names().contains(cf)
}

/// Finds the name of a column family among those that snapshots have a file for.
fn find_cf(cf: &str) -> (found: Option<CfName>)
    ensures
        found is Some <==> known(cf@),
        found matches Some(name) ==> name@ == cf@,
{
    let cfs = snapshot_cfs();
    let mut i: usize = 0;
    while i < cfs.len()
        invariant
            i <= cfs@.len(),
            cf_texts(cfs@) == snapshot_cf_names(),
            forall|j: int| 0 <= j < i ==> cf_texts(cfs@)[j] != cf@,
        decreases cfs@.len() - i,
    {
        if same_text(cfs[i], cf) {
            assert(cf_texts(cfs@)[i as int] == cf@);
            return Some(cfs[i]);
        }
        i = i + 1;
    }
    None
}

/// What metadata says of a file.
pub open spec fn described(file: CfFile) -> CfFileView {
    CfFileView { cf: file.cf@, size: file.size, checksum: file.checksum }
}

/// The metadata of files.
pub open spec fn meta_of(files: Seq<CfFile>) -> Seq<CfFileView> {
    files.map_values(|file: CfFile| described(file))
}

/// The first file of a column family that snapshots do not hold is at this place.
pub open spec fn first_unknown(files: Seq<CfFile>, i: int) -> bool {
    &&& 0 <= i < files.len()
    &&& !known(files[i].cf@)
    &&& forall|j: int| 0 <= j < i ==> known((#[trigger] files[j]).cf@)
}

/// The size of all files, and their metadata. Refuses a file of a column family that snapshots do
/// not hold.
pub fn get_snapshot_meta(cf_files: &Vec<CfFile>) -> (res: SnapResult<(u64, SnapshotMeta)>)
    requires
        total_of(cf_files@) <= u64::MAX,
    ensures
        match res {
            Ok(found) => {
                &&& forall|i: int| 0 <= i < cf_files@.len() ==> known((#[trigger] cf_files@[i]).cf@)
                &&& found.0 == total_of(cf_files@)
                &&& found.1@ == meta_of(cf_files@)
            },
            Err(e) => {
                &&& e matches Error::Other(Failure::EncodeInvalidCf(cf))
                &&& exists|i: int|
                    #![trigger cf_files@[i]]
                    first_unknown(cf_files@, i) && cf@ == cf_files@[i].cf@
            },
        },
{
    let mut total_size: u64 = 0;
    let mut meta: Vec<SnapshotCfFile> = Vec::new();
    let mut i: usize = 0;
    while i < cf_files.len()
        invariant
            i <= cf_files@.len(),
            total_of(cf_files@) <= u64::MAX,
            total_size == total_of(cf_files@.take(i as int)),
            meta@.len() == i,
            forall|j: int| 0 <= j < i ==> known((#[trigger] cf_files@[j]).cf@),
            forall|j: int| 0 <= j < i ==> (#[trigger] meta@[j])@ == described(cf_files@[j]),
        decreases cf_files@.len() - i,
    {
        let cf_file = &cf_files[i];
        if find_cf(cf_file.cf).is_none() {
            assert(first_unknown(cf_files@, i as int));
            return Err(Error::Other(Failure::EncodeInvalidCf(cf_file.cf.to_owned())));
        }
        proof {
            lemma_total_of_prefix(cf_files@, i as int);
        }
        total_size = total_size + cf_file.size;
        meta.push(
            SnapshotCfFile {
                cf: cf_file.cf.to_owned(),
                size: cf_file.size,
                checksum: cf_file.checksum,
            },
        );
        i = i + 1;
    }
    assert(cf_files@.take(i as int) =~= cf_files@);
    let snapshot_meta = SnapshotMeta { cf_files: meta };
    assert(snapshot_meta@ =~= meta_of(cf_files@));
    Ok((total_size, snapshot_meta))
}

/// The column families that metadata names.
pub open spec fn meta_names(meta: Seq<CfFileView>) -> Seq<Seq<char>> {
    meta.map_values(|file: CfFileView| file.cf)
}

/// A name that snapshots do not hold, or one that occurs twice.
pub open spec fn bad_name(names: Seq<Seq<char>>, i: int) -> bool {
    !known(names[i]) || names.take(i).contains(names[i])
}

pub open spec fn no_bad_name(names: Seq<Seq<char>>) -> bool {
    forall|i: int| 0 <= i < names.len() ==> !#[trigger] bad_name(names, i)
}

pub open spec fn first_bad_name(names: Seq<Seq<char>>, i: int) -> bool {
    &&& 0 <= i < names.len()
    &&& bad_name(names, i)
    &&& forall|j: int| 0 <= j < i ==> !#[trigger] bad_name(names, j)
}

/// Metadata that names each of the column families once.
pub open spec fn complete(names: Seq<Seq<char>>) -> bool {
    no_bad_name(names) && names.len() == snapshot_cf_names().len()
}

/// The column families that metadata names, in its order. Refuses metadata that does not name each
/// of them once.
pub fn check_snapshot_meta(snapshot_meta: &SnapshotMeta) -> (res: SnapResult<Vec<CfName>>)
    ensures
        ({
            let names = meta_names(snapshot_meta@);
            match res {
                Ok(cfs) => complete(names) && cf_texts(cfs@) == names,
                Err(Error::Other(Failure::DecodeInvalidCf(cf))) => exists|i: int|
                    #[trigger] first_bad_name(names, i) && !known(names[i]) && cf@ == names[i],
                Err(Error::Other(Failure::DecodeDuplicatedCf(cf))) => exists|i: int|
                    #[trigger] first_bad_name(names, i) && known(names[i]) && cf@ == names[i],
                Err(Error::Other(Failure::CfCount(got, expect))) => {
                    &&& no_bad_name(names)
                    &&& got == names.len()
                    &&& expect == snapshot_cf_names().len()
                    &&& got != expect
                },
                Err(_) => false,
            }
        }),
{
    let ghost names = meta_names(snapshot_meta@);
    let mut res: Vec<CfName> = Vec::new();
    let mut i: usize = 0;
    while i < snapshot_meta.cf_files.len()
        invariant
            i <= snapshot_meta.cf_files@.len(),
            names == meta_names(snapshot_meta@),
            cf_texts(res@) == names.take(i as int),
            forall|j: int| 0 <= j < i ==> !#[trigger] bad_name(names, j),
        decreases snapshot_meta.cf_files@.len() - i,
    {
        let cf = &snapshot_meta.cf_files[i].cf;
        assert(names[i as int] == cf@);
        match find_cf(cf.as_str()) {
            None => {
                assert(first_bad_name(names, i as int));
                return Err(Error::Other(Failure::DecodeInvalidCf(cf.clone())));
            },
            Some(name) => {
                if contains_cf(&res, name) {
                    assert(first_bad_name(names, i as int));
                    return Err(Error::Other(Failure::DecodeDuplicatedCf(name.to_owned())));
                }
                assert(!bad_name(names, i as int));
                let ghost before = res@;
                res.push(name);
                proof {
                    assert(cf_texts(before).len() == i);
                    assert(cf_texts(res@) =~= cf_texts(before).push(name@));
                    assert(names.take(i + 1) =~= names.take(i as int).push(names[i as int]));
                }
            },
        }
        i = i + 1;
    }
    assert(names.take(i as int) =~= names);
    assert(cf_texts(res@).len() == res@.len());
    let expect: usize = snapshot_cfs().len();
    assert(snapshot_cf_names().len() == 3);
    assert(expect == 3) by {
        assert forall|cfs: Seq<CfName>| #[trigger] cf_texts(cfs).len() == cfs.len() by {}
    }
    if res.len() != expect {
        return Err(Error::Other(Failure::CfCount(res.len() as u64, expect as u64)));
    }
    Ok(res)
}

fn contains_cf(cfs: &Vec<CfName>, cf: &str) -> (found: bool)
    ensures
        found == cf_texts(cfs@).contains(cf@),
{
    let mut i: usize = 0;
    while i < cfs.len()
        invariant
            i <= cfs@.len(),
            forall|j: int| 0 <= j < i ==> cf_texts(cfs@)[j] != cf@,
        decreases cfs@.len() - i,
    {
        if same_text(cfs[i], cf) {
            assert(cf_texts(cfs@)[i as int] == cf@);
            return true;
        }
        i = i + 1;
    }
    false
}

/// What metadata says first of a column family, if anything.
pub open spec fn entry_of(meta: Seq<CfFileView>, cf: Seq<char>) -> Option<CfFileView>
    decreases meta.len(),
{
    if meta.len() == 0 {
        None
    } else if meta[0].cf == cf {
        Some(meta[0])
    } else {
        entry_of(meta.drop_first(), cf)
    }
}

fn find_entry<'a>(meta: &'a SnapshotMeta, cf: &str) -> (found: Option<&'a SnapshotCfFile>)
    ensures
        match found {
            Some(entry) => entry_of(meta@, cf@) == Some(entry@),
            None => entry_of(meta@, cf@) is None,
        },
{
    let mut i: usize = 0;
    assert(meta@.skip(0) =~= meta@);
    while i < meta.cf_files.len()
        invariant
            i <= meta.cf_files@.len(),
            entry_of(meta@.skip(i as int), cf@) == entry_of(meta@, cf@),
        decreases meta.cf_files@.len() - i,
    {
        let entry = &meta.cf_files[i];
        assert(meta@.skip(i as int)[0] == entry@);
        if same_text(entry.cf.as_str(), cf) {
            return Some(entry);
        }
        assert(meta@.skip(i as int).drop_first() =~= meta@.skip(i + 1));
        i = i + 1;
    }
    None
}

/// A file with the size and the checksum that metadata says.
pub open spec fn with_entry(file: CfFile, entry: CfFileView) -> CfFile {
    CfFile { size: entry.size, checksum: entry.checksum, ..file }
}

/// Files with the sizes and checksums that metadata says, up to one of them.
pub open spec fn with_meta(files: Seq<CfFile>, meta: Seq<CfFileView>, count: int) -> Seq<CfFile> {
    files.map(
        |i: int, file: CfFile|
            if i < count {
                with_entry(file, entry_of(meta, file.cf@).unwrap())
            } else {
                file
            },
    )
}

/// The first file that metadata says nothing of is at this place.
pub open spec fn first_missing(files: Seq<CfFile>, meta: Seq<CfFileView>, i: int) -> bool {
    &&& 0 <= i < files.len()
    &&& entry_of(meta, files[i].cf@) is None
    &&& forall|j: int| 0 <= j < i ==> entry_of(meta, (#[trigger] files[j]).cf@) is Some
}

pub open spec fn covers(meta: Seq<CfFileView>, files: Seq<CfFile>) -> bool {
    forall|i: int| 0 <= i < files.len() ==> entry_of(meta, (#[trigger] files[i]).cf@) is Some
}

impl Snap {
    /// Takes over sizes and checksums from metadata. Stops at the first file that it says nothing
    /// of: the files before that have their new sizes and checksums then, the metadata is not kept.
    pub fn set_snapshot_meta(&mut self, snapshot_meta: SnapshotMeta) -> (res: SnapResult<()>)
        ensures
            final(self).display_path == old(self).display_path,
            final(self).cf_index == old(self).cf_index,
            final(self).meta_file.path == old(self).meta_file.path,
            final(self).meta_file.tmp_path == old(self).meta_file.tmp_path,
            match res {
                Ok(_) => {
                    &&& covers(snapshot_meta@, old(self).cf_files@)
                    &&& final(self).cf_files@ == with_meta(
                        old(self).cf_files@,
                        snapshot_meta@,
                        old(self).cf_files@.len() as int,
                    )
                    &&& final(self).meta_file.meta == snapshot_meta
                },
                Err(e) => {
                    &&& e matches Error::Other(Failure::CfNotInMeta(cf))
                    &&& exists|i: int|
                        #[trigger]
                        first_missing(old(self).cf_files@, snapshot_meta@, i) && cf@ == old(
                            self,
                        ).cf_files@[i].cf@ && final(self).cf_files@ == with_meta(
                            old(self).cf_files@,
                            snapshot_meta@,
                            i,
                        )
                    &&& final(self).meta_file == old(self).meta_file
                },
            },
    {
        let ghost files = self.cf_files@;
        let ghost meta = snapshot_meta@;
        assert(with_meta(files, meta, 0) =~= files);
        let mut i: usize = 0;
        while i < self.cf_files.len()
            invariant
                i <= files.len(),
                meta == snapshot_meta@,
                self.cf_files@ == with_meta(files, meta, i as int),
                self.display_path == old(self).display_path,
                self.cf_index == old(self).cf_index,
                self.meta_file == old(self).meta_file,
                files == old(self).cf_files@,
                forall|j: int| 0 <= j < i ==> entry_of(meta, (#[trigger] files[j]).cf@) is Some,
            decreases files.len() - i,
        {
            assert(self.cf_files@[i as int] == files[i as int]);
            let cf = self.cf_files[i].cf;
            match find_entry(&snapshot_meta, cf) {
                None => {
                    assert(first_missing(files, meta, i as int));
                    return Err(Error::Other(Failure::CfNotInMeta(cf.to_owned())));
                },
                Some(entry) => {
                    self.cf_files[i].size = entry.size;
                    self.cf_files[i].checksum = entry.checksum;
                },
            }
            assert(self.cf_files@ =~= with_meta(files, meta, i + 1));
            i = i + 1;
        }
        self.meta_file.meta = snapshot_meta;
        Ok(())
    }
}

/// The metadata that is made for the files of a snapshot is complete, and says of each file what
/// the file says of itself.
pub proof fn law_meta_describes_files(files: Seq<CfFile>)
    requires
        complete(files.map_values(|file: CfFile| file.cf@)),
    ensures
        complete(meta_names(meta_of(files))),
        covers(meta_of(files), files),
        with_meta(files, meta_of(files), files.len() as int) == files,
{
    let names = files.map_values(|file: CfFile| file.cf@);
    let meta = meta_of(files);
    assert(meta_names(meta) =~= names);
    assert forall|i: int| 0 <= i < files.len() implies entry_of(
        meta,
        (#[trigger] files[i]).cf@,
    ) == Some(described(files[i])) by {
        assert forall|j: int| 0 <= j < i implies (#[trigger] meta[j]).cf != files[i].cf@ by {
            assert(!bad_name(names, i));
            assert(names.take(i)[j] == names[j]);
        }
        lemma_entry_of_first(meta, i);
    }
    assert(with_meta(files, meta, files.len() as int) =~= files);
}

/// What is built here is accepted where it is received: the metadata of a snapshot's own files
/// names each column family once.
pub proof fn law_own_metadata_is_complete(files: Seq<CfFile>)
    requires
        files.map_values(|file: CfFile| file.cf@) == snapshot_cf_names(),
    ensures
        complete(meta_names(meta_of(files))),
{
    let names = snapshot_cf_names();
    assert(meta_names(meta_of(files)) =~= names);
    assert forall|i: int| 0 <= i < names.len() implies !#[trigger] bad_name(names, i) by {
        reveal_strlit("default");
        reveal_strlit("lock");
        reveal_strlit("write");
        assert(names.contains(names[i]));
        assert forall|j: int| 0 <= j < i implies names.take(i)[j] != names[i] by {
            assert(names[j].len() != names[i].len());
        }
    }
}

/// Metadata that names no column family twice has an entry for each file that is made from it, the
/// one at the file's own place: taking it over cannot fail.
pub proof fn law_checked_metadata_fits(meta: Seq<CfFileView>, files: Seq<CfFile>)
    requires
        no_bad_name(meta_names(meta)),
        files.map_values(|file: CfFile| file.cf@) == meta_names(meta),
    ensures
        covers(meta, files),
        meta_of(with_meta(files, meta, files.len() as int)) == meta,
{
    let names = meta_names(meta);
    let own = files.map_values(|file: CfFile| file.cf@);
    assert(own.len() == files.len() && names.len() == meta.len());
    assert forall|i: int| 0 <= i < files.len() implies entry_of(
        meta,
        (#[trigger] files[i]).cf@,
    ) == Some(meta[i]) by {
        assert(own[i] == files[i].cf@ && names[i] == meta[i].cf);
        assert forall|j: int| 0 <= j < i implies (#[trigger] meta[j]).cf != meta[i].cf by {
            assert(!bad_name(names, i));
            assert(names.take(i)[j] == names[j]);
        }
        lemma_entry_of_first(meta, i);
    }
    let after = with_meta(files, meta, files.len() as int);
    assert forall|i: int| 0 <= i < files.len() implies #[trigger] meta_of(after)[i] == meta[i] by {
        assert(own[i] == files[i].cf@ && names[i] == meta[i].cf);
        assert(entry_of(meta, files[i].cf@) == Some(meta[i]));
        assert(described(after[i]) == meta[i]);
    }
    assert(meta_of(after) =~= meta);
}

pub proof fn lemma_cf_names_differ()
    ensures
        snapshot_cf_names().len() == 3,
        snapshot_cf_names()[0] != snapshot_cf_names()[1],
        snapshot_cf_names()[0] != snapshot_cf_names()[2],
        snapshot_cf_names()[1] != snapshot_cf_names()[2],
{
    reveal_strlit("default");
    reveal_strlit("lock");
    reveal_strlit("write");
    let names = snapshot_cf_names();
    assert(names[0].len() == 7 && names[1].len() == 4 && names[2].len() == 5);
}

/// The place of a column family in complete metadata.
proof fn lemma_complete_has(meta: Seq<CfFileView>, k: int) -> (i: int)
    requires
        complete(meta_names(meta)),
        0 <= k < 3,
    ensures
        0 <= i < meta.len(),
        meta.len() == 3,
        meta[i].cf == snapshot_cf_names()[k],
        entry_of(meta, snapshot_cf_names()[k]) == Some(meta[i]),
{
    let names = meta_names(meta);
    let cfs = snapshot_cf_names();
    lemma_cf_names_differ();
    assert forall|j: int| 0 <= j < 3 implies known(#[trigger] names[j]) by {
        assert(!bad_name(names, j));
    }
    assert forall|a: int, b: int| 0 <= a < b < 3 implies #[trigger] names[a] != #[trigger] names[
        b] by {
        assert(!bad_name(names, b));
        assert(names.take(b)[a] == names[a]);
    }
    assert(known(names[0]) && known(names[1]) && known(names[2]));
    assert(names[0] == cfs[0] || names[0] == cfs[1] || names[0] == cfs[2]);
    assert(names[1] == cfs[0] || names[1] == cfs[1] || names[1] == cfs[2]);
    assert(names[2] == cfs[0] || names[2] == cfs[1] || names[2] == cfs[2]);
    let i: int = if names[0] == cfs[k] {
        0
    } else if names[1] == cfs[k] {
        1
    } else {
        2
    };
    assert(names[i] == cfs[k]);
    assert(meta[i].cf == names[i]);
    assert forall|j: int| 0 <= j < i implies (#[trigger] meta[j]).cf != meta[i].cf by {
        assert(names[j] == meta[j].cf);
    }
    lemma_entry_of_first(meta, i);
    i
}

/// How many bytes metadata announces.
pub open spec fn announced(meta: Seq<CfFileView>) -> nat
    decreases meta.len(),
{
    if meta.len() == 0 {
        0
    } else {
        announced(meta.drop_last()) + meta.last().size as nat
    }
}

/// What metadata announces is the size of the files that it describes.
pub proof fn law_announced_is_total(files: Seq<CfFile>)
    ensures
        announced(meta_of(files)) == total_of(files),
    decreases files.len(),
{
    if files.len() > 0 {
        law_announced_is_total(files.drop_last());
        assert(meta_of(files).drop_last() =~= meta_of(files.drop_last()));
    }
}

/// Complete metadata, in whatever order, covers the files of a snapshot that is read from disk:
/// each takes the size and checksum of its column family, and together they have the size that the
/// metadata announces. So a snapshot that was received and saved can be applied.
pub proof fn law_complete_metadata_covers(meta: Seq<CfFileView>, files: Seq<CfFile>)
    requires
        complete(meta_names(meta)),
        files.map_values(|file: CfFile| file.cf@) == snapshot_cf_names(),
    ensures
        covers(meta, files),
        forall|i: int|
            0 <= i < files.len() ==> meta.contains(
                #[trigger] described(with_meta(files, meta, files.len() as int)[i]),
            ),
        total_of(with_meta(files, meta, files.len() as int)) == announced(meta),
{
    let own = files.map_values(|file: CfFile| file.cf@);
    let cfs = snapshot_cf_names();
    let after = with_meta(files, meta, files.len() as int);
    lemma_cf_names_differ();
    assert(own.len() == files.len());
    assert(own[0] == files[0].cf@ && own[1] == files[1].cf@ && own[2] == files[2].cf@);
    let a = lemma_complete_has(meta, 0);
    let b = lemma_complete_has(meta, 1);
    let c = lemma_complete_has(meta, 2);
    assert(described(after[0]) == meta[a]);
    assert(described(after[1]) == meta[b]);
    assert(described(after[2]) == meta[c]);
    assert forall|i: int| 0 <= i < files.len() implies entry_of(
        meta,
        (#[trigger] files[i]).cf@,
    ) is Some by {
        assert(i == 0 || i == 1 || i == 2);
    }
    assert forall|i: int| 0 <= i < files.len() implies meta.contains(
        #[trigger] described(after[i]),
    ) by {
        assert(i == 0 || i == 1 || i == 2);
    }
    assert(a != b && a != c && b != c);
    lemma_total_of_three(after);
    lemma_announced_of_three(meta);
}

/// Files of the same column families in the same order take over each other's descriptions.
pub proof fn lemma_entries_by_name(built: Seq<CfFile>, fresh: Seq<CfFile>)
    requires
        built.map_values(|file: CfFile| file.cf@) == snapshot_cf_names(),
        fresh.map_values(|file: CfFile| file.cf@) == snapshot_cf_names(),
    ensures
        meta_of(with_meta(fresh, meta_of(built), fresh.len() as int)) == meta_of(built),
{
    law_own_metadata_is_complete(built);
    let meta = meta_of(built);
    assert(meta_names(meta) =~= built.map_values(|file: CfFile| file.cf@));
    law_checked_metadata_fits(meta, fresh);
}

proof fn lemma_total_of_three(files: Seq<CfFile>)
    requires
        files.len() == 3,
    ensures
        total_of(files) == files[0].size + files[1].size + files[2].size,
{
    reveal_with_fuel(total_of, 4);
}

proof fn lemma_announced_of_three(meta: Seq<CfFileView>)
    requires
        meta.len() == 3,
    ensures
        announced(meta) == meta[0].size + meta[1].size + meta[2].size,
{
    reveal_with_fuel(announced, 4);
}

proof fn lemma_entry_of_first(meta: Seq<CfFileView>, i: int)
    requires
        0 <= i < meta.len(),
        forall|j: int| 0 <= j < i ==> (#[trigger] meta[j]).cf != meta[i].cf,
    ensures
        entry_of(meta, meta[i].cf) == Some(meta[i]),
    decreases meta.len(),
{
    if i > 0 {
        let rest = meta.drop_first();
        assert(meta[0].cf != meta[i].cf);
        assert forall|j: int| 0 <= j < i - 1 implies (#[trigger] rest[j]).cf != rest[i - 1].cf by {
            assert(rest[j] == meta[j + 1]);
        }
        lemma_entry_of_first(rest, i - 1);
    }
}

/// Snapshots have a file for these three column families, and for no other.
pub proof fn law_known_column_families(cf: Seq<char>)
    ensures
        known(cf) <==> cf == "default"@ || cf == "lock"@ || cf == "write"@,
{
    let names = snapshot_cf_names();
    assert(names[0] == "default"@ && names[1] == "lock"@ && names[2] == "write"@);
    assert(names.len() == 3);
}

/// A name in metadata is bad exactly if snapshots have no file for it, or it stood there before.
pub proof fn law_bad_names(names: Seq<Seq<char>>, i: int)
    requires
        0 <= i < names.len(),
    ensures
        bad_name(names, i) <==> !known(names[i]) || exists|j: int|
            0 <= j < i && #[trigger] names[j] == names[i],
        first_bad_name(names, i) <==> bad_name(names, i) && no_bad_name(names.take(i)),
{
    let before = names.take(i);
    if before.contains(names[i]) {
        let j = choose|j: int| 0 <= j < before.len() && before[j] == names[i];
        assert(names[j] == names[i]);
    }
    if exists|j: int| 0 <= j < i && #[trigger] names[j] == names[i] {
        let j = choose|j: int| 0 <= j < i && #[trigger] names[j] == names[i];
        assert(before[j] == names[i]);
    }
    assert forall|j: int| 0 <= j < i implies #[trigger] bad_name(before, j) == bad_name(
        names,
        j,
    ) by {
        assert(before.take(j) =~= names.take(j));
    }
    if first_bad_name(names, i) {
        assert forall|j: int| 0 <= j < before.len() implies !#[trigger] bad_name(before, j) by {
            assert(!bad_name(names, j));
        }
    }
    if no_bad_name(before) {
        assert forall|j: int| 0 <= j < i implies !#[trigger] bad_name(names, j) by {
            assert(!bad_name(before, j));
        }
    }
}

/// Metadata is complete exactly if it names three column families, and these are the three that a
/// snapshot has, in some order.
pub proof fn law_complete_is_each_once(names: Seq<Seq<char>>)
    ensures
        complete(names) <==> names.len() == 3 && names.contains("default"@) && names.contains(
            "lock"@,
        ) && names.contains("write"@),
{
    lemma_cf_names_differ();
    let cfs = snapshot_cf_names();
    assert(cfs[0] == "default"@ && cfs[1] == "lock"@ && cfs[2] == "write"@);
    if complete(names) {
        let meta = names.map_values(
            |name: Seq<char>| CfFileView { cf: name, size: 0, checksum: 0 },
        );
        assert(meta_names(meta) =~= names);
        let a = lemma_complete_has(meta, 0);
        let b = lemma_complete_has(meta, 1);
        let c = lemma_complete_has(meta, 2);
        assert(names[a] == cfs[0] && names[b] == cfs[1] && names[c] == cfs[2]);
    }
    if names.len() == 3 && names.contains(cfs[0]) && names.contains(cfs[1]) && names.contains(
        cfs[2],
    ) {
        let a = choose|a: int| 0 <= a < names.len() && names[a] == cfs[0];
        let b = choose|b: int| 0 <= b < names.len() && names[b] == cfs[1];
        let c = choose|c: int| 0 <= c < names.len() && names[c] == cfs[2];
        assert(a != b && a != c && b != c);
        assert forall|i: int| 0 <= i < names.len() implies !#[trigger] bad_name(names, i) by {
            assert(i == a || i == b || i == c);
            law_bad_names(names, i);
            law_known_column_families(names[i]);
            assert forall|j: int| 0 <= j < i implies #[trigger] names[j] != names[i] by {
                assert(j == a || j == b || j == c);
            }
        }
    }
}

/// What metadata says of a column family is its first entry for it, and it says nothing exactly if
/// it has none.
pub proof fn law_first_entry_counts(meta: Seq<CfFileView>, cf: Seq<char>)
    ensures
        entry_of(meta, cf) is None <==> forall|i: int|
            0 <= i < meta.len() ==> (#[trigger] meta[i]).cf != cf,
        entry_of(meta, cf) matches Some(entry) ==> exists|i: int|
            {
                &&& 0 <= i < meta.len()
                &&& #[trigger] meta[i] == entry
                &&& entry.cf == cf
                &&& forall|j: int| 0 <= j < i ==> (#[trigger] meta[j]).cf != cf
            },
    decreases meta.len(),
{
    if meta.len() > 0 {
        let rest = meta.drop_first();
        law_first_entry_counts(rest, cf);
        if meta[0].cf == cf {
            assert(meta[0] == entry_of(meta, cf).unwrap());
        } else {
            if entry_of(rest, cf) is None {
                assert forall|i: int| 0 <= i < meta.len() implies (#[trigger] meta[i]).cf != cf by {
                    if i > 0 {
                        assert(rest[i - 1] == meta[i]);
                    }
                }
            } else {
                let entry = entry_of(rest, cf).unwrap();
                let k = choose|k: int|
                    {
                        &&& 0 <= k < rest.len()
                        &&& #[trigger] rest[k] == entry
                        &&& entry.cf == cf
                        &&& forall|j: int| 0 <= j < k ==> (#[trigger] rest[j]).cf != cf
                    };
                assert(meta[k + 1] == entry);
                assert forall|j: int| 0 <= j < k + 1 implies (#[trigger] meta[j]).cf != cf by {
                    if j > 0 {
                        assert(rest[j - 1] == meta[j]);
                    }
                }
            }
        }
    }
}

/// Taking over metadata gives each file up to a place the size and checksum of its entry, and
/// changes nothing else.
pub proof fn law_taking_over_metadata(
    files: Seq<CfFile>,
    meta: Seq<CfFileView>,
    count: int,
    i: int,
)
    requires
        0 <= i < files.len(),
        i < count ==> entry_of(meta, files[i].cf@) is Some,
    ensures
        with_meta(files, meta, count).len() == files.len(),
        i < count ==> with_meta(files, meta, count)[i] == (CfFile {
            size: entry_of(meta, files[i].cf@).unwrap().size,
            checksum: entry_of(meta, files[i].cf@).unwrap().checksum,
            ..files[i]
        }),
        i >= count ==> with_meta(files, meta, count)[i] == files[i],
{
}

/// Metadata has one entry for each file, in their order, with that file's column family, size and
/// checksum.
pub proof fn law_metadata_goes_by_file(files: Seq<CfFile>, i: int)
    requires
        0 <= i < files.len(),
    ensures
        meta_of(files).len() == files.len(),
        meta_of(files)[i].cf == files[i].cf@,
        meta_of(files)[i].size == files[i].size,
        meta_of(files)[i].checksum == files[i].checksum,
        meta_names(meta_of(files))[i] == files[i].cf@,
{
}

/// Sizes add up over files, whatever their order and number.
pub proof fn law_file_sizes_add_up(a: Seq<CfFile>, b: Seq<CfFile>, file: CfFile)
    ensures
        total_of(a + b) == total_of(a) + total_of(b),
        total_of(seq![file]) == file.size,
    decreases b.len(),
{
    let one = seq![file];
    assert(one.drop_last() =~= Seq::<CfFile>::empty());
    assert(total_of(one.drop_last()) == 0);
    if b.len() == 0 {
        assert(a + b =~= a);
    } else {
        law_file_sizes_add_up(a, b.drop_last(), file);
        assert((a + b).drop_last() =~= a + b.drop_last());
    }
}

/// The file at which describing or taking over stops is the first one that gives cause: those
/// before it give none.
pub proof fn law_first_cause(files: Seq<CfFile>, meta: Seq<CfFileView>, i: int, j: int)
    requires
        0 <= j < files.len(),
    ensures
        first_unknown(files, i) ==> 0 <= i < files.len() && !known(files[i].cf@) && (j < i
            ==> known(files[j].cf@)),
        first_missing(files, meta, i) ==> 0 <= i < files.len() && entry_of(meta, files[i].cf@) is None
            && (j < i ==> entry_of(meta, files[j].cf@) is Some),
        covers(meta, files) ==> entry_of(meta, files[j].cf@) is Some,
{
}

/// Announced sizes add up over metadata.
pub proof fn law_announced_sizes_add_up(
    a: Seq<CfFileView>,
    b: Seq<CfFileView>,
    entry: CfFileView,
)
    ensures
        announced(a + b) == announced(a) + announced(b),
        announced(seq![entry]) == entry.size,
    decreases b.len(),
{
    let one = seq![entry];
    assert(one.drop_last() =~= Seq::<CfFileView>::empty());
    assert(announced(one.drop_last()) == 0);
    if b.len() == 0 {
        assert(a + b =~= a);
    } else {
        law_announced_sizes_add_up(a, b.drop_last(), entry);
        assert((a + b).drop_last() =~= a + b.drop_last());
    }
}

} // verus!
