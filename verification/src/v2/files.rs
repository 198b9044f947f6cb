//! The files of a snapshot, and how they are named.

use crate::key::SnapKey;
use crate::names::{
    cf_file_name, file_kind_of, file_prefix, join_path, law_cf_file_names, lemma_pieces_single,
    make_cf_file_name, make_meta_file_name, make_prefix, make_tmp_name, meta_file_name, numbers_in,
    path_in, snap_of_name, tmp_name, FileKind, SST_FILE_SUFFIX,
};
use crate::text::{pieces, parsed_u64};
use crate::types::{CfName, SnapshotMeta, CF_DEFAULT, CF_LOCK, CF_WRITE};
use vstd::prelude::*;

verus! {

/// The column families that a snapshot has files for.
pub fn snapshot_cfs() -> (cfs: Vec<CfName>)
    ensures
        cf_texts(cfs@) == snapshot_cf_names(),
{
    let cfs: Vec<CfName> = vec![CF_DEFAULT, CF_LOCK, CF_WRITE];
    assert(cf_texts(cfs@) =~= snapshot_cf_names());
    cfs
}

pub open spec fn snapshot_cf_names() -> Seq<Seq<char>> {
    seq![CF_DEFAULT@, CF_LOCK@, CF_WRITE@]
}

pub open spec fn cf_texts(cfs: Seq<CfName>) -> Seq<Seq<char>> {
    cfs.map_values(|cf: CfName| cf@)
}

/// The file of one column family.
pub struct CfFile {
    pub cf: CfName,
    pub path: String,
    pub size: u64,
    /// How many keys were added while the snapshot is built.
    pub kv_count: u64,
    /// Where the file stands until it is complete.
    pub tmp_path: String,
    /// How many bytes were written while the snapshot is received.
    pub written_size: u64,
    pub checksum: u32,
    /// The bytes that were written while the snapshot is received.
    pub written: Ghost<Seq<u8>>,
}

impl Default for CfFile {
    fn default() -> (file: CfFile)
        ensures
            file.cf@ == ""@,
            file.path@ == ""@,
            file.size == 0,
            file.kv_count == 0,
            file.tmp_path@ == ""@,
            file.written_size == 0,
            file.checksum == 0,
            file.written@ == Seq::<u8>::empty(),
    {
        CfFile {
            cf: "",
            path: "".to_owned(),
            size: 0,
            kv_count: 0,
            tmp_path: "".to_owned(),
            written_size: 0,
            checksum: 0,
            written: Ghost(Seq::empty()),
        }
    }
}

/// The file that holds a snapshot's metadata.
pub struct MetaFile {
    pub meta: SnapshotMeta,
    pub path: String,
    /// Where the file stands until it is complete.
    pub tmp_path: String,
}

/// A snapshot with a file for each column family, and one for its metadata.
pub struct Snap {
    pub display_path: String,
    pub cf_files: Vec<CfFile>,
    /// The file that is being built, read or written.
    pub cf_index: usize,
    pub meta_file: MetaFile,
}

/// The names of the column families as they are shown: `(default|lock|write)`.
pub open spec fn shown_names(names: Seq<Seq<char>>) -> Seq<char>
    decreases names.len(),
{
    if names.len() == 0 {
        Seq::empty()
    } else {
        shown_names(names.drop_last()) + seq![
            if names.len() == 1 {
                '('
            } else {
                '|'
            },
        ] + names.last()
    }
}

/// The path under which a snapshot is shown.
pub open spec fn display_path_of(dir: Seq<char>, prefix: Seq<char>) -> Seq<char> {
    dir + seq!['/'] + prefix + seq!['_'] + shown_names(snapshot_cf_names()) + seq![')']
        + SST_FILE_SUFFIX@
}

/// How the file of a column family is made.
pub open spec fn new_cf_file(
    file: CfFile,
    dir: Seq<char>,
    is_sending: bool,
    key: SnapKey,
    cf: Seq<char>,
) -> bool {
    &&& file.cf@ == cf
    &&& file.path@ == path_in(dir, cf_file_name(is_sending, key, cf))
    &&& file.tmp_path@ == tmp_name(file.path@)
    &&& file.size == 0
    &&& file.checksum == 0
    &&& file.kv_count == 0
    &&& file.written_size == 0
    &&& file.written@ == Seq::<u8>::empty()
}

impl Snap {
    /// A snapshot of which nothing but the names is known.
    pub open spec fn is_new(
        &self,
        dir: Seq<char>,
        is_sending: bool,
        key: SnapKey,
        cfs: Seq<Seq<char>>,
    ) -> bool {
        &&& self.display_path@ == display_path_of(dir, file_prefix(is_sending, key))
        &&& self.cf_files@.len() == cfs.len()
        &&& forall|i: int|
            0 <= i < cfs.len() ==> new_cf_file(
                #[trigger] self.cf_files@[i],
                dir,
                is_sending,
                key,
                cfs[i],
            )
        &&& self.cf_index == 0
        &&& self.meta_file.meta@.len() == 0
        &&& self.meta_file.path@ == path_in(dir, meta_file_name(is_sending, key))
        &&& self.meta_file.tmp_path@ == tmp_name(self.meta_file.path@)
    }

    /// Names the files of a snapshot.
    pub fn new(dir: &str, key: &SnapKey, cfs: &Vec<CfName>, sending: bool) -> (snap: Snap)
        ensures
            snap.is_new(dir@, sending, *key, cf_texts(cfs@)),
    {
        let prefix = make_prefix(sending, key);
        let display_path = Snap::get_display_path(dir, prefix.as_str());
        let mut cf_files: Vec<CfFile> = Vec::new();
        let mut i: usize = 0;
        while i < cfs.len()
            invariant
                i <= cfs@.len(),
                prefix@ == file_prefix(sending, *key),
                cf_files@.len() == i,
                forall|j: int|
                    0 <= j < i ==> new_cf_file(
                        #[trigger] cf_files@[j],
                        dir@,
                        sending,
                        *key,
                        cfs@[j]@,
                    ),
            decreases cfs@.len() - i,
        {
            let name = make_cf_file_name(prefix.as_str(), cfs[i]);
            let path = join_path(dir, name.as_str());
            let tmp_path = make_tmp_name(path.as_str());
            cf_files.push(
                CfFile {
                    cf: cfs[i],
                    path,
                    size: 0,
                    kv_count: 0,
                    tmp_path,
                    written_size: 0,
                    checksum: 0,
                    written: Ghost(Seq::empty()),
                },
            );
            i = i + 1;
        }
        let meta_path = join_path(dir, make_meta_file_name(prefix.as_str()).as_str());
        let meta_tmp_path = make_tmp_name(meta_path.as_str());
        let meta_file = MetaFile {
            meta: SnapshotMeta { cf_files: Vec::new() },
            path: meta_path,
            tmp_path: meta_tmp_path,
        };
        Snap { display_path, cf_files, cf_index: 0, meta_file }
    }

    /// The path under which the snapshot is shown: one text that stands for all its files.
    pub fn get_display_path(dir: &str, prefix: &str) -> (path: String)
        ensures
            path@ == display_path_of(dir@, prefix@),
    {
        let cfs = snapshot_cfs();
        let mut names = String::new();
        let mut i: usize = 0;
        while i < cfs.len()
            invariant
                i <= cfs@.len(),
                cf_texts(cfs@) == snapshot_cf_names(),
                names@ == shown_names(cf_texts(cfs@).take(i as int)),
                i > 0 ==> names@.len() > 0,
            decreases cfs@.len() - i,
        {
            proof {
                reveal_strlit("(");
                reveal_strlit("|");
                assert("("@ =~= seq!['(']);
                assert("|"@ =~= seq!['|']);
                let all = cf_texts(cfs@);
                assert(all.take(i + 1).drop_last() =~= all.take(i as int));
                assert(all.take(i + 1).last() == cfs@[i as int]@);
                assert(i == 0 ==> names@ =~= Seq::<char>::empty());
            }
            if names.as_str().is_empty() {
                names.append("(");
            } else {
                names.append("|");
            }
            names.append(cfs[i]);
            i = i + 1;
        }
        proof {
            reveal_strlit(")");
            reveal_strlit("/");
            reveal_strlit("_");
            assert(")"@ =~= seq![')']);
            assert("/"@ =~= seq!['/']);
            assert("_"@ =~= seq!['_']);
            assert(cf_texts(cfs@).take(i as int) =~= cf_texts(cfs@));
        }
        names.append(")");
        let mut out = dir.to_owned();
        out.append("/");
        out.append(prefix);
        out.append("_");
        out.append(names.as_str());
        out.append(SST_FILE_SUFFIX);
        assert(out@ =~= display_path_of(dir@, prefix@));
        out
    }

    /// The path under which the snapshot is shown.
    pub fn path(&self) -> (path: &str)
        ensures
            path@ == self.display_path@,
    {
        self.display_path.as_str()
    }
}

/// Every file of a snapshot's column families, finished or not, stands for the snapshot. At
/// start-up a finished one is counted and an unfinished one removed.
pub proof fn law_snapshot_cf_file_names(is_sending: bool, key: SnapKey, cf: Seq<char>)
    requires
        snapshot_cf_names().contains(cf),
    ensures
        snap_of_name(cf_file_name(is_sending, key, cf)) == Some((key, is_sending)),
        snap_of_name(tmp_name(cf_file_name(is_sending, key, cf))) == Some((key, is_sending)),
        file_kind_of(cf_file_name(is_sending, key, cf)) == FileKind::Data,
        file_kind_of(tmp_name(cf_file_name(is_sending, key, cf))) == FileKind::Temporary,
{
    reveal_strlit("default");
    reveal_strlit("lock");
    reveal_strlit("write");
    lemma_pieces_single(cf, '_');
    assert(parsed_u64(cf) is None);
    assert(seq![cf].drop_last() =~= Seq::<Seq<char>>::empty());
    assert(numbers_in(seq![cf].drop_last()) =~= Seq::<u64>::empty());
    assert(numbers_in(pieces(cf, '_')) =~= Seq::<u64>::empty());
    law_cf_file_names(is_sending, key, cf);
}

/// Two snapshots never share the file of a column family, nor do two column families of one.
pub proof fn law_snapshot_cf_file_names_differ(
    is_sending: bool,
    key: SnapKey,
    cf: Seq<char>,
    other_sending: bool,
    other: SnapKey,
    other_cf: Seq<char>,
)
    requires
        snapshot_cf_names().contains(cf),
        snapshot_cf_names().contains(other_cf),
        cf_file_name(is_sending, key, cf) == cf_file_name(other_sending, other, other_cf),
    ensures
        key == other,
        is_sending == other_sending,
        cf == other_cf,
{
    assert(key == other && is_sending == other_sending) by {
        law_snapshot_cf_file_names(is_sending, key, cf);
        law_snapshot_cf_file_names(other_sending, other, other_cf);
    }
    lemma_middle_is_unique(
        file_prefix(is_sending, key) + seq!['_'],
        cf,
        other_cf,
        SST_FILE_SUFFIX@,
    );
}

/// What stands between a fixed beginning and a fixed end is unique.
proof fn lemma_middle_is_unique(
    start: Seq<char>,
    one: Seq<char>,
    other: Seq<char>,
    end: Seq<char>,
)
    requires
        start + one + end == start + other + end,
    ensures
        one == other,
{
    let whole = start + one + end;
    assert(whole.len() == start.len() + one.len() + end.len());
    assert(whole.len() == (start + other + end).len());
    assert forall|i: int| 0 <= i < one.len() implies one[i] == other[i] by {
        assert(whole[start.len() + i] == one[i]);
        assert((start + other + end)[start.len() + i] == other[i]);
    }
    assert(one =~= other);
}

/// The column families of a snapshot, and how a snapshot is shown, letter by letter.
pub proof fn law_shown_letter_by_letter(dir: Seq<char>, prefix: Seq<char>)
    ensures
        snapshot_cf_names() == seq!["default"@, "lock"@, "write"@],
        display_path_of(dir, prefix) == dir + "/"@ + prefix + "_(default|lock|write).sst"@,
{
    reveal_strlit("default");
    reveal_strlit("lock");
    reveal_strlit("write");
    reveal_strlit("/");
    reveal_strlit(".sst");
    reveal_strlit("_(default|lock|write).sst");
    let names = snapshot_cf_names();
    assert(names =~= seq!["default"@, "lock"@, "write"@]);
    assert(names.drop_last() =~= seq!["default"@, "lock"@]);
    assert(names.drop_last().drop_last() =~= seq!["default"@]);
    assert(names.drop_last().drop_last().drop_last() =~= Seq::<Seq<char>>::empty());
    let none = Seq::<Seq<char>>::empty();
    assert(shown_names(none) =~= Seq::<char>::empty());
    let one = seq!["default"@];
    assert(shown_names(one) =~= seq!['('] + "default"@);
    let two = seq!["default"@, "lock"@];
    assert(shown_names(two) =~= seq!['('] + "default"@ + seq!['|'] + "lock"@);
    assert(shown_names(names) =~= seq!['('] + "default"@ + seq!['|'] + "lock"@ + seq!['|']
        + "write"@);
    assert("_(default|lock|write).sst"@ =~= seq!['_'] + shown_names(names) + seq![')'] + ".sst"@);
    assert(display_path_of(dir, prefix) =~= dir + "/"@ + prefix + "_(default|lock|write).sst"@);
}

/// A new snapshot has a file for each of its column families, in their order, under that column
/// family's name, and nothing is known of any; each temporary file is the file with the temporary
/// suffix.
pub proof fn law_new_snapshot(
    snap: Snap,
    dir: Seq<char>,
    is_sending: bool,
    key: SnapKey,
    cfs: Seq<Seq<char>>,
)
    requires
        snap.is_new(dir, is_sending, key, cfs),
    ensures
        snap.display_path@ == display_path_of(dir, file_prefix(is_sending, key)),
        snap.cf_files@.len() == cfs.len(),
        forall|i: int|
            0 <= i < cfs.len() ==> {
                let file = #[trigger] snap.cf_files@[i];
                &&& file.cf@ == cfs[i]
                &&& file.path@ == path_in(dir, cf_file_name(is_sending, key, cfs[i]))
                &&& file.tmp_path@ == file.path@ + ".tmp"@
                &&& file.size == 0 && file.checksum == 0 && file.kv_count == 0 && file.written_size
                    == 0
                &&& file.written@.len() == 0
            },
        snap.cf_index == 0,
        snap.meta_file.meta@.len() == 0,
        snap.meta_file.path@ == path_in(dir, meta_file_name(is_sending, key)),
        snap.meta_file.tmp_path@ == snap.meta_file.path@ + ".tmp"@,
{
}

/// The texts of names are those names, one for one.
pub proof fn law_names_one_for_one(cfs: Seq<CfName>, i: int)
    requires
        0 <= i < cfs.len(),
    ensures
        cf_texts(cfs).len() == cfs.len(),
        cf_texts(cfs)[i] == cfs[i]@,
{
}

} // verus!
