//! The messages that travel with a snapshot, as plain values.

use vstd::prelude::*;

verus! {

/// A column family name.
pub type CfName = &'static str;

pub const CF_DEFAULT: CfName = "default";

pub const CF_LOCK: CfName = "lock";

pub const CF_WRITE: CfName = "write";

pub const CF_RAFT: CfName = "raft";

/// A raft snapshot message: the raft position that it covers, and a serialised
/// [`RaftSnapshotData`].
pub struct RaftSnapshot {
    pub index: u64,
    pub term: u64,
    pub data: Vec<u8>,
}

/// What is known of a region: its id, and the keys that it spans. An empty end key means that the
/// region has no upper bound.
pub struct Region {
    pub id: u64,
    pub start_key: Vec<u8>,
    pub end_key: Vec<u8>,
}

/// What a snapshot's metadata says of one column family file.
pub struct SnapshotCfFile {
    pub cf: String,
    pub size: u64,
    pub checksum: u32,
}

/// What is recorded of one column family file, as a mathematical value.
#[verifier::ext_equal]
pub struct CfFileView {
    pub cf: Seq<char>,
    pub size: u64,
    pub checksum: u32,
}

impl View for SnapshotCfFile {
    type V = CfFileView;

    open spec fn view(&self) -> CfFileView {
        CfFileView { cf: self.cf@, size: self.size, checksum: self.checksum }
    }
}

impl Clone for SnapshotCfFile {
    fn clone(&self) -> (copy: SnapshotCfFile)
        ensures
            copy == *self,
    {
        SnapshotCfFile { cf: self.cf.clone(), size: self.size, checksum: self.checksum }
    }
}

/// The metadata of a snapshot: one entry for each column family file.
pub struct SnapshotMeta {
    pub cf_files: Vec<SnapshotCfFile>,
}

impl View for SnapshotMeta {
    type V = Seq<CfFileView>;

    open spec fn view(&self) -> Seq<CfFileView> {
        self.cf_files@.map_values(|f: SnapshotCfFile| f@)
    }
}

impl Clone for SnapshotMeta {
    fn clone(&self) -> (copy: SnapshotMeta)
        ensures
            copy@ == self@,
    {
        let mut cf_files: Vec<SnapshotCfFile> = Vec::new();
        let mut i: usize = 0;
        while i < self.cf_files.len()
            invariant
                i <= self.cf_files@.len(),
                cf_files@ == self.cf_files@.take(i as int),
            decreases self.cf_files@.len() - i,
        {
            cf_files.push(self.cf_files[i].clone());
            assert(cf_files@ =~= self.cf_files@.take(i + 1));
            i = i + 1;
        }
        assert(cf_files@ =~= self.cf_files@);
        SnapshotMeta { cf_files }
    }
}

/// The payload of a raft snapshot message.
pub struct RaftSnapshotData {
    pub region: Region,
    pub file_size: u64,
    pub version: u64,
    pub meta: SnapshotMeta,
}

/// What building a snapshot counts.
pub struct BuildContext {
    pub snapshot_size: u64,
    pub snapshot_kv_count: usize,
}

impl BuildContext {
    pub fn new() -> (context: BuildContext)
        ensures
            context.snapshot_size == 0,
            context.snapshot_kv_count == 0,
    {
        BuildContext { snapshot_size: 0, snapshot_kv_count: 0 }
    }

    /// All keys were written: records how many there are.
    pub fn keys_written(&mut self, count: usize)
        ensures
            *final(self) == (BuildContext { snapshot_kv_count: count, ..*old(self) }),
    {
        self.snapshot_kv_count = count;
    }
}

impl Default for BuildContext {
    fn default() -> (context: BuildContext)
        ensures
            context.snapshot_size == 0,
            context.snapshot_kv_count == 0,
    {
        BuildContext::new()
    }
}

/// What metadata says is what its entries say, one for one.
pub proof fn law_metadata_entry_by_entry(meta: SnapshotMeta, i: int)
    requires
        0 <= i < meta.cf_files@.len(),
    ensures
        meta@.len() == meta.cf_files@.len(),
        meta@[i].cf == meta.cf_files@[i].cf@,
        meta@[i].size == meta.cf_files@[i].size,
        meta@[i].checksum == meta.cf_files@[i].checksum,
{
}

} // verus!
