//! The key that names a snapshot.

use crate::error::{Error, Failure, SnapResult};
use crate::text::{decimal, push_decimal};
use crate::types::{RaftSnapshot, RaftSnapshotData};
use vstd::prelude::*;

verus! {

/// A snapshot's key: the region, and the raft position that the snapshot covers.
#[derive(Clone, Copy, Hash, PartialEq, Eq, PartialOrd, Ord, Debug, Structural)]
pub struct SnapKey {
    pub region_id: u64,
    pub term: u64,
    pub idx: u64,
}

/// A key in text: its three numbers, joined by underscores.
pub open spec fn key_text(key: SnapKey) -> Seq<char> {
    decimal(key.region_id as nat) + seq!['_'] + decimal(key.term as nat) + seq!['_'] + decimal(
        key.idx as nat,
    )
}

impl SnapKey {
    pub fn new(region_id: u64, term: u64, idx: u64) -> (key: SnapKey)
        ensures
            key == (SnapKey { region_id, term, idx }),
    {
        SnapKey { region_id, term, idx }
    }

    /// The key of a snapshot of a region.
    pub fn from_region_snap(region_id: u64, snap: &RaftSnapshot) -> (key: SnapKey)
        ensures
            key == (SnapKey { region_id, term: snap.term, idx: snap.index }),
    {
        SnapKey::new(region_id, snap.term, snap.index)
    }

    /// The key of a snapshot, given what its data parsed to: the region comes out of the data.
    pub fn from_snap(
        snap: &RaftSnapshot,
        snap_data: core::result::Result<&RaftSnapshotData, String>,
    ) -> (key: SnapResult<SnapKey>)
        ensures
            match snap_data {
                Ok(data) => key == SnapResult::<SnapKey>::Ok(
                    SnapKey { region_id: data.region.id, term: snap.term, idx: snap.index },
                ),
                Err(e) => key == SnapResult::<SnapKey>::Err(Error::Other(Failure::Parse(e))),
            },
    {
        match snap_data {
            Ok(data) => Ok(SnapKey::from_region_snap(data.region.id, snap)),
            Err(e) => Err(Error::Other(Failure::Parse(e))),
        }
    }

    /// Appends the key's text.
    pub fn push_text(&self, out: &mut String)
        ensures
            final(out)@ == old(out)@ + key_text(*self),
    {
        proof {
            reveal_strlit("_");
            assert("_"@ =~= seq!['_']);
        }
        let ghost before = out@;
        push_decimal(out, self.region_id);
        out.append("_");
        push_decimal(out, self.term);
        out.append("_");
        push_decimal(out, self.idx);
        assert(out@ =~= before + key_text(*self));
    }

    /// The key in text.
    pub fn to_string(&self) -> (text: String)
        ensures
            text@ == key_text(*self),
    {
        let mut out = String::new();
        self.push_text(&mut out);
        assert(out@ =~= key_text(*self));
        out
    }
}

} // verus!
