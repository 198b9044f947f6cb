//! Snapshots with a file for each column family.

pub mod apply;
pub mod building;
pub mod files;
pub mod lifecycle;
pub mod meta;
pub mod round_trip;
pub mod save;
pub mod transfer;

use vstd::prelude::*;

verus! {

pub const SNAPSHOT_VERSION: u64 = 2;

} // verus!
