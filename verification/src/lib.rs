//! Region snapshots: their files, formats and bookkeeping.

pub mod apply;
pub mod checksum;
pub mod codec;
pub mod error;
pub mod key;
pub mod keys;
pub mod manager;
pub mod names;
pub mod records;
pub mod size;
pub mod start;
pub mod store;
pub mod text;
pub mod types;
pub mod v1;
pub mod v2;
