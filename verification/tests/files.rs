//! The files of a snapshot: plans, metadata, reading and writing.

use snap::apply::{JOB_STATUS_CANCELLING, JOB_STATUS_RUNNING};
use snap::error::{Error, Failure};
use snap::key::SnapKey;
use snap::types::{RaftSnapshotData, Region, SnapshotCfFile, SnapshotMeta};
use snap::v2;
use snap::v2::apply::{ApplyStep, Applying};
use snap::v2::building::{Building, Finish, FinishStep, Finishing, Target};
use snap::v2::files::{snapshot_cfs, CfFile, Snap};
use snap::v2::lifecycle::{Create, FileId};
use snap::v2::meta::{check_snapshot_meta, get_snapshot_meta};

fn entry(cf: &str, size: u64, checksum: u32) -> SnapshotCfFile {
    SnapshotCfFile { cf: cf.to_owned(), size, checksum }
}

fn meta(sizes: [u64; 3]) -> SnapshotMeta {
    SnapshotMeta {
        cf_files: vec![
            entry("default", sizes[0], 10),
            entry("lock", sizes[1], 20),
            entry("write", sizes[2], 30),
        ],
    }
}

fn receiving(sizes: [u64; 3]) -> Snap {
    let m = meta(sizes);
    let mut snap = Snap::new_for_receiving("d", &SnapKey::new(1, 2, 3), &m).unwrap();
    snap.init_for_receiving(false, m).unwrap();
    snap
}

fn message(error: Error) -> String {
    match error {
        Error::Abort => "abort".to_owned(),
        Error::Other(failure) => failure.message(),
    }
}

#[test]
fn files_of_a_snapshot() {
    let snap = Snap::new_for_building("d", &SnapKey::new(1, 2, 3));
    assert_eq!(snap.path(), "d/gen_1_2_3_(default|lock|write).sst");
    assert_eq!(snap.path_of(FileId::Cf(0)), "d/gen_1_2_3_default.sst");
    assert_eq!(snap.path_of(FileId::Cf(1)), "d/gen_1_2_3_lock.sst");
    assert_eq!(snap.path_of(FileId::CfTmp(2)), "d/gen_1_2_3_write.sst.tmp");
    assert_eq!(snap.path_of(FileId::Meta), "d/gen_1_2_3.meta");
    assert_eq!(snap.path_of(FileId::MetaTmp), "d/gen_1_2_3.meta.tmp");
    assert!(snap.is_present(&vec![true, true, true], true));
    assert!(!snap.is_present(&vec![true, false, true], true));
    assert!(!snap.is_present(&vec![true, true, true], false));
    assert!(!snap.left_unfinished(&vec![false; 3], false));
    assert!(snap.left_unfinished(&vec![false, false, true], false));
    assert!(snap.left_unfinished(&vec![false; 3], true));
}

#[test]
fn what_is_created_first() {
    let mut snap = Snap::new_for_building("d", &SnapKey::new(1, 2, 3));
    assert_eq!(
        snap.init_for_building(false),
        vec![Create::Sst(0), Create::Plain(1), Create::Sst(2), Create::Meta]
    );
    assert!(snap.init_for_building(true).is_empty());
    assert_eq!(
        snap.init_for_receiving(false, meta([1, 2, 3])).unwrap(),
        vec![Create::Plain(0), Create::Plain(1), Create::Plain(2), Create::Meta]
    );
    let mut other = Snap::new_for_applying("d", &SnapKey::new(1, 2, 3));
    assert!(other.init_for_receiving(true, meta([1, 2, 3])).unwrap().is_empty());
    assert_eq!(other.total_size(), 0);
}

#[test]
fn deleting_takes_every_file() {
    let mut snap = Snap::new_for_sending("d", &SnapKey::new(1, 2, 3));
    snap.set_snapshot_meta(meta([1, 2, 3])).unwrap();
    let all = vec![
        FileId::CfTmp(0),
        FileId::Cf(0),
        FileId::CfTmp(1),
        FileId::Cf(1),
        FileId::CfTmp(2),
        FileId::Cf(2),
        FileId::MetaTmp,
        FileId::Meta,
    ];
    let deletion = snap.delete();
    assert_eq!(deletion.files, all);
    assert_eq!(deletion.untracked, Some(6));
    let dropped = snap.try_delete(true, false);
    assert_eq!(dropped.files, all);
    assert_eq!(dropped.untracked, None);
    assert_eq!(snap.try_delete(true, true).untracked, Some(6));
}

#[test]
fn sizes_that_cannot_be_added() {
    let mut snap = Snap::new_for_sending("d", &SnapKey::new(1, 2, 3));
    snap.set_snapshot_meta(meta([u64::MAX, 0, 0])).unwrap();
    assert_eq!(snap.checked_total_size(), Some(u64::MAX));
    snap.opened_for_sending(2, 1);
    assert_eq!(snap.checked_total_size(), None);
}

#[test]
fn metadata_that_is_refused() {
    let mut m = meta([1, 2, 3]);
    m.cf_files[1].cf = "raft".to_owned();
    let err = check_snapshot_meta(&m).unwrap_err();
    assert_eq!(message(err), "failed to decode invalid snapshot cf raft");
    m.cf_files[1].cf = "default".to_owned();
    let err = check_snapshot_meta(&m).unwrap_err();
    assert_eq!(message(err), "failed to decode duplicated snapshot cf default");
    m.cf_files.truncate(1);
    let err = check_snapshot_meta(&m).unwrap_err();
    assert_eq!(message(err), "invalid number of snapshot meta cf file: 1, expect: 3");
    let err = Snap::new_for_receiving("d", &SnapKey::new(1, 2, 3), &m).err().unwrap();
    assert_eq!(message(err), "invalid number of snapshot meta cf file: 1, expect: 3");
    let files = vec![
        CfFile { cf: "write", ..Default::default() },
        CfFile { cf: "raft", ..Default::default() },
    ];
    let err = get_snapshot_meta(&files).err().unwrap();
    assert_eq!(message(err), "failed to encode invalid snapshot cf raft");
}

#[test]
fn files_come_in_the_order_of_the_metadata() {
    let mut m = meta([1, 2, 3]);
    m.cf_files.swap(0, 2);
    assert_eq!(check_snapshot_meta(&m).unwrap(), vec!["write", "lock", "default"]);
    let snap = Snap::new_for_receiving("d", &SnapKey::new(1, 2, 3), &m).unwrap();
    assert_eq!(snap.path_of(FileId::Cf(0)), "d/rev_1_2_3_write.sst");
}

#[test]
fn metadata_that_lacks_a_file() {
    let mut snap = Snap::new_for_sending("d", &SnapKey::new(1, 2, 3));
    let mut m = meta([1, 2, 3]);
    m.cf_files.remove(1);
    let err = snap.set_snapshot_meta(m).err().unwrap();
    assert_eq!(message(err), "cf lock doesn't exist in snapshot meta");
    // The files before it have been updated, those behind it have not.
    let sizes: Vec<u64> = snap.cf_files.iter().map(|f| f.size).collect();
    assert_eq!(sizes, vec![1, 0, 0]);
    assert!(snap.meta_file.meta.cf_files.is_empty());
    // The first entry of a column family counts.
    let mut m = meta([1, 2, 3]);
    m.cf_files.push(entry("lock", 9, 9));
    snap.set_snapshot_meta(m).unwrap();
    assert_eq!((snap.cf_files[1].size, snap.cf_files[1].checksum), (2, 20));
    assert_eq!(snap.meta_file.meta.cf_files.len(), 4);
}

#[test]
fn writes_go_through_the_files() {
    let mut snap = receiving([2, 0, 3]);
    assert_eq!(snap.next_write(4), Some((0, 2)));
    snap.wrote(b"ab", 4);
    assert_eq!(snap.cf_index, 1);
    assert_eq!(snap.next_write(2), Some((2, 2)));
    snap.wrote(b"cd", 2);
    assert_eq!(snap.next_write(1), Some((2, 1)));
    snap.wrote(b"e", 1);
    // A file that was filled exactly is left by the next write.
    assert_eq!(snap.flush(), Some(2));
    assert_eq!(snap.next_write(1), None);
    assert_eq!(snap.flush(), None);
    let written: Vec<u64> = snap.cf_files.iter().map(|f| f.written_size).collect();
    assert_eq!(written, vec![2, 0, 3]);
}

#[test]
fn reads_go_through_the_files() {
    let mut snap = receiving([2, 0, 3]);
    assert_eq!(snap.next_read(0), None);
    assert_eq!(snap.next_read(8), Some(0));
    assert!(snap.read(2));
    assert_eq!(snap.next_read(8), Some(0));
    assert!(!snap.read(0));
    assert_eq!(snap.next_read(8), Some(1));
    assert!(!snap.read(0));
    assert_eq!(snap.next_read(8), Some(2));
    assert!(!snap.read(0));
    assert_eq!(snap.next_read(8), None);
}

#[test]
fn column_families_are_found() {
    let mut snap = Snap::new_for_building("d", &SnapKey::new(1, 2, 3));
    snap.switch_to_cf_file("write").unwrap();
    assert_eq!(snap.cf_index, 2);
    let err = snap.switch_to_cf_file("raft").unwrap_err();
    assert_eq!(message(err), "fail to find cf raft");
    assert_eq!(snap.cf_index, 2);
    let mut building = Building::new();
    assert_eq!(building.begin_cf(&mut snap, "raft").unwrap(), None);
    match building.begin_cf(&mut snap, "other").unwrap_err() {
        Error::Other(Failure::CfNotFound(cf)) => assert_eq!(cf, "other"),
        _ => panic!("another failure"),
    }
}

#[test]
fn building_counts_and_finishes() {
    let mut snap = Snap::new_for_building("d", &SnapKey::new(1, 2, 3));
    let mut building = Building::new();
    assert_eq!(building.begin_cf(&mut snap, "default").unwrap(), Some(Target::Table(0)));
    building.add_kv(&mut snap, b"a", b"1");
    building.add_kv(&mut snap, b"b", b"2");
    assert!(building.end_cf().is_empty());
    assert_eq!(building.begin_cf(&mut snap, "lock").unwrap(), Some(Target::Records(1)));
    assert_eq!(building.add_record(b"k", b"v"), vec![2, b'k', 2, b'v']);
    assert_eq!(building.end_cf(), vec![0]);
    assert_eq!(building.begin_cf(&mut snap, "write").unwrap(), Some(Target::Table(2)));
    assert!(building.end_cf().is_empty());
    assert_eq!(building.key_count(), 3);
    assert_eq!(snap.save_cf_file(0), Finish::FinishWriter);
    assert_eq!(snap.save_cf_file(1), Finish::CloseFile);
    assert_eq!(snap.save_cf_file(2), Finish::DropWriter);

    let mut finishing = Finishing::new(&snap);
    assert_eq!(finishing.next(&snap), FinishStep::File(0, Finish::FinishWriter));
    finishing.done(&mut snap, 40, 4);
    assert_eq!(finishing.next(&snap), FinishStep::File(1, Finish::CloseFile));
    finishing.done(&mut snap, 5, 5);
    assert_eq!(finishing.next(&snap), FinishStep::File(2, Finish::DropWriter));
    finishing.done(&mut snap, 0, 0);
    assert_eq!(finishing.next(&snap), FinishStep::Done);
    let mut data = RaftSnapshotData {
        region: Region { id: 1, start_key: vec![], end_key: vec![] },
        file_size: 0,
        version: 0,
        meta: SnapshotMeta { cf_files: vec![] },
    };
    assert_eq!(snap.describe(&mut data).unwrap(), 45);
    assert_eq!((data.file_size, data.version), (45, v2::SNAPSHOT_VERSION));
    assert_eq!(data.meta.cf_files[0].checksum, 4);
    assert_eq!(data.meta.cf_files[1].cf, "lock");
    assert_eq!(snap.meta_file.meta.cf_files[2].size, 0);
    // The metadata is accepted, and describes the files.
    assert_eq!(check_snapshot_meta(&data.meta).unwrap(), snapshot_cfs());
}

#[test]
fn how_files_are_applied() {
    let snap = receiving([0, 0, 3]);
    assert_eq!(snap.next_apply(0, JOB_STATUS_RUNNING).unwrap(), ApplyStep::Skip(0));
    assert_eq!(snap.next_apply(1, JOB_STATUS_RUNNING).unwrap(), ApplyStep::Records(1));
    assert_eq!(snap.next_apply(2, JOB_STATUS_RUNNING).unwrap(), ApplyStep::Ingest(2));
    assert_eq!(snap.next_apply(3, JOB_STATUS_CANCELLING).unwrap(), ApplyStep::Done);
    assert!(matches!(snap.next_apply(2, JOB_STATUS_CANCELLING), Err(Error::Abort)));
}

#[test]
fn files_are_applied_in_order() {
    let snap = receiving([4, 1, 0]);
    let mut applying = Applying::new(&snap);
    let mut steps = vec![];
    loop {
        assert!(steps.len() == 3 || applying.next(&snap, JOB_STATUS_CANCELLING).is_err());
        match applying.next(&snap, JOB_STATUS_RUNNING).unwrap() {
            ApplyStep::Done => break,
            step => steps.push(step),
        }
        applying.done(&snap);
    }
    assert_eq!(steps, vec![ApplyStep::Ingest(0), ApplyStep::Records(1), ApplyStep::Skip(2)]);
}

#[test]
fn failed_write_is_not_counted() {
    let mut snap = receiving([2, 0, 3]);
    let res = snap.write(b"abcd", |i: usize, data: &[u8]| {
        if i == 2 {
            assert_eq!(data, b"cd");
            Err("disk full")
        } else {
            Ok(())
        }
    });
    assert_eq!(res, Err("disk full"));
    let written: Vec<u64> = snap.cf_files.iter().map(|f| f.written_size).collect();
    assert_eq!(written, vec![2, 0, 0]);
    assert!(snap.can_receive());
    let res: Result<usize, ()> = snap.write(b"cdef", |_: usize, _: &[u8]| Ok(()));
    assert_eq!(res, Ok(3));
    let mut sent = receiving([2, 0, 3]);
    assert!(!sent.read(0));
    assert!(!sent.can_receive());
}
