//! What the manager keeps track of.

use snap::error::{Error, Failure};
use snap::key::SnapKey;
use snap::manager::{
    init_entry, AnySnap, DirEntry, SnapEntry, SnapManagerCore, SnapStats, StartUp,
};
use snap::size::SizeTrack;
use snap::names::FileKind;
use snap::types::{RaftSnapshotData, Region, SnapshotMeta};

fn manager() -> SnapManagerCore {
    SnapManagerCore::new("d".to_owned(), true)
}

fn stats(sending_count: usize, receiving_count: usize) -> SnapStats {
    SnapStats { sending_count, receiving_count }
}

fn data(version: u64) -> RaftSnapshotData {
    RaftSnapshotData {
        region: Region { id: 1, start_key: vec![], end_key: vec![] },
        file_size: 0,
        version,
        meta: SnapshotMeta { cf_files: vec![] },
    }
}

#[test]
fn registration_is_undone_by_deregistration() {
    let mut mgr = manager();
    let key = SnapKey::new(1, 2, 3);
    assert!(!mgr.has_registered(&key));
    assert!(mgr.register(key, SnapEntry::Sending));
    assert!(mgr.has_registered(&key));
    assert!(!mgr.register(key, SnapEntry::Sending));
    assert!(mgr.register(key, SnapEntry::Generating));
    assert!(mgr.deregister(&key, &SnapEntry::Sending));
    assert!(mgr.has_registered(&key));
    assert!(!mgr.deregister(&key, &SnapEntry::Sending));
    assert!(mgr.deregister(&key, &SnapEntry::Generating));
    assert!(!mgr.has_registered(&key));
    assert!(!mgr.deregister(&key, &SnapEntry::Generating));
    assert_eq!(mgr.stats(), stats(0, 0));
}

#[test]
fn snapshots_are_counted_once() {
    let mut mgr = manager();
    let (a, b, c) = (SnapKey::new(1, 1, 1), SnapKey::new(1, 1, 2), SnapKey::new(2, 1, 1));
    mgr.register(a, SnapEntry::Sending);
    mgr.register(a, SnapEntry::Generating);
    assert_eq!(mgr.stats(), stats(1, 0));
    mgr.register(b, SnapEntry::Receiving);
    mgr.register(b, SnapEntry::Applying);
    assert_eq!(mgr.stats(), stats(1, 1));
    mgr.register(c, SnapEntry::Applying);
    mgr.register(c, SnapEntry::Sending);
    assert_eq!(mgr.stats(), stats(2, 2));
    mgr.deregister(&a, &SnapEntry::Sending);
    assert_eq!(mgr.stats(), stats(2, 2));
    mgr.deregister(&c, &SnapEntry::Sending);
    mgr.deregister(&a, &SnapEntry::Generating);
    assert_eq!(mgr.stats(), stats(0, 2));
}

fn entry(is_file: bool, name: &str) -> DirEntry {
    DirEntry { is_file, name: Some(name.to_owned()) }
}

#[test]
fn snapshots_in_the_directory() {
    let mgr = manager();
    let entries = vec![
        entry(true, "gen_1_2_3.snap"),
        entry(false, "gen_4_5_6.snap"),
        DirEntry { is_file: true, name: None },
        entry(true, "notes"),
        entry(true, "rev_7_8_9_lock.sst"),
        entry(true, "rev_7_8_9.meta"),
    ];
    let (a, b) = (SnapKey::new(1, 2, 3), SnapKey::new(7, 8, 9));
    assert_eq!(mgr.list_snap(&entries), vec![(a, true), (b, false), (b, false)]);
    assert_eq!(init_entry(&entries[0]), FileKind::Data);
    assert_eq!(init_entry(&entries[1]), FileKind::Other);
    assert_eq!(init_entry(&entries[2]), FileKind::Other);
    assert_eq!(init_entry(&entry(true, "gen_1_2_3.snap.tmp")), FileKind::Temporary);
    assert_eq!(mgr.base_dir(), "d");
}

#[test]
fn start_up_counts_data_and_removes_leftovers() {
    let listing = [
        (entry(true, "gen_1_2_3.snap"), 13),
        (entry(true, "gen_1_2_3.snap.tmp"), 100),
        (entry(true, "rev_7_8_9_lock.sst"), 20),
        (entry(true, "rev_7_8_9.meta"), 1000),
        (entry(false, "dir.sst"), 10000),
        (entry(false, "dir.tmp"), 10000),
        (DirEntry { is_file: true, name: None }, 10000),
    ];
    let mut track = SizeTrack::new();
    track.saved(5);
    let mut start_up = StartUp::new(&track);
    let mut removed = vec![];
    for (entry, len) in &listing {
        match start_up.entry(&track, entry) {
            FileKind::Data => start_up.found(&mut track, *len),
            FileKind::Temporary => removed.push(entry.name.clone().unwrap()),
            FileKind::Other => {}
        }
    }
    assert_eq!(track.total, 38);
    assert_eq!(removed, vec!["gen_1_2_3.snap.tmp"]);
}

#[test]
fn received_form_is_what_the_message_says() {
    let key = SnapKey::new(1, 2, 3);
    for use_sst in [false, true] {
        let mgr = SnapManagerCore::new("d".to_owned(), use_sst);
        match mgr.get_snapshot_for_receiving(&key, Ok(&data(1))).ok().unwrap() {
            AnySnap::V1(s) => assert_eq!(s.path(), "d/rev_1_2_3.snap"),
            AnySnap::V2(_) => panic!("of the other form"),
        }
        assert!(matches!(mgr.get_snapshot_for_receiving(&key, Ok(&data(0))), Ok(AnySnap::V1(_))));
        match mgr.get_snapshot_for_receiving(&key, Ok(&data(2))).err().unwrap() {
            Error::Other(Failure::CfCount(0, 3)) => {}
            _ => panic!("another failure"),
        }
        match mgr.get_snapshot_for_receiving(&key, Err("words".to_owned())).err().unwrap() {
            Error::Other(Failure::Parse(e)) => assert_eq!(e, "words"),
            _ => panic!("another failure"),
        }
    }
}

#[test]
fn built_form_is_what_is_set() {
    let key = SnapKey::new(1, 2, 3);
    match manager().get_snapshot_for_building(&key) {
        AnySnap::V2(s) => assert_eq!(s.path(), "d/gen_1_2_3_(default|lock|write).sst"),
        AnySnap::V1(_) => panic!("of the other form"),
    }
    match SnapManagerCore::new("d".to_owned(), false).get_snapshot_for_building(&key) {
        AnySnap::V1(s) => assert_eq!(s.path(), "d/gen_1_2_3.snap"),
        AnySnap::V2(_) => panic!("of the other form"),
    }
}
