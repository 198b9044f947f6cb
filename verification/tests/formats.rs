//! File names, byte formats, checksums and messages.

use snap::apply::{
    check_abort, check_status, Act, Applier, ApplyOptions, Want, JOB_STATUS_CANCELLING,
    JOB_STATUS_PENDING, JOB_STATUS_RUNNING,
};
use snap::checksum::{calc_checksum, ChecksumStep, Digest, ReadOutcome};
use snap::codec::{encode_compact_bytes, LenDecoder, LenStep};
use snap::error::{Error, Failure, SnapResult};
use snap::key::SnapKey;
use snap::keys::{check_stored_key, data_key, enc_end_key, enc_start_key, less};
use snap::names::{
    file_kind, join_path, make_cf_file_name, make_meta_file_name, make_prefix,
    make_snap_file_name, make_tmp_name, parse_snap_name, FileKind,
};
use snap::records::{encode_end, encode_pair, need_to_pack, StreamBuilder};
use snap::size::SizeTrack;
use snap::types::{BuildContext, RaftSnapshot, RaftSnapshotData, Region, SnapshotMeta};
use snap::v1;
use std::sync::atomic::AtomicUsize;

fn region(start: &[u8], end: &[u8]) -> Region {
    Region { id: 7, start_key: start.to_vec(), end_key: end.to_vec() }
}

fn text(error: Error) -> String {
    match error {
        Error::Abort => "abort".to_owned(),
        Error::Other(failure) => failure.message(),
    }
}

#[test]
fn keys_come_from_messages() {
    let snap = RaftSnapshot { index: 30, term: 20, data: vec![] };
    assert_eq!(SnapKey::from_region_snap(10, &snap), SnapKey::new(10, 20, 30));
    let data = RaftSnapshotData {
        region: region(b"a", b"z"),
        file_size: 0,
        version: 1,
        meta: SnapshotMeta { cf_files: vec![] },
    };
    assert_eq!(SnapKey::from_snap(&snap, Ok(&data)).unwrap(), SnapKey::new(7, 20, 30));
    let err = SnapKey::from_snap(&snap, Err("truncated message".to_owned())).unwrap_err();
    assert_eq!(text(err), "truncated message");
}

#[test]
fn build_context_starts_at_zero() {
    let context = BuildContext::default();
    assert_eq!((context.snapshot_size, context.snapshot_kv_count), (0, 0));
}

#[test]
fn file_names() {
    let key = SnapKey::new(1, 2, 3);
    assert_eq!(make_snap_file_name(true, &key), "gen_1_2_3.snap");
    assert_eq!(make_snap_file_name(false, &key), "rev_1_2_3.snap");
    let prefix = make_prefix(false, &key);
    assert_eq!(make_cf_file_name(&prefix, "write"), "rev_1_2_3_write.sst");
    assert_eq!(make_meta_file_name(&prefix), "rev_1_2_3.meta");
    assert_eq!(make_tmp_name("rev_1_2_3.meta"), "rev_1_2_3.meta.tmp");
    assert_eq!(join_path("dir", "name"), "dir/name");
    assert_eq!(join_path("dir/", "name"), "dir/name");
    assert_eq!(join_path("", "name"), "name");
    assert_eq!(v1::Snap::prepare_path("dir", true, &key), "dir/gen_1_2_3.snap");
}

#[test]
fn names_tell_snapshots() {
    let key = SnapKey::new(1, 2, 3);
    assert_eq!(parse_snap_name("gen_1_2_3.snap"), Some((key, true)));
    assert_eq!(parse_snap_name("rev_1_2_3_default.sst.tmp"), Some((key, false)));
    assert_eq!(parse_snap_name("rev_1_2_3.meta"), Some((key, false)));
    // Anything before the first separator is skipped, numbers too, and so is what is no number.
    assert_eq!(parse_snap_name("9_1_x_2_+3"), Some((key, false)));
    assert_eq!(parse_snap_name("general_1_2_3"), Some((key, true)));
    assert_eq!(parse_snap_name("gen_1_2.snap"), None);
    assert_eq!(parse_snap_name("gen_1_2_3_4.snap"), None);
    assert_eq!(parse_snap_name("gen_1_2_18446744073709551616.snap"), None);
    assert_eq!(parse_snap_name(""), None);
    let last = SnapKey::new(0, 0, u64::MAX);
    assert_eq!(parse_snap_name("gen_0_0_18446744073709551615"), Some((last, true)));
}

#[test]
fn names_differ() {
    let mut names = vec![];
    for key in [SnapKey::new(1, 2, 3), SnapKey::new(12, 2, 3), SnapKey::new(1, 22, 3)] {
        for sending in [true, false] {
            let prefix = make_prefix(sending, &key);
            names.push(make_snap_file_name(sending, &key));
            names.push(make_meta_file_name(&prefix));
            for cf in ["default", "lock", "write"] {
                names.push(make_cf_file_name(&prefix, cf));
            }
        }
    }
    let count = names.len();
    names.sort();
    names.dedup();
    assert_eq!(names.len(), count);
}

#[test]
fn names_tell_what_to_do_at_start_up() {
    assert_eq!(file_kind("gen_1_2_3.snap"), FileKind::Data);
    assert_eq!(file_kind("gen_1_2_3_lock.sst"), FileKind::Data);
    assert_eq!(file_kind("gen_1_2_3_lock.sst.tmp"), FileKind::Temporary);
    assert_eq!(file_kind("gen_1_2_3.meta.tmp"), FileKind::Temporary);
    assert_eq!(file_kind("gen_1_2_3.meta"), FileKind::Other);
    assert_eq!(file_kind("tmp"), FileKind::Other);
}

#[test]
fn checksum_of_known_bytes() {
    let mut digest = Digest::new();
    assert_eq!(digest.sum32(), 0);
    digest.write(b"123456789");
    assert_eq!(digest.sum32(), 0xcbf43926);
    // In pieces, with an interruption.
    let mut digest = Digest::new();
    assert_eq!(calc_checksum(&mut digest, ReadOutcome::Data(b"1234")), ChecksumStep::ReadMore);
    assert_eq!(calc_checksum(&mut digest, ReadOutcome::Interrupted), ChecksumStep::ReadMore);
    assert_eq!(calc_checksum(&mut digest, ReadOutcome::Data(b"56789")), ChecksumStep::ReadMore);
    assert_eq!(calc_checksum(&mut digest, ReadOutcome::Failed), ChecksumStep::Fail);
    assert_eq!(
        calc_checksum(&mut digest, ReadOutcome::Data(b"")),
        ChecksumStep::Done(0xcbf43926)
    );
}

#[test]
fn altered_bytes_are_noticed() {
    let sum = |bytes: &[u8]| {
        let mut digest = Digest::new();
        digest.write(bytes);
        digest.sum32()
    };
    let data = b"some bytes of a snapshot".to_vec();
    for i in 0..data.len() {
        for bit in 0..8 {
            let mut altered = data.clone();
            altered[i] ^= 1 << bit;
            assert_ne!(sum(&altered), sum(&data));
        }
    }
}

#[test]
fn checksum_stands_at_the_end_of_a_file() {
    let key = SnapKey::new(1, 2, 3);
    let mut snap = v1::Snap::new_for_writing("dir", true, &key);
    assert!(snap.save_with_checksum().is_none());
    assert!(snap.is_writable());
    assert!(!v1::Snap::new_for_reading("dir", true, &key).is_writable());
    let tmp = snap.init_for_writing(false).unwrap();
    assert_eq!(tmp, "dir/gen_1_2_3.snap.tmp");
    assert!(snap.init_for_writing(true).is_none());
    snap.tmp_created(tmp);
    assert!(snap.init_for_writing(false).is_none());
    snap.wrote(b"123456789abc", 9);
    let save = snap.save_with_checksum().unwrap();
    assert_eq!(save.trailer, vec![0xcb, 0xf4, 0x39, 0x26]);
    assert_eq!(save.file, "dir/gen_1_2_3.snap");
    assert_eq!(save.tmp, "dir/gen_1_2_3.snap.tmp");
    assert!(snap.abandon().is_none());

    let mut reader = v1::SnapValidationReader::open(13).unwrap();
    assert_eq!(reader.read_limit(100), 9);
    assert_eq!(reader.read_limit(4), 4);
    assert_eq!(reader.next_step(), v1::ValidateStep::Read(9));
    reader.read(b"123456789");
    assert_eq!(reader.read_limit(100), 0);
    assert_eq!(reader.next_step(), v1::ValidateStep::ReadChecksum);
    reader.checksum_read(&[0xcb, 0xf4, 0x39, 0x26]);
    assert_eq!(reader.next_step(), v1::ValidateStep::Compare);
    assert!(reader.validate().is_ok());
    let large = v1::SnapValidationReader::open(1 << 40).unwrap();
    assert_eq!(large.next_step(), v1::ValidateStep::Read(4096));
    assert_eq!(
        text(v1::SnapValidationReader::open(3).err().unwrap()),
        "file length 3 < 4"
    );
}

#[test]
fn abandoned_file_is_named() {
    let mut snap = v1::Snap::new_for_writing("dir", false, &SnapKey::new(1, 2, 3));
    snap.tmp_created("dir/rev_1_2_3.snap.tmp".to_owned());
    assert_eq!(snap.abandon(), Some("dir/rev_1_2_3.snap.tmp".to_owned()));
    assert_eq!(snap.abandon(), None);
    assert_eq!(snap.try_delete(true), Some("dir/rev_1_2_3.snap"));
    assert_eq!(snap.try_delete(false), None);
}

fn compact(data: &[u8]) -> Vec<u8> {
    let mut out = vec![];
    encode_compact_bytes(&mut out, data);
    out
}

fn length(bytes: &[u8]) -> SnapResult<u64> {
    let mut decoder = LenDecoder::new();
    for b in bytes {
        if let LenStep::Done(len) = decoder.step(*b)? {
            return Ok(len);
        }
    }
    panic!("not complete")
}

#[test]
fn byte_strings_carry_their_length() {
    assert_eq!(compact(b""), vec![0]);
    assert_eq!(compact(b"abc"), vec![6, b'a', b'b', b'c']);
    let long = compact(&[7; 200]);
    assert_eq!(&long[..3], &[0x90, 0x03, 7]);
    assert_eq!(length(&long).unwrap(), 200);
    assert_eq!(length(&[0]).unwrap(), 0);
    let largest = [0xfe, 0xff, 0xff, 0xff, 0xff, 0xff, 0xff, 0xff, 0xff, 0x01];
    assert_eq!(length(&largest).unwrap(), i64::MAX as u64);
}

#[test]
fn bad_lengths_are_refused() {
    assert_eq!(text(length(&[1]).unwrap_err()), "bad length");
    let too_large = [0x80, 0x80, 0x80, 0x80, 0x80, 0x80, 0x80, 0x80, 0x80, 0x02];
    assert!(length(&too_large).is_err());
    let too_long = [0x80; 10];
    assert!(length(&too_long).is_err());
}

#[test]
fn records_of_a_snapshot() {
    assert_eq!(encode_pair(b"k", b"vw"), vec![2, b'k', 4, b'v', b'w']);
    assert_eq!(encode_end(), vec![0]);
    assert!(need_to_pack("default"));
    assert!(!need_to_pack("raft"));
    let mut builder = StreamBuilder::new();
    let mut out = builder.begin_cf("lock").unwrap();
    out.extend(builder.add_kv(b"k", b"v"));
    out.extend(builder.end_cf());
    assert!(builder.begin_cf("raft").is_none());
    out.extend(builder.begin_cf("write").unwrap());
    out.extend(builder.end_cf());
    let (last, count) = builder.finish();
    out.extend(last);
    assert_eq!(out, b"\x08lock\x02k\x02v\x00\x0awrite\x00\x00");
    assert_eq!(count, 1);
}

#[test]
fn keys_of_a_region() {
    let r = region(b"a", b"z");
    assert_eq!(data_key(b"akey"), b"zakey");
    assert_eq!(enc_start_key(&r), b"za");
    assert_eq!(enc_end_key(&r), b"zz");
    assert_eq!(enc_end_key(&region(b"a", b"")), b"{");
    assert!(less(b"a", b"ab"));
    assert!(!less(b"ab", b"ab"));
    assert!(!less(b"b", b"ab"));
    assert!(check_stored_key(b"za", &r).is_ok());
    assert!(check_stored_key(b"zy\xff", &r).is_ok());
    assert!(check_stored_key(b"zz", &r).is_err());
    assert!(check_stored_key(b"zA", &r).is_err());
    assert!(check_stored_key(b"yb", &r).is_err());
    assert!(check_stored_key(b"", &r).is_err());
    assert!(check_stored_key(b"zzz", &region(b"a", b"")).is_ok());
}

#[test]
fn batches_are_written_when_they_are_full() {
    let options = ApplyOptions { region: region(b"a", b"z"), write_batch_size: 10 };
    let mut applier = Applier::new(options);
    assert_eq!(applier.next(JOB_STATUS_RUNNING).unwrap(), Want::CfName);
    assert!(matches!(applier.take_cf(b"lock".to_vec()), Act::OpenCf(n) if n == b"lock"));
    let mut full = vec![];
    for key in [&b"zb"[..], b"zc", b"zd", b"ze"] {
        assert_eq!(applier.next(JOB_STATUS_RUNNING).unwrap(), Want::Key);
        assert!(matches!(applier.take_key(key.to_vec()), Ok(Act::KeyTaken)));
        // Between a key and its value nothing stops the job.
        assert_eq!(applier.next(JOB_STATUS_CANCELLING).unwrap(), Want::Value);
        match applier.take_value(b"val".to_vec()) {
            Act::Put(k, v, write) => {
                assert_eq!((&k[..], &v[..]), (key, &b"val"[..]));
                full.push(write);
            }
            _ => panic!("a pair was taken"),
        }
    }
    assert_eq!(full, vec![false, true, false, true]);
    assert!(matches!(applier.next(JOB_STATUS_CANCELLING), Err(Error::Abort)));
    assert!(matches!(applier.take_key(vec![]), Ok(Act::EndCf)));
    assert!(matches!(applier.next(JOB_STATUS_CANCELLING), Err(Error::Abort)));
    assert!(matches!(applier.take_cf(vec![]), Act::End));
    assert_eq!(applier.next(JOB_STATUS_CANCELLING).unwrap(), Want::Nothing);
}

#[test]
fn keys_outside_the_region_are_refused() {
    let options = ApplyOptions { region: region(b"a", b"c"), write_batch_size: 1 };
    let mut applier = Applier::new_for_cf(options);
    match applier.take_key(b"zc".to_vec()) {
        Err(Error::Other(Failure::KeyNotInRegion(key))) => assert_eq!(key, b"zc"),
        _ => panic!("it is outside"),
    }
    assert!(matches!(applier.take_key(b"zb".to_vec()), Ok(Act::KeyTaken)));
    assert!(matches!(applier.take_value(vec![]), Act::Put(_, _, true)));
    assert!(matches!(applier.take_key(vec![]), Ok(Act::EndCf)));
    assert_eq!(applier.next(JOB_STATUS_RUNNING).unwrap(), Want::Nothing);
}

#[test]
fn cancelled_jobs_stop() {
    for status in [JOB_STATUS_PENDING, JOB_STATUS_RUNNING, 99] {
        assert!(check_status(status).is_ok());
        assert!(check_abort(&AtomicUsize::new(status)).is_ok());
    }
    assert!(matches!(check_status(JOB_STATUS_CANCELLING), Err(Error::Abort)));
    assert!(matches!(check_abort(&AtomicUsize::new(JOB_STATUS_CANCELLING)), Err(Error::Abort)));
}

#[test]
fn tracked_size_stays_within_bounds() {
    let mut track = SizeTrack::new();
    track.saved(30);
    track.found(12);
    assert_eq!(track.total, 42);
    track.deleted(30);
    assert_eq!(track.total, 12);
    track.deleted(13);
    assert_eq!(track.total, 0);
    track.saved(u64::MAX);
    track.saved(1);
    assert_eq!(track.total, u64::MAX);
}

#[test]
fn failures_in_words() {
    let s = |t: &str| t.to_owned();
    let cases = vec![
        (Failure::Parse(s("why")), "why"),
        (Failure::FileTooShort(1, 4), "file length 1 < 4"),
        (Failure::CrcMismatch(1, 2), "crc not correct: 1 != 2"),
        (Failure::EncodeInvalidCf(s("x")), "failed to encode invalid snapshot cf x"),
        (Failure::DecodeInvalidCf(s("x")), "failed to decode invalid snapshot cf x"),
        (Failure::DecodeDuplicatedCf(s("x")), "failed to decode duplicated snapshot cf x"),
        (Failure::CfCount(2, 3), "invalid number of snapshot meta cf file: 2, expect: 3"),
        (Failure::SendNotExist(s("p")), "snapshot file p not exist"),
        (Failure::ApplyNotExist(s("p")), "snapshot file p not exists"),
        (Failure::CfNotInMeta(s("x")), "cf x doesn't exist in snapshot meta"),
        (
            Failure::InvalidSize(1, s("x"), 2),
            "invalid snapshot file size 1 for cf x, expected 2",
        ),
        (
            Failure::InvalidChecksum(1, s("x"), 2),
            "invalid snapshot file checksum 1 for cf x, expected 2",
        ),
        (Failure::CfNotFound(s("x")), "fail to find cf x"),
        (
            Failure::SizeMismatch(s("p"), s("x"), 1, 2),
            "snapshot file p for cf x size mismatches, real size 1, expected size 2",
        ),
        (
            Failure::ChecksumMismatch(s("p"), s("x"), 1, 2),
            "snapshot file p for cf x checksum mismatches, real checksum 1, expected checksum 2",
        ),
        (Failure::NotDirectory(s("p")), "p should be a directory"),
        (Failure::KeyNotInRegion(vec![1]), "key not in region"),
        (Failure::BadLength, "bad length"),
    ];
    for (failure, words) in cases {
        assert_eq!(failure.message(), words);
    }
}
