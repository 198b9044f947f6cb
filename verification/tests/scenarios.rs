//! Snapshots from end to end, on files and stores that are held in memory.

use snap::apply::{check_abort, Act, Applier, ApplyOptions, Want, JOB_STATUS_RUNNING};
use snap::checksum::{
    calc_checksum, ChecksumStep, Digest, ReadOutcome, CRC32_BYTES_COUNT, DIGEST_BUFFER_SIZE,
};
use snap::codec::{LenDecoder, LenStep};
use snap::error::{Error, Failure, SnapResult};
use snap::key::SnapKey;
use snap::keys::{data_key, enc_end_key, enc_start_key};
use snap::manager::{AnySnap, DirEntry, InitStep, SnapManagerCore, StartUp};
use snap::names::{make_prefix, FileKind};
use snap::records::{need_to_pack, StreamBuilder};
use snap::size::SizeTrack;
use snap::start::{start_build, BuildStart};
use snap::types::{
    BuildContext, RaftSnapshotData, Region, SnapshotCfFile, SnapshotMeta, CF_DEFAULT, CF_LOCK,
    CF_RAFT, CF_WRITE,
};
use snap::v1;
use snap::v2;
use snap::v2::apply::{ApplyStep, Applying};
use snap::v2::building::{Building, Finish, FinishStep, Finishing, Target};
use snap::v2::files::{snapshot_cfs, CfFile};
use snap::v2::lifecycle::{Create, FileId};
use snap::v2::meta::{check_snapshot_meta, get_snapshot_meta};
use snap::v2::save::{CheckStep, Checking, SaveStep, Saving};
use std::cell::RefCell;
use std::collections::BTreeMap;
use std::sync::atomic::AtomicUsize;

const ALL_CFS: [&str; 4] = [CF_DEFAULT, CF_LOCK, CF_WRITE, CF_RAFT];

const TEST_KEY: &[u8] = b"akey";

type Disk = BTreeMap<String, Vec<u8>>;

type Db = BTreeMap<(String, Vec<u8>), Vec<u8>>;

fn get_test_empty_db() -> Db {
    Db::new()
}

fn get_test_db() -> Db {
    let mut db = Db::new();
    for (i, cf) in ALL_CFS.iter().enumerate() {
        db.insert((cf.to_string(), data_key(TEST_KEY)), vec![8, (i + 1) as u8, 16, 1]);
    }
    db
}

fn scan(db: &Db, cf: &str, begin: &[u8], end: &[u8]) -> Vec<(Vec<u8>, Vec<u8>)> {
    db.iter()
        .filter(|((c, k), _)| c == cf && &k[..] >= begin && &k[..] < end)
        .map(|((_, k), v)| (k.clone(), v.clone()))
        .collect()
}

fn get_kv_count(db: &Db) -> usize {
    ALL_CFS
        .iter()
        .filter(|cf| need_to_pack(cf))
        .map(|cf| scan(db, cf, &data_key(b"a"), &data_key(b"z")).len())
        .sum()
}

fn get_test_region(region_id: u64) -> Region {
    Region { id: region_id, start_key: b"a".to_vec(), end_key: b"z".to_vec() }
}

fn empty_snap_data(region_id: u64) -> RaftSnapshotData {
    RaftSnapshotData {
        region: get_test_region(region_id),
        file_size: 0,
        version: 0,
        meta: SnapshotMeta { cf_files: vec![] },
    }
}

fn assert_eq_db(expected: &Db, db: &Db) {
    let key = data_key(TEST_KEY);
    for cf in ALL_CFS {
        if !need_to_pack(cf) {
            continue;
        }
        if let Some(p1) = expected.get(&(cf.to_string(), key.clone())) {
            assert_eq!(db.get(&(cf.to_string(), key.clone())), Some(p1));
        }
    }
}

fn checksum_of(content: &[u8]) -> u32 {
    let mut digest = Digest::new();
    let mut at = 0;
    loop {
        let n = std::cmp::min(DIGEST_BUFFER_SIZE, content.len() - at);
        assert_eq!(calc_checksum(&mut digest, ReadOutcome::Interrupted), ChecksumStep::ReadMore);
        match calc_checksum(&mut digest, ReadOutcome::Data(&content[at..at + n])) {
            ChecksumStep::Done(sum) => return sum,
            ChecksumStep::ReadMore => at += n,
            ChecksumStep::Fail => panic!("nothing failed"),
        }
    }
}

/// Takes the next record off some bytes.
fn decode(bytes: &mut &[u8]) -> Vec<u8> {
    let mut decoder = LenDecoder::new();
    loop {
        let b = bytes[0];
        *bytes = &bytes[1..];
        if let LenStep::Done(len) = decoder.step(b).unwrap() {
            let record = bytes[..len as usize].to_vec();
            *bytes = &bytes[len as usize..];
            return record;
        }
    }
}

fn encode_table(pairs: &[(Vec<u8>, Vec<u8>)]) -> Vec<u8> {
    pairs
        .iter()
        .flat_map(|(k, v)| snap::records::encode_pair(k, v))
        .collect()
}

fn decode_table(mut bytes: &[u8]) -> Vec<(Vec<u8>, Vec<u8>)> {
    let mut pairs = vec![];
    while !bytes.is_empty() {
        let k = decode(&mut bytes);
        pairs.push((k, decode(&mut bytes)));
    }
    pairs
}

fn encode_meta(meta: &SnapshotMeta) -> Vec<u8> {
    meta.cf_files
        .iter()
        .map(|f| format!("{} {} {}\n", f.cf, f.size, f.checksum))
        .collect::<String>()
        .into_bytes()
}

fn decode_meta(bytes: &[u8]) -> SnapshotMeta {
    let cf_files = String::from_utf8(bytes.to_vec())
        .unwrap()
        .lines()
        .map(|line| {
            let parts: Vec<&str> = line.split(' ').collect();
            SnapshotCfFile {
                cf: parts[0].to_owned(),
                size: parts[1].parse().unwrap(),
                checksum: parts[2].parse().unwrap(),
            }
        })
        .collect();
    SnapshotMeta { cf_files }
}

fn rename(disk: &mut Disk, from: &str, to: &str) {
    let content = disk.remove(from).unwrap();
    disk.insert(to.to_owned(), content);
}

// Snapshots in one file.

struct FileV1 {
    snap: v1::Snap,
}

impl FileV1 {
    fn open(disk: &mut Disk, mut snap: v1::Snap) -> FileV1 {
        if let Some(tmp) = snap.init_for_writing(disk.contains_key(snap.path())) {
            assert!(disk.insert(tmp.clone(), vec![]).is_none());
            snap.tmp_created(tmp);
        }
        FileV1 { snap }
    }

    fn for_writing(disk: &mut Disk, dir: &str, is_sending: bool, key: &SnapKey) -> FileV1 {
        FileV1::open(disk, v1::Snap::new_for_writing(dir, is_sending, key))
    }

    fn present(&self, disk: &Disk) -> bool {
        disk.contains_key(self.snap.path())
    }

    fn tmp_present(&self, disk: &Disk) -> bool {
        disk.contains_key(&format!("{}.tmp", self.snap.path()))
    }

    fn write(&mut self, disk: &mut Disk, buf: &[u8]) -> usize {
        if !self.snap.is_writing() {
            return 0;
        }
        disk.get_mut(&format!("{}.tmp", self.snap.path())).unwrap().extend_from_slice(buf);
        self.snap.wrote(buf, buf.len());
        buf.len()
    }

    fn finish(&mut self, disk: &mut Disk, track: &mut SizeTrack, with_checksum: bool) {
        let save = if with_checksum {
            self.snap.save_with_checksum()
        } else {
            self.snap.save()
        };
        if let Some(save) = save {
            let mut content = disk.remove(&save.tmp).unwrap();
            content.extend_from_slice(&save.trailer);
            let len = content.len() as u64;
            disk.insert(save.file, content);
            track.saved(len);
        }
    }

    fn validate(&self, disk: &Disk) -> SnapResult<()> {
        validate(&disk[self.snap.path()], &[])
    }

    fn build(
        &mut self,
        disk: &mut Disk,
        db: &Db,
        track: &mut SizeTrack,
        data: &mut RaftSnapshotData,
        context: &mut BuildContext,
    ) {
        let present = self.present(disk);
        let valid = present && self.validate(disk).is_ok();
        match start_build(present, valid) {
            BuildStart::Reuse => {}
            start => {
                if start == BuildStart::Rebuild {
                    self.delete(disk, track);
                    let tmp = self.snap.init_for_writing(false).unwrap();
                    disk.insert(tmp.clone(), vec![]);
                    self.snap.tmp_created(tmp);
                }
                let region = get_test_region(data.region.id);
                let (begin, end) = (enc_start_key(&region), enc_end_key(&region));
                let mut builder = StreamBuilder::new();
                for cf in ALL_CFS {
                    if let Some(bytes) = builder.begin_cf(cf) {
                        self.write(disk, &bytes);
                        for (k, v) in scan(db, cf, &begin, &end) {
                            let bytes = builder.add_kv(&k, &v);
                            self.write(disk, &bytes);
                        }
                        let bytes = builder.end_cf();
                        self.write(disk, &bytes);
                    }
                }
                let (bytes, count) = builder.finish();
                self.write(disk, &bytes);
                self.finish(disk, track, true);
                context.keys_written(count);
            }
        }
        let size = disk[self.snap.path()].len() as u64;
        v1::finish_build(size, data, context);
    }

    fn delete(&self, disk: &mut Disk, track: &mut SizeTrack) {
        if let Some(path) = self.snap.try_delete(self.present(disk)) {
            let content = disk.remove(path).unwrap();
            track.deleted(content.len() as u64);
        }
    }

    fn apply(&self, disk: &Disk, db: &mut Db, options: ApplyOptions) -> SnapResult<()> {
        let file = &disk[self.snap.path()];
        let mut reader = v1::SnapValidationReader::open(file.len() as u64)?;
        let data = &file[..file.len() - CRC32_BYTES_COUNT];
        apply_records(data, Applier::new(options), "", db)?;
        reader.read(data);
        reader.checksum_read(&file[file.len() - CRC32_BYTES_COUNT..]);
        reader.validate()
    }
}

impl FileV1 {
    fn drop_it(mut self, disk: &mut Disk) {
        if let Some(tmp) = self.snap.abandon() {
            disk.remove(&tmp);
        }
    }
}

/// Checks a file after some reads of the given lengths.
fn validate(file: &[u8], reads: &[usize]) -> SnapResult<()> {
    let mut reader = v1::SnapValidationReader::open(file.len() as u64)?;
    let mut at = 0;
    for len in reads {
        let n = reader.read_limit(*len);
        reader.read(&file[at..at + n]);
        at += n;
    }
    loop {
        match reader.next_step() {
            v1::ValidateStep::Read(n) => {
                reader.read(&file[at..at + n]);
                at += n;
            }
            v1::ValidateStep::ReadChecksum => reader.checksum_read(&file[at..at + 4]),
            v1::ValidateStep::Compare => return reader.validate(),
        }
    }
}

fn apply_records(mut data: &[u8], mut applier: Applier, cf: &str, db: &mut Db) -> SnapResult<()> {
    let status = AtomicUsize::new(JOB_STATUS_RUNNING);
    let mut cf = cf.to_owned();
    let mut batch: Vec<(Vec<u8>, Vec<u8>)> = vec![];
    loop {
        check_abort(&status)?;
        let act = match applier.next(JOB_STATUS_RUNNING)? {
            Want::CfName => applier.take_cf(decode(&mut data)),
            Want::Key => applier.take_key(decode(&mut data))?,
            Want::Value => applier.take_value(decode(&mut data)),
            Want::Nothing => return Ok(()),
        };
        let mut write = |batch: &mut Vec<(Vec<u8>, Vec<u8>)>, cf: &str| {
            for (k, v) in batch.drain(..) {
                db.insert((cf.to_owned(), k), v);
            }
        };
        match act {
            Act::OpenCf(name) => cf = String::from_utf8(name).unwrap(),
            Act::KeyTaken | Act::End => {}
            Act::Put(k, v, full) => {
                batch.push((k, v));
                if full {
                    write(&mut batch, &cf);
                }
            }
            Act::EndCf => write(&mut batch, &cf),
        }
    }
}

// Snapshots with a file for each column family.

struct FilesV2 {
    snap: v2::files::Snap,
    tables: Vec<Option<Vec<(Vec<u8>, Vec<u8>)>>>,
    offsets: Vec<usize>,
}

fn present_v2(disk: &Disk, snap: &v2::files::Snap) -> bool {
    let cfs: Vec<bool> = snap.cf_files.iter().map(|f| disk.contains_key(&f.path)).collect();
    snap.is_present(&cfs, disk.contains_key(&snap.meta_file.path))
}

impl FilesV2 {
    fn new(snap: v2::files::Snap) -> FilesV2 {
        let count = snap.cf_files.len();
        FilesV2 { snap, tables: vec![None; count], offsets: vec![0; count] }
    }

    fn present(&self, disk: &Disk) -> bool {
        present_v2(disk, &self.snap)
    }

    fn create(&mut self, disk: &mut Disk, create: Vec<Create>) {
        for c in create {
            let id = match c {
                Create::Plain(i) => FileId::CfTmp(i),
                Create::Sst(i) => {
                    self.tables[i] = Some(vec![]);
                    FileId::CfTmp(i)
                }
                Create::Meta => FileId::MetaTmp,
            };
            assert!(disk.insert(self.snap.path_of(id).to_owned(), vec![]).is_none());
        }
    }

    fn for_building(disk: &mut Disk, dir: &str, key: &SnapKey) -> FilesV2 {
        let mut s = FilesV2::new(v2::files::Snap::new_for_building(dir, key));
        let create = s.snap.init_for_building(s.present(disk));
        s.create(disk, create);
        s
    }

    fn for_sending(disk: &Disk, dir: &str, key: &SnapKey) -> SnapResult<FilesV2> {
        let mut s = FilesV2::new(v2::files::Snap::new_for_sending(dir, key));
        s.snap.init_for_sending(s.present(disk))?;
        for i in 0..s.snap.cf_files.len() {
            let size = disk[s.snap.path_of(FileId::Cf(i))].len() as u64;
            s.snap.opened_for_sending(i, size);
        }
        let meta = decode_meta(&disk[s.snap.path_of(FileId::Meta)]);
        s.snap.set_snapshot_meta(meta)?;
        Ok(s)
    }

    fn receive(disk: &mut Disk, snap: v2::files::Snap, meta: SnapshotMeta) -> SnapResult<FilesV2> {
        let mut s = FilesV2::new(snap);
        let present = s.present(disk);
        let create = s.snap.init_for_receiving(present, meta)?;
        s.create(disk, create);
        Ok(s)
    }

    fn for_receiving(
        disk: &mut Disk,
        dir: &str,
        key: &SnapKey,
        meta: SnapshotMeta,
    ) -> SnapResult<FilesV2> {
        let snap = v2::files::Snap::new_for_receiving(dir, key, &meta)?;
        FilesV2::receive(disk, snap, meta)
    }

    fn for_applying(disk: &Disk, dir: &str, key: &SnapKey) -> SnapResult<FilesV2> {
        let mut s = FilesV2::new(v2::files::Snap::new_for_applying(dir, key));
        s.snap.init_for_applying(s.present(disk))?;
        let meta = decode_meta(&disk[s.snap.path_of(FileId::Meta)]);
        s.snap.set_snapshot_meta(meta)?;
        Ok(s)
    }

    fn check(&self, disk: &Disk) -> SnapResult<()> {
        let mut checking = Checking::new(&self.snap);
        loop {
            match checking.next() {
                CheckStep::Size(i) => {
                    let size = disk[self.snap.path_of(FileId::Cf(i))].len() as u64;
                    checking.found_size(&self.snap, size)?;
                }
                CheckStep::Checksum(i) => {
                    let sum = checksum_of(&disk[self.snap.path_of(FileId::Cf(i))]);
                    checking.found_checksum(&self.snap, sum)?;
                }
                CheckStep::Done => return Ok(()),
            }
        }
    }

    fn build(
        &mut self,
        disk: &mut Disk,
        db: &Db,
        track: &mut SizeTrack,
        data: &mut RaftSnapshotData,
        context: &mut BuildContext,
    ) {
        let present = self.present(disk);
        let valid = present && self.check(disk).is_ok();
        assert_eq!(start_build(present, valid), BuildStart::Fresh);
        let region = get_test_region(data.region.id);
        let (begin, end) = (enc_start_key(&region), enc_end_key(&region));
        let mut building = Building::new();
        for cf in ALL_CFS {
            let target = building.begin_cf(&mut self.snap, cf).unwrap();
            match target {
                None => continue,
                Some(Target::Records(i)) => {
                    let path = self.snap.path_of(FileId::CfTmp(i)).to_owned();
                    let file = disk.get_mut(&path).unwrap();
                    for (k, v) in scan(db, cf, &begin, &end) {
                        file.extend(building.add_record(&k, &v));
                    }
                    file.extend(building.end_cf());
                }
                Some(Target::Table(i)) => {
                    for (k, v) in scan(db, cf, &begin, &end) {
                        building.add_kv(&mut self.snap, &k, &v);
                        self.tables[i].as_mut().unwrap().push((k, v));
                    }
                    assert!(building.end_cf().is_empty());
                }
            }
        }
        let mut finishing = Finishing::new(&self.snap);
        while let FinishStep::File(i, finish) = finishing.next(&self.snap) {
            let tmp = self.snap.path_of(FileId::CfTmp(i)).to_owned();
            let path = self.snap.path_of(FileId::Cf(i)).to_owned();
            match finish {
                Finish::CloseFile => assert!(self.tables[i].is_none()),
                Finish::DropWriter => assert!(self.tables[i].take().unwrap().is_empty()),
                Finish::FinishWriter => {
                    let table = self.tables[i].take().unwrap();
                    disk.insert(tmp.clone(), encode_table(&table));
                }
            }
            rename(disk, &tmp, &path);
            let content = &disk[&path];
            let (size, sum) = (content.len() as u64, checksum_of(content));
            finishing.done(&mut self.snap, size, sum);
        }
        context.keys_written(building.key_count());
        let size = self.snap.describe(data).unwrap();
        let (tmp, path) = (self.snap.meta_file.tmp_path.clone(), self.snap.meta_file.path.clone());
        disk.insert(tmp.clone(), encode_meta(&self.snap.meta_file.meta));
        rename(disk, &tmp, &path);
        v2::building::finish_build(size, track, context);
    }

    fn read(&mut self, disk: &Disk, buf: &mut [u8]) -> usize {
        while let Some(i) = self.snap.next_read(buf.len()) {
            let content = &disk[self.snap.path_of(FileId::Cf(i))];
            let n = std::cmp::min(buf.len(), content.len() - self.offsets[i]);
            buf[..n].copy_from_slice(&content[self.offsets[i]..self.offsets[i] + n]);
            self.offsets[i] += n;
            if self.snap.read(n) {
                return n;
            }
        }
        0
    }

    fn write(&mut self, disk: &mut Disk, buf: &[u8]) -> usize {
        assert!(self.snap.can_receive());
        let tmp: Vec<String> = self.snap.cf_files.iter().map(|f| f.tmp_path.clone()).collect();
        let disk = RefCell::new(disk);
        let written: Result<usize, ()> = self.snap.write(buf, |i: usize, data: &[u8]| {
            disk.borrow_mut().get_mut(&tmp[i]).unwrap().extend_from_slice(data);
            Ok(())
        });
        written.unwrap()
    }

    fn save(&mut self, disk: &mut Disk, track: &mut SizeTrack) -> SnapResult<()> {
        let mut saving = Saving::new(&self.snap);
        loop {
            match saving.next() {
                SaveStep::Flush(_) => saving.done(&self.snap),
                SaveStep::Size(i) => {
                    let size = disk[self.snap.path_of(FileId::CfTmp(i))].len() as u64;
                    saving.found_size(&self.snap, size)?;
                }
                SaveStep::Checksum(i) => {
                    let sum = checksum_of(&disk[self.snap.path_of(FileId::CfTmp(i))]);
                    saving.found_checksum(&self.snap, sum)?;
                }
                SaveStep::Rename(i) => {
                    let from = self.snap.path_of(FileId::CfTmp(i)).to_owned();
                    rename(disk, &from, self.snap.path_of(FileId::Cf(i)));
                    saving.done(&self.snap);
                }
                SaveStep::WriteMeta => {
                    let path = self.snap.path_of(FileId::MetaTmp).to_owned();
                    disk.insert(path, encode_meta(&self.snap.meta_file.meta));
                    saving.done(&self.snap);
                }
                SaveStep::RenameMeta => {
                    let from = self.snap.path_of(FileId::MetaTmp).to_owned();
                    rename(disk, &from, self.snap.path_of(FileId::Meta));
                    saving.done(&self.snap);
                }
                SaveStep::Done(size) => {
                    track.saved(size);
                    return Ok(());
                }
            }
        }
    }

    fn carry_out(&self, disk: &mut Disk, track: &mut SizeTrack, to_be_dropped: bool) {
        let present = self.present(disk);
        let deletion = self.snap.try_delete(to_be_dropped, present);
        for id in deletion.files {
            disk.remove(self.snap.path_of(id));
        }
        if let Some(size) = deletion.untracked {
            track.deleted(size);
        }
    }

    fn delete(&self, disk: &mut Disk, track: &mut SizeTrack) {
        let plan = self.snap.delete();
        assert_eq!(plan.untracked, Some(self.snap.total_size()));
        self.carry_out(disk, track, false);
    }

    fn drop_it(self, disk: &mut Disk, track: &mut SizeTrack) {
        let tmp: Vec<bool> =
            self.snap.cf_files.iter().map(|f| disk.contains_key(&f.tmp_path)).collect();
        let meta_tmp = disk.contains_key(&self.snap.meta_file.tmp_path);
        if self.snap.left_unfinished(&tmp, meta_tmp) {
            self.carry_out(disk, track, true);
        }
    }

    fn apply(&self, disk: &Disk, db: &mut Db, options: ApplyOptions) -> SnapResult<()> {
        let mut options = Some(options);
        let mut applying = Applying::new(&self.snap);
        loop {
            match applying.next(&self.snap, JOB_STATUS_RUNNING)? {
                ApplyStep::Records(i) => {
                    let file = &self.snap.cf_files[i];
                    let applier = Applier::new_for_cf(options.take().unwrap());
                    apply_records(&disk[&file.path], applier, file.cf, db)?;
                }
                ApplyStep::Skip(_) => {}
                ApplyStep::Ingest(i) => {
                    let file = &self.snap.cf_files[i];
                    for (k, v) in decode_table(&disk[&file.path]) {
                        db.insert((file.cf.to_owned(), k), v);
                    }
                }
                ApplyStep::Done => return Ok(()),
            }
            applying.done(&self.snap);
        }
    }
}

fn copy(from_disk: &Disk, from: &mut FilesV2, disk: &mut Disk, to: &mut FilesV2) -> u64 {
    let mut buf = [0; 7];
    let mut total: u64 = 0;
    loop {
        let n = from.read(from_disk, &mut buf);
        if n == 0 {
            return total;
        }
        assert_eq!(to.write(disk, &buf[..n]), n);
        total += n as u64;
    }
}

fn apply_options(region: Region) -> ApplyOptions {
    ApplyOptions { region, write_batch_size: 10 * 1024 * 1024 }
}

/// What the manager does with its directory when it starts.
fn init(mgr: &SnapManagerCore, disk: &mut Disk, dir: &str) -> SnapResult<SizeTrack> {
    let mut track = SizeTrack::new();
    let mut start_up = StartUp::new(&track);
    assert_eq!(mgr.init(true, true)?, InitStep::Scan);
    let head = format!("{}/", dir);
    let names: Vec<String> =
        disk.keys().filter_map(|p| p.strip_prefix(&head)).map(|n| n.to_owned()).collect();
    for name in names {
        let path = format!("{}{}", head, name);
        let entry = DirEntry { is_file: true, name: Some(name) };
        match start_up.entry(&track, &entry) {
            FileKind::Temporary => {
                disk.remove(&path);
            }
            FileKind::Data => start_up.found(&mut track, disk[&path].len() as u64),
            FileKind::Other => {}
        }
    }
    Ok(track)
}

#[test]
fn test_snap_file() {
    let mut disk = Disk::new();
    let path = "test-snap-file/snap1";
    let key = SnapKey::new(1, 1, 1);
    let test_data = b"test_data";
    let exp_len = (test_data.len() + CRC32_BYTES_COUNT) as u64;
    let mut track = SizeTrack::new();
    let mut f1 = FileV1::for_writing(&mut disk, path, true, &key);
    let mut f2 = FileV1::for_writing(&mut disk, path, false, &key);
    assert!(!f1.present(&disk));
    assert!(f1.tmp_present(&disk));
    assert!(!f2.present(&disk));
    assert!(f2.tmp_present(&disk));
    assert_eq!(f1.write(&mut disk, test_data), test_data.len());
    assert_eq!(f2.write(&mut disk, test_data), test_data.len());
    assert!(!f1.present(&disk));
    assert!(f1.tmp_present(&disk));
    assert!(!f2.present(&disk));
    assert!(f2.tmp_present(&disk));
    let key2 = SnapKey::new(2, 1, 1);
    let mut f3 = FileV1::for_writing(&mut disk, path, true, &key2);
    let mut f4 = FileV1::for_writing(&mut disk, path, false, &key2);
    f3.write(&mut disk, test_data);
    f4.write(&mut disk, test_data);
    assert_eq!(track.total, 0);
    f3.finish(&mut disk, &mut track, true);
    f4.finish(&mut disk, &mut track, true);
    assert!(f3.present(&disk));
    assert!(f4.present(&disk));
    assert_eq!(track.total, exp_len * 2);

    // Saving happens once, and nothing is written after it.
    f3.finish(&mut disk, &mut track, true);
    assert_eq!(track.total, exp_len * 2);
    assert_eq!(f3.write(&mut disk, test_data), 0);
    f1.drop_it(&mut disk);
    f2.drop_it(&mut disk);
    assert_eq!(disk.len(), 2);
}

#[test]
fn test_snap_validate() {
    let mut disk = Disk::new();
    let key1 = SnapKey::new(1, 1, 1);
    let mut track = SizeTrack::new();
    let mut f1 = FileV1::for_writing(&mut disk, "test-snap-mgr", false, &key1);
    f1.write(&mut disk, b"testdata");
    f1.finish(&mut disk, &mut track, true);
    f1.validate(&disk).unwrap();

    // read partially should not affect validation.
    let path = f1.snap.path().to_owned();
    validate(&disk[&path], &[2]).unwrap();

    // read fully should not affect validation.
    validate(&disk[&path], &[2, 2, 2, 2, 2]).unwrap();

    let file = disk.get_mut(&path).unwrap();
    file[..2].copy_from_slice(b"et");
    match f1.validate(&disk).unwrap_err() {
        Error::Other(Failure::CrcMismatch(stored, sum)) => {
            assert_eq!(stored, checksum_of(b"testdata"));
            assert_eq!(sum, checksum_of(b"etstdata"));
        }
        _ => panic!("another failure"),
    }
}

#[test]
fn test_get_and_check_snapshot_meta() {
    let mut cf_file = vec![];
    for (i, cf) in snapshot_cfs().into_iter().enumerate() {
        cf_file.push(CfFile {
            cf,
            size: 100 * (i + 1) as u64,
            checksum: 1000 * (i + 1) as u32,
            ..Default::default()
        });
    }
    let (total, meta) = get_snapshot_meta(&cf_file).unwrap();
    assert_eq!(total, 600);
    assert_eq!(check_snapshot_meta(&meta).unwrap(), vec!["default", "lock", "write"]);
    for (i, cf_file_meta) in meta.cf_files.iter().enumerate() {
        if cf_file_meta.cf != cf_file[i].cf {
            panic!("{}: expect cf {}, got {}", i, cf_file[i].cf, cf_file_meta.cf);
        }
        if cf_file_meta.size != cf_file[i].size {
            panic!("{}: expect cf size {}, got {}", i, cf_file[i].size, cf_file_meta.size);
        }
        if cf_file_meta.checksum != cf_file[i].checksum {
            panic!(
                "{}: expect cf checksum {}, got {}",
                i, cf_file[i].checksum, cf_file_meta.checksum
            );
        }
    }
}

#[test]
fn test_display_path() {
    let key = SnapKey::new(1, 1, 1);
    let prefix = make_prefix(true, &key);
    let display_path = v2::files::Snap::get_display_path("test-display-path", &prefix);
    assert!(display_path != "");
    assert_eq!(display_path, "test-display-path/gen_1_1_1_(default|lock|write).sst");
}

#[test]
fn test_empty_snap_file() {
    check_snap_file(get_test_empty_db());
}

#[test]
fn test_non_empty_snap_file() {
    check_snap_file(get_test_db());
}

fn check_snap_file(db: Db) {
    let region_id = 1;
    let (src_dir, dst_dir) = ("test-snap-file-src", "test-snap-file-dst");
    let mut disk = Disk::new();
    let key = SnapKey::new(region_id, 1, 1);
    let mut track = SizeTrack::new();
    let mut s1 = FilesV2::for_building(&mut disk, src_dir, &key);
    // Ensure that this snapshot file doesn't exist before being built.
    assert!(!s1.present(&disk));
    assert_eq!(track.total, 0);

    let mut snap_data = empty_snap_data(region_id);
    let mut context = BuildContext::new();
    s1.build(&mut disk, &db, &mut track, &mut snap_data, &mut context);

    // Ensure that this snapshot file does exist after being built.
    assert!(s1.present(&disk));
    let total_size = s1.snap.total_size();
    // Ensure the tracked size is modified correctly.
    let size = track.total;
    assert_eq!(size, total_size);
    assert_eq!(context.snapshot_size, size);
    assert_eq!(context.snapshot_kv_count, get_kv_count(&db));
    assert_eq!(snap_data.version, v2::SNAPSHOT_VERSION);
    assert_eq!(snap_data.file_size, size);

    // Ensure this snapshot could be read for sending.
    let mut s2 = FilesV2::for_sending(&disk, src_dir, &key).unwrap();
    assert!(s2.present(&disk));
    s2.check(&disk).unwrap();

    let mut s3 = FilesV2::for_receiving(&mut disk, dst_dir, &key, snap_data.meta).unwrap();
    assert!(!s3.present(&disk));

    // Ensure snapshot data could be read out of `s2`, and write into `s3`.
    let from_disk = disk.clone();
    let copy_size = copy(&from_disk, &mut s2, &mut disk, &mut s3);
    assert_eq!(copy_size, size);
    assert!(!s3.present(&disk));
    // Full files take nothing more.
    assert_eq!(s3.write(&mut disk, b"more"), 0);
    s3.save(&mut disk, &mut track).unwrap();
    assert!(s3.present(&disk));

    // Ensure the tracked size is handled correctly after receiving a snapshot.
    assert_eq!(track.total, size * 2);

    // Ensure `delete()` works to delete the source snapshot.
    s2.delete(&mut disk, &mut track);
    assert!(!s2.present(&disk));
    assert!(!s1.present(&disk));
    assert_eq!(track.total, size);

    // Ensure a snapshot could be applied to DB.
    let s4 = FilesV2::for_applying(&disk, dst_dir, &key).unwrap();
    assert!(s4.present(&disk));

    let mut dst_db = Db::new();
    s4.apply(&disk, &mut dst_db, apply_options(get_test_region(region_id))).unwrap();

    // Ensure `delete()` works to delete the dest snapshot.
    s4.delete(&mut disk, &mut track);
    assert!(!s4.present(&disk));
    assert!(!s3.present(&disk));
    assert_eq!(track.total, 0);
    assert!(disk.is_empty());

    // Verify the data is correct after applying snapshot.
    assert_eq_db(&db, &dst_db);
    assert_eq!(dst_db.len(), get_kv_count(&db));
}

#[test]
fn test_snap_mgr_create_dir() {
    // Ensure the manager creates the specified directory when it does not exist.
    let mgr = SnapManagerCore::new("test-snap-mgr-create-dir/snap1".to_owned(), false);
    assert_eq!(mgr.init(false, false).unwrap(), InitStep::CreateDir);

    // Ensure `init()` will return an error if specified target is a file.
    let mgr = SnapManagerCore::new("test-snap-mgr-create-dir/snap2".to_owned(), false);
    match mgr.init(true, false).unwrap_err() {
        Error::Other(failure) => assert_eq!(
            failure.message(),
            "test-snap-mgr-create-dir/snap2 should be a directory"
        ),
        Error::Abort => panic!("not cancelled"),
    }
    assert_eq!(mgr.init(true, true).unwrap(), InitStep::Scan);
}

#[test]
fn test_snap_mgr_v1() {
    // Ensure the manager is of size 0 when it's initialized.
    let mut disk = Disk::new();
    let path = "test-snap-mgr-v1";
    let mgr = SnapManagerCore::new(path.to_owned(), false);
    assert_eq!(init(&mgr, &mut disk, path).unwrap().total, 0);

    let key1 = SnapKey::new(1, 1, 1);
    let mut track = SizeTrack::new();
    let mut s1 = FileV1::for_writing(&mut disk, path, true, &key1);
    let test_data = b"test_data";
    let expected_size = (test_data.len() + CRC32_BYTES_COUNT) as u64;
    s1.write(&mut disk, test_data);
    s1.finish(&mut disk, &mut track, true);
    let mut s2 = FileV1::for_writing(&mut disk, path, false, &key1);
    s2.write(&mut disk, test_data);
    s2.finish(&mut disk, &mut track, true);

    let key2 = SnapKey::new(2, 1, 1);
    let s3 = FileV1::for_writing(&mut disk, path, true, &key2);
    let s4 = FileV1::for_writing(&mut disk, path, false, &key2);

    assert!(s1.present(&disk));
    assert!(s2.present(&disk));
    assert!(!s3.present(&disk));
    assert!(!s4.present(&disk));
    assert_eq!(disk.len(), 4);

    // Ensure the manager would delete all the temporary files on initialization if they exist.
    let mgr = SnapManagerCore::new(path.to_owned(), false);
    let mut track = init(&mgr, &mut disk, path).unwrap();
    assert_eq!(track.total, expected_size * 2);

    assert!(s1.present(&disk));
    assert!(s2.present(&disk));
    assert!(!s3.present(&disk));
    assert!(!s4.present(&disk));
    assert_eq!(disk.len(), 2);

    // Ensure the tracked size of all snapshots is correct when deleting snapshots.
    let v1_path = v1::Snap::prepare_path(path, true, &key1);
    match mgr.get_snapshot_for_sending(&key1, disk.contains_key(&v1_path)) {
        AnySnap::V1(snap) => FileV1 { snap }.delete(&mut disk, &mut track),
        AnySnap::V2(_) => panic!("of the other form"),
    }
    assert_eq!(track.total, expected_size);
    assert!(FilesV2::for_applying(&disk, path, &key1).is_err());
    match mgr.get_snapshot_for_applying(&key1, false) {
        AnySnap::V1(snap) => FileV1 { snap }.delete(&mut disk, &mut track),
        AnySnap::V2(_) => panic!("of the other form"),
    }
    assert_eq!(track.total, 0);
}

#[test]
fn test_snap_mgr_v2() {
    let mut disk = Disk::new();
    let path = "test-snap-mgr-v2";
    let mgr = SnapManagerCore::new(path.to_owned(), true);
    assert_eq!(init(&mgr, &mut disk, path).unwrap().total, 0);

    let db = get_test_db();
    let key1 = SnapKey::new(1, 1, 1);
    let mut track = SizeTrack::new();
    let mut s1 = match mgr.get_snapshot_for_building(&key1) {
        AnySnap::V2(_) => FilesV2::for_building(&mut disk, path, &key1),
        AnySnap::V1(_) => panic!("of the other form"),
    };
    let mut snap_data = empty_snap_data(1);
    let mut context = BuildContext::new();
    s1.build(&mut disk, &db, &mut track, &mut snap_data, &mut context);
    let mut s = FilesV2::for_sending(&disk, path, &key1).unwrap();
    let expected_size = s.snap.total_size();
    let mut s2 =
        FilesV2::for_receiving(&mut disk, path, &key1, snap_data.meta.clone()).unwrap();
    let from_disk = disk.clone();
    let n = copy(&from_disk, &mut s, &mut disk, &mut s2);
    assert_eq!(n, expected_size);
    s2.save(&mut disk, &mut track).unwrap();

    let key2 = SnapKey::new(2, 1, 1);
    let s3 = FilesV2::for_building(&mut disk, path, &key2);
    let s4 = FilesV2::for_receiving(&mut disk, path, &key2, snap_data.meta).unwrap();

    assert!(s1.present(&disk));
    assert!(s2.present(&disk));
    assert!(!s3.present(&disk));
    assert!(!s4.present(&disk));
    assert_eq!(disk.len(), 16);

    let mgr = SnapManagerCore::new(path.to_owned(), true);
    let mut track = init(&mgr, &mut disk, path).unwrap();
    assert_eq!(track.total, expected_size * 2);

    assert!(s1.present(&disk));
    assert!(s2.present(&disk));
    assert!(!s3.present(&disk));
    assert!(!s4.present(&disk));
    assert_eq!(disk.len(), 8);

    let v1_path = v1::Snap::prepare_path(path, true, &key1);
    match mgr.get_snapshot_for_sending(&key1, disk.contains_key(&v1_path)) {
        AnySnap::V2(_) => {
            let s = FilesV2::for_sending(&disk, path, &key1).unwrap();
            s.delete(&mut disk, &mut track);
        }
        AnySnap::V1(_) => panic!("of the other form"),
    }
    assert_eq!(track.total, expected_size);
    let ready = FilesV2::for_applying(&disk, path, &key1).unwrap();
    match mgr.get_snapshot_for_applying(&key1, ready.present(&disk)) {
        AnySnap::V2(snap) => {
            assert_eq!(snap.path(), ready.snap.path());
            ready.delete(&mut disk, &mut track);
        }
        AnySnap::V1(_) => panic!("of the other form"),
    }
    assert_eq!(track.total, 0);
}

#[test]
fn test_snap_v1_v2_compatible() {
    // Ensure that it's compatible between v1 impl and v2 impl, which means a receiver
    // running v2 code could receive and apply the snapshot sent from a sender running v1 code.
    let mut disk = Disk::new();
    let src_mgr = SnapManagerCore::new("test-snap-v1-v2-compatible-src".to_owned(), false);
    let mut track = init(&src_mgr, &mut disk, "test-snap-v1-v2-compatible-src").unwrap();

    let db = get_test_db();
    let key = SnapKey::new(1, 1, 1);
    let mut s1 = match src_mgr.get_snapshot_for_building(&key) {
        AnySnap::V1(snap) => FileV1::open(&mut disk, snap),
        AnySnap::V2(_) => panic!("of the other form"),
    };
    let mut snap_data = empty_snap_data(1);
    let mut context = BuildContext::new();
    s1.build(&mut disk, &db, &mut track, &mut snap_data, &mut context);
    assert_eq!(snap_data.version, v1::SNAPSHOT_VERSION);
    assert_eq!(context.snapshot_kv_count, get_kv_count(&db));
    assert_eq!(context.snapshot_size, track.total);

    let s2 = match src_mgr.get_snapshot_for_sending(&key, s1.present(&disk)) {
        AnySnap::V1(snap) => FileV1 { snap },
        AnySnap::V2(_) => panic!("of the other form"),
    };
    let expected_size = disk[s2.snap.path()].len();

    let dst_mgr = SnapManagerCore::new("test-snap-v1-v2-compatible-dst".to_owned(), true);
    let mut dst_track = init(&dst_mgr, &mut disk, "test-snap-v1-v2-compatible-dst").unwrap();

    let mut s3 = match dst_mgr.get_snapshot_for_receiving(&key, Ok(&snap_data)).unwrap() {
        AnySnap::V1(snap) => FileV1::open(&mut disk, snap),
        AnySnap::V2(_) => panic!("of the other form"),
    };
    let sent = disk[s2.snap.path()].clone();
    let n: usize = sent.chunks(5).map(|chunk| s3.write(&mut disk, chunk)).sum();
    assert_eq!(n, expected_size);
    s3.finish(&mut disk, &mut dst_track, false);
    assert_eq!(dst_track.total, expected_size as u64);
    s3.validate(&disk).unwrap();

    let mut dst_db = Db::new();
    let s4 = match dst_mgr.get_snapshot_for_applying(&key, false) {
        AnySnap::V1(snap) => FileV1 { snap },
        AnySnap::V2(_) => panic!("of the other form"),
    };
    s4.apply(&disk, &mut dst_db, apply_options(get_test_region(1))).unwrap();

    assert_eq_db(&db, &dst_db);
    assert_eq!(dst_db.len(), get_kv_count(&db));
}

#[test]
fn invalid_file_is_built_again() {
    let mut disk = Disk::new();
    let db = get_test_db();
    let key = SnapKey::new(1, 1, 1);
    let mut track = SizeTrack::new();
    let mut data = empty_snap_data(1);
    let mut context = BuildContext::new();
    let mut s1 = FileV1::for_writing(&mut disk, "rebuild", true, &key);
    s1.build(&mut disk, &db, &mut track, &mut data, &mut context);
    let path = s1.snap.path().to_owned();
    let good = disk[&path].clone();

    // A valid one is kept.
    let mut s2 = FileV1::for_writing(&mut disk, "rebuild", true, &key);
    assert!(!s2.snap.is_writing());
    s2.build(&mut disk, &db, &mut track, &mut data, &mut context);
    assert_eq!(disk[&path], good);
    assert_eq!(track.total, good.len() as u64);

    // One that was damaged is written again.
    disk.get_mut(&path).unwrap()[3] ^= 1;
    let mut s3 = FileV1::for_writing(&mut disk, "rebuild", true, &key);
    s3.build(&mut disk, &db, &mut track, &mut data, &mut context);
    assert_eq!(disk[&path], good);
    assert_eq!(track.total, good.len() as u64);

    // So is one that is too short to hold a checksum.
    disk.insert(path.clone(), vec![1, 2, 3]);
    match s3.validate(&disk).unwrap_err() {
        Error::Other(Failure::FileTooShort(3, 4)) => {}
        _ => panic!("another failure"),
    }
}

#[test]
fn damaged_transfer_is_refused() {
    let mut disk = Disk::new();
    let db = get_test_db();
    let key = SnapKey::new(1, 1, 1);
    let mut track = SizeTrack::new();
    let mut data = empty_snap_data(1);
    let mut context = BuildContext::new();
    let mut s1 = FilesV2::for_building(&mut disk, "src", &key);
    s1.build(&mut disk, &db, &mut track, &mut data, &mut context);
    let built = track.total;

    // Too few bytes.
    let mut s2 = FilesV2::for_receiving(&mut disk, "dst", &key, data.meta.clone()).unwrap();
    assert_eq!(s2.snap.flush(), Some(0));
    match s2.save(&mut disk, &mut track).unwrap_err() {
        Error::Other(Failure::SizeMismatch(path, cf, 0, expected)) => {
            assert_eq!(path, "dst/rev_1_1_1_default.sst");
            assert_eq!(cf, "default");
            assert_eq!(expected, s2.snap.cf_files[0].size);
        }
        _ => panic!("another failure"),
    }
    s2.drop_it(&mut disk, &mut track);
    assert_eq!(disk.len(), 4);
    assert_eq!(track.total, built);

    // Other bytes.
    let mut s3 = FilesV2::for_receiving(&mut disk, "dst", &key, data.meta.clone()).unwrap();
    let zeros = vec![0; built as usize + 1];
    assert_eq!(s3.write(&mut disk, &zeros), built as usize);
    assert_eq!(s3.snap.flush(), None);
    match s3.save(&mut disk, &mut track).unwrap_err() {
        Error::Other(Failure::ChecksumMismatch(path, cf, sum, expected)) => {
            assert_eq!(path, "dst/rev_1_1_1_default.sst");
            assert_eq!(cf, "default");
            let size = s3.snap.cf_files[0].size as usize;
            assert_eq!(sum, checksum_of(&zeros[..size]));
            assert_eq!(expected, s3.snap.cf_files[0].checksum);
        }
        _ => panic!("another failure"),
    }
    s3.drop_it(&mut disk, &mut track);
    assert_eq!(disk.len(), 4);

    // Damage on the sender's disk is found too.
    let s4 = FilesV2::for_sending(&disk, "src", &key).unwrap();
    s4.check(&disk).unwrap();
    let path = s4.snap.cf_files[1].path.clone();
    disk.get_mut(&path).unwrap()[0] ^= 1;
    match s4.check(&disk).unwrap_err() {
        Error::Other(Failure::InvalidChecksum(sum, cf, expected)) => {
            assert_eq!(sum, checksum_of(&disk[&path]));
            assert_eq!(cf, "lock");
            assert_eq!(expected, s4.snap.cf_files[1].checksum);
        }
        _ => panic!("another failure"),
    }
    disk.get_mut(&path).unwrap().push(0);
    match s4.check(&disk).unwrap_err() {
        Error::Other(Failure::InvalidSize(size, cf, expected)) => {
            assert_eq!(size, expected + 1);
            assert_eq!(cf, "lock");
        }
        _ => panic!("another failure"),
    }
}

#[test]
fn missing_snapshots_are_refused() {
    let disk = Disk::new();
    let key = SnapKey::new(4, 5, 6);
    match FilesV2::for_sending(&disk, "d", &key).err().unwrap() {
        Error::Other(f) => assert_eq!(
            f.message(),
            "snapshot file d/gen_4_5_6_(default|lock|write).sst not exist"
        ),
        Error::Abort => panic!("not cancelled"),
    }
    match FilesV2::for_applying(&disk, "d", &key).err().unwrap() {
        Error::Other(f) => assert_eq!(
            f.message(),
            "snapshot file d/rev_4_5_6_(default|lock|write).sst not exists"
        ),
        Error::Abort => panic!("not cancelled"),
    }
}

#[test]
fn announcement_that_does_not_add_up() {
    let mut disk = Disk::new();
    let key = SnapKey::new(1, 1, 1);
    let mut track = SizeTrack::new();
    track.saved(5);
    let sizes = [("default", u64::MAX), ("lock", u64::MAX), ("write", 0)];
    let meta = SnapshotMeta {
        cf_files: sizes
            .iter()
            .map(|(cf, size)| SnapshotCfFile { cf: cf.to_string(), size: *size, checksum: 0 })
            .collect(),
    };
    let mut s = FilesV2::for_receiving(&mut disk, "d", &key, meta).unwrap();
    assert_eq!(s.snap.checked_total_size(), None);
    assert_eq!(s.write(&mut disk, b"some"), 4);
    match s.save(&mut disk, &mut track).unwrap_err() {
        Error::Other(Failure::SizeMismatch(_, cf, size, expected)) => {
            assert_eq!((cf.as_str(), size, expected), ("default", 4, u64::MAX));
        }
        _ => panic!("another failure"),
    }
    assert!(!s.present(&disk));
    assert_eq!(disk.len(), 4);
    s.drop_it(&mut disk, &mut track);
    assert!(disk.is_empty());
    assert_eq!(track.total, 5);
}

#[test]
fn metadata_in_another_order() {
    let mut disk = Disk::new();
    let db = get_test_db();
    let key = SnapKey::new(1, 1, 1);
    let mut track = SizeTrack::new();
    let mut data = empty_snap_data(1);
    let mut context = BuildContext::new();
    let mut s1 = FilesV2::for_building(&mut disk, "src", &key);
    s1.build(&mut disk, &db, &mut track, &mut data, &mut context);
    let mut meta = data.meta;
    meta.cf_files.rotate_left(1);

    let mut s2 = FilesV2::for_receiving(&mut disk, "dst", &key, meta).unwrap();
    for cf in ["lock", "write", "default"] {
        let content = disk[&format!("src/gen_1_1_1_{}.sst", cf)].clone();
        assert_eq!(s2.write(&mut disk, &content), content.len());
    }
    s2.save(&mut disk, &mut track).unwrap();
    assert!(s2.present(&disk));
    let s3 = FilesV2::for_applying(&disk, "dst", &key).unwrap();
    s3.check(&disk).unwrap();
    assert_eq!(s3.snap.total_size(), context.snapshot_size);
    let mut dst_db = Db::new();
    s3.apply(&disk, &mut dst_db, apply_options(get_test_region(1))).unwrap();
    assert_eq_db(&db, &dst_db);
}

#[test]
fn batch_size_does_not_matter() {
    let mut db = get_test_db();
    for i in 0..20u8 {
        db.insert((CF_LOCK.to_owned(), data_key(&[b'b', i])), vec![i; i as usize]);
        db.insert((CF_RAFT.to_owned(), data_key(&[b'b', i])), vec![i]);
        db.insert((CF_WRITE.to_owned(), data_key(&[b'z', i])), vec![i]);
    }
    let mut disk = Disk::new();
    let mut track = SizeTrack::new();
    let mut data = empty_snap_data(1);
    let mut context = BuildContext::new();
    let mut s = FileV1::for_writing(&mut disk, "d", true, &SnapKey::new(1, 1, 1));
    s.build(&mut disk, &db, &mut track, &mut data, &mut context);
    let region = get_test_region(1);
    let (begin, end) = (enc_start_key(&region), enc_end_key(&region));
    let expected: Db = db
        .into_iter()
        .filter(|((cf, k), _)| need_to_pack(cf) && k[..] >= begin[..] && k[..] < end[..])
        .collect();
    for write_batch_size in [0, 1, 7, 100, 10 * 1024 * 1024] {
        let mut dst_db = Db::new();
        let options = ApplyOptions { region: get_test_region(1), write_batch_size };
        s.apply(&disk, &mut dst_db, options).unwrap();
        assert_eq!(dst_db, expected);
    }
}

#[test]
fn writes_can_be_split() {
    let bytes: Vec<u8> = (0..30).collect();
    let meta = SnapshotMeta {
        cf_files: [("default", 7), ("lock", 0), ("write", 11)]
            .iter()
            .map(|(cf, size)| SnapshotCfFile { cf: cf.to_string(), size: *size, checksum: 0 })
            .collect(),
    };
    let mut disks = vec![];
    for cut in [1, 2, 7, 8, 30] {
        let mut disk = Disk::new();
        let key = SnapKey::new(1, 1, 1);
        let mut s = FilesV2::for_receiving(&mut disk, "d", &key, meta.clone()).unwrap();
        let n: usize = bytes.chunks(cut).map(|chunk| s.write(&mut disk, chunk)).sum();
        assert_eq!(n, 18);
        disks.push(disk);
    }
    assert_eq!(disks[0]["d/rev_1_1_1_default.sst.tmp"], bytes[..7].to_vec());
    assert_eq!(disks[0]["d/rev_1_1_1_write.sst.tmp"], bytes[7..18].to_vec());
    assert!(disks.iter().all(|disk| *disk == disks[0]));
}
