//! Snapshots that are one file: the records of the column families, then a checksum.

use crate::checksum::{
    be_bytes, be_value, crc32_of, law_altered_byte_is_noticed, law_bytes_of_a_number,
    law_checksum_bytes_read_back, push_u32, read_u32, Digest, CRC32_BYTES_COUNT,
};
use crate::error::{Error, Failure, SnapResult};
use crate::key::SnapKey;
use crate::names::{join_path, make_snap_file_name, make_tmp_name, path_in, snap_file_name, tmp_name};
use crate::types::{BuildContext, RaftSnapshotData};
use vstd::prelude::*;
use vstd::slice::slice_subrange;

verus! {

pub const SNAPSHOT_VERSION: u64 = 1;

pub const DEFAULT_READ_BUFFER_SIZE: usize = 4096;

/// A snapshot in one file.
///
/// Everything is written to a temporary file first, which is given the snapshot's own name when it
/// is saved. A checksum of all that was written can be appended then.
pub struct Snap {
    file: String,
    digest: Option<Digest>,
    tmp_file: Option<String>,
}

/// How to turn the temporary file into the snapshot.
pub struct Save {
    /// The temporary file.
    pub tmp: String,
    /// What to append to it first.
    pub trailer: Vec<u8>,
    /// The name that it is given.
    pub file: String,
}

impl Snap {
    /// Where the snapshot stands once it is saved.
    pub closed spec fn file(&self) -> Seq<char> {
        self.file@
    }

    /// The temporary file that is being written, if any.
    pub closed spec fn tmp_file(&self) -> Option<Seq<char>> {
        match self.tmp_file {
            Some(tmp) => Some(tmp@),
            None => None,
        }
    }

    /// Whether the snapshot was made to be written.
    pub closed spec fn writable(&self) -> bool {
        self.digest is Some
    }

    /// Everything that was written.
    pub closed spec fn written(&self) -> Seq<u8> {
        match self.digest {
            Some(digest) => digest.seen(),
            None => Seq::empty(),
        }
    }

    pub closed spec fn wf(&self) -> bool {
        &&& self.digest matches Some(digest) ==> digest.wf()
        &&& self.tmp_file is Some ==> self.digest is Some
    }

    /// The path of a snapshot in a directory.
    pub fn prepare_path(dir: &str, is_sending: bool, key: &SnapKey) -> (path: String)
        ensures
            path@ == path_in(dir@, snap_file_name(is_sending, *key)),
    {
        join_path(dir, make_snap_file_name(is_sending, key).as_str())
    }

    /// A snapshot to be written; [`Snap::init_for_writing`] says what to open.
    pub fn new_for_writing(dir: &str, is_sending: bool, key: &SnapKey) -> (snap: Snap)
        ensures
            snap.wf(),
            snap.writable(),
            snap.file() == path_in(dir@, snap_file_name(is_sending, *key)),
            snap.tmp_file() is None,
            snap.written() == Seq::<u8>::empty(),
    {
        Snap {
            file: Snap::prepare_path(dir, is_sending, key),
            digest: Some(Digest::new()),
            tmp_file: None,
        }
    }

    /// A snapshot to be read.
    pub fn new_for_reading(dir: &str, is_sending: bool, key: &SnapKey) -> (snap: Snap)
        ensures
            snap.wf(),
            !snap.writable(),
            snap.file() == path_in(dir@, snap_file_name(is_sending, *key)),
            snap.tmp_file() is None,
            snap.written() == Seq::<u8>::empty(),
    {
        Snap { file: Snap::prepare_path(dir, is_sending, key), digest: None, tmp_file: None }
    }

    /// Where the snapshot stands once it is saved.
    pub fn path(&self) -> (path: &str)
        ensures
            path@ == self.file(),
    {
        self.file.as_str()
    }

    /// The temporary file to create, unless the snapshot is there already or is being written. The
    /// file must not exist yet. [`Snap::tmp_created`] is told once it does.
    pub fn init_for_writing(&self, present: bool) -> (tmp: Option<String>)
        ensures
            tmp is Some <==> !present && self.tmp_file() is None,
            tmp matches Some(t) ==> t@ == tmp_name(self.file()),
    {
        if present || self.tmp_file.is_some() {
            return None;
        }
        Some(make_tmp_name(self.file.as_str()))
    }

    /// The temporary file was created.
    pub fn tmp_created(&mut self, tmp: String)
        requires
            old(self).wf(),
            old(self).writable(),
            tmp@ == tmp_name(old(self).file()),
        ensures
            final(self).wf(),
            final(self).writable(),
            final(self).tmp_file() == Some(tmp@),
            final(self).file() == old(self).file(),
            final(self).written() == old(self).written(),
    {
        self.tmp_file = Some(tmp);
    }

    /// Whether the snapshot was made to be written.
    pub fn is_writable(&self) -> (yes: bool)
        ensures
            yes == self.writable(),
    {
        self.digest.is_some()
    }

    /// Whether there is a temporary file to write to. If not, a write takes no bytes, and a flush
    /// does nothing.
    pub fn is_writing(&self) -> (yes: bool)
        ensures
            yes == self.tmp_file() is Some,
    {
        self.tmp_file.is_some()
    }

    /// The temporary file took this many bytes of a buffer.
    pub fn wrote(&mut self, buf: &[u8], count: usize)
        requires
            old(self).wf(),
            old(self).tmp_file() is Some,
            count <= buf@.len(),
        ensures
            final(self).wf(),
            final(self).writable() == old(self).writable(),
            final(self).file() == old(self).file(),
            final(self).tmp_file() == old(self).tmp_file(),
            final(self).written() == old(self).written() + buf@.take(count as int),
    {
        let taken = slice_subrange(buf, 0, count);
        assert(taken@ =~= buf@.take(count as int));
        let mut digest: Option<Digest> = None;
        std::mem::swap(&mut digest, &mut self.digest);
        if let Some(mut d) = digest {
            d.write(taken);
            self.digest = Some(d);
        }
    }

    /// How to save what was written, with its checksum behind it.
    pub fn save_with_checksum(&mut self) -> (save: Option<Save>)
        requires
            old(self).wf(),
        ensures
            final(self).wf(),
            final(self).saved_from(*old(self), true, save),
            final(self).tmp_file() is None,
            final(self).file() == old(self).file(),
            final(self).written() == old(self).written(),
            match save {
                Some(s) => {
                    &&& old(self).tmp_file() == Some(s.tmp@)
                    &&& s.file@ == old(self).file()
                    &&& s.trailer@ == be_bytes(crc32_of(old(self).written()))
                },
                None => old(self).tmp_file() is None,
            },
    {
        self.save_impl(true)
    }

    /// How to save what was written, as it is.
    pub fn save(&mut self) -> (save: Option<Save>)
        requires
            old(self).wf(),
        ensures
            final(self).wf(),
            final(self).saved_from(*old(self), false, save),
            final(self).tmp_file() is None,
            final(self).file() == old(self).file(),
            final(self).written() == old(self).written(),
            match save {
                Some(s) => {
                    &&& old(self).tmp_file() == Some(s.tmp@)
                    &&& s.file@ == old(self).file()
                    &&& s.trailer@ == Seq::<u8>::empty()
                },
                None => old(self).tmp_file() is None,
            },
    {
        self.save_impl(false)
    }

    /// Saving takes the temporary file away, so that it happens once; without one there is nothing
    /// to save.
    pub open spec fn saved_from(
        &self,
        before: Snap,
        append_checksum: bool,
        save: Option<Save>,
    ) -> bool {
        &&& self.tmp_file() is None
        &&& self.file() == before.file()
        &&& self.written() == before.written()
        &&& self.writable() == before.writable()
        &&& save is Some <==> before.tmp_file() is Some
        &&& save matches Some(s) ==> {
            &&& Some(s.tmp@) == before.tmp_file()
            &&& s.file@ == before.file()
            &&& s.trailer@ == if append_checksum {
                be_bytes(crc32_of(before.written()))
            } else {
                Seq::<u8>::empty()
            }
        }
    }

    fn save_impl(&mut self, append_checksum: bool) -> (save: Option<Save>)
        requires
            old(self).wf(),
        ensures
            final(self).wf(),
            final(self).saved_from(*old(self), append_checksum, save),
    {
        let mut tmp_file: Option<String> = None;
        std::mem::swap(&mut tmp_file, &mut self.tmp_file);
        match tmp_file {
            None => None,
            Some(tmp) => {
                let mut trailer: Vec<u8> = Vec::new();
                if append_checksum {
                    if let Some(digest) = &self.digest {
                        push_u32(&mut trailer, digest.sum32());
                        assert(trailer@ =~= be_bytes(crc32_of(digest.seen())));
                    }
                }
                Some(Save { tmp, trailer, file: self.file.clone() })
            },
        }
    }

    /// The file to remove where the snapshot is to be deleted, if it exists.
    pub fn try_delete(&self, present: bool) -> (path: Option<&str>)
        ensures
            path is Some <==> present,
            path matches Some(p) ==> p@ == self.file(),
    {
        if present {
            Some(self.file.as_str())
        } else {
            None
        }
    }

    /// The temporary file to remove where the snapshot is given up, if there is one.
    pub fn abandon(&mut self) -> (tmp: Option<String>)
        requires
            old(self).wf(),
        ensures
            final(self).wf(),
            final(self).tmp_file() is None,
            final(self).file() == old(self).file(),
            final(self).written() == old(self).written(),
            final(self).writable() == old(self).writable(),
            match tmp {
                Some(t) => old(self).tmp_file() == Some(t@),
                None => old(self).tmp_file() is None,
            },
    {
        let mut tmp_file: Option<String> = None;
        std::mem::swap(&mut tmp_file, &mut self.tmp_file);
        tmp_file
    }
}

/// Only a snapshot that was made to be written has a temporary file.
pub proof fn law_only_writable_is_written(snap: Snap)
    requires
        snap.wf(),
        snap.tmp_file() is Some,
    ensures
        snap.writable(),
{
}

/// Records the size of a snapshot that was built.
pub fn finish_build(size: u64, snap_data: &mut RaftSnapshotData, context: &mut BuildContext)
    ensures
        *final(snap_data) == (RaftSnapshotData {
            file_size: size,
            version: SNAPSHOT_VERSION,
            ..*old(snap_data)
        }),
        *final(context) == (BuildContext { snapshot_size: size, ..*old(context) }),
{
    snap_data.file_size = size;
    snap_data.version = SNAPSHOT_VERSION;
    context.snapshot_size = size;
}

/// A file that ends with the checksum of what stands before.
pub open spec fn valid_file(bytes: Seq<u8>) -> bool {
    &&& bytes.len() >= CRC32_BYTES_COUNT
    &&& be_value(bytes.skip(bytes.len() - CRC32_BYTES_COUNT)) == crc32_of(
        bytes.take(bytes.len() - CRC32_BYTES_COUNT),
    )
}

/// What was saved with its checksum is a valid file.
pub proof fn law_saved_file_is_valid(written: Seq<u8>)
    ensures
        valid_file(written + be_bytes(crc32_of(written))),
{
    let file = written + be_bytes(crc32_of(written));
    assert(file.take(file.len() - CRC32_BYTES_COUNT) =~= written);
    assert(file.skip(file.len() - CRC32_BYTES_COUNT) =~= be_bytes(crc32_of(written)));
    law_checksum_bytes_read_back(crc32_of(written));
}

/// A valid file in which one byte is altered is not valid any more, wherever the byte stands.
pub proof fn law_altered_file_is_refused(file: Seq<u8>, i: int, byte: u8)
    requires
        valid_file(file),
        0 <= i < file.len(),
        byte != file[i],
    ensures
        !valid_file(file.update(i, byte)),
{
    let altered = file.update(i, byte);
    let n = file.len() - CRC32_BYTES_COUNT;
    let data = file.take(n);
    if i < n {
        assert(altered.skip(n) =~= file.skip(n));
        assert(data =~= data.take(i) + seq![file[i]] + data.skip(i + 1));
        assert(altered.take(n) =~= data.take(i) + seq![byte] + data.skip(i + 1));
        law_altered_byte_is_noticed(data.take(i), file[i], byte, data.skip(i + 1));
    } else {
        assert(altered.take(n) =~= data);
        let (a, b) = (file.skip(n), altered.skip(n));
        assert(b =~= a.update(i - n, byte));
        assert(a[i - n] != byte);
    }
}

/// What reads give one after the other, with buffers that are not empty, from a place in a file
/// until one gives nothing: none goes beyond where the checksum begins.
pub open spec fn handed_out(file: Seq<u8>, at: int, given: Seq<Seq<u8>>) -> bool
    decreases given.len(),
{
    let end = file.len() - CRC32_BYTES_COUNT;
    if at >= end {
        given.len() == 0
    } else {
        &&& given.len() > 0
        &&& 0 < given[0].len() <= end - at
        &&& given[0] == file.subrange(at, at + given[0].len())
        &&& handed_out(file, at + given[0].len(), given.drop_first())
    }
}

/// Pieces one after the other.
pub open spec fn pieced_together(given: Seq<Seq<u8>>) -> Seq<u8>
    decreases given.len(),
{
    if given.len() == 0 {
        Seq::empty()
    } else {
        given[0] + pieced_together(given.drop_first())
    }
}

/// Whatever buffers a file is read with, the reads give all of it but the checksum, which is never
/// handed out.
pub proof fn law_checksum_is_never_handed_out(file: Seq<u8>, at: int, given: Seq<Seq<u8>>)
    requires
        0 <= at <= file.len() - CRC32_BYTES_COUNT,
        handed_out(file, at, given),
    ensures
        file.take(at) + pieced_together(given) == file.take(file.len() - CRC32_BYTES_COUNT),
    decreases given.len(),
{
    if at < file.len() - CRC32_BYTES_COUNT {
        let n = given[0].len() as int;
        law_checksum_is_never_handed_out(file, at + n, given.drop_first());
        assert(file.take(at + n) =~= file.take(at) + given[0]);
    }
    assert(file.take(at) + pieced_together(given) =~= file.take(file.len() - CRC32_BYTES_COUNT));
}

/// Reads a snapshot file and checks its checksum on the way, without reading it twice.
pub struct SnapValidationReader {
    digest: Digest,
    left: u64,
    res: Option<u32>,
}

/// What checking a file needs next.
#[derive(Clone, Copy, PartialEq, Eq, Debug, Structural)]
pub enum ValidateStep {
    /// Read up to this many bytes.
    Read(usize),
    /// Read the four bytes of the checksum.
    ReadChecksum,
    /// Nothing: compare.
    Compare,
}

impl SnapValidationReader {
    /// How many bytes before the checksum are still to be read.
    pub closed spec fn left(&self) -> u64 {
        self.left
    }

    /// What was read before the checksum.
    pub closed spec fn seen(&self) -> Seq<u8> {
        self.digest.seen()
    }

    /// The checksum at the end of the file, once it was read.
    pub closed spec fn stored(&self) -> Option<u32> {
        self.res
    }

    pub closed spec fn wf(&self) -> bool {
        self.digest.wf()
    }

    /// Whether what was read is the beginning of a file.
    pub open spec fn reads(&self, file: Seq<u8>) -> bool {
        &&& self.wf()
        &&& self.seen().len() + self.left() + CRC32_BYTES_COUNT == file.len()
        &&& self.seen() == file.take(self.seen().len() as int)
        &&& self.stored() matches Some(sum) ==> self.left() == 0 && sum == be_value(
            file.skip(file.len() - CRC32_BYTES_COUNT),
        )
    }

    /// Starts to read a file of a length. Refuses one that is too short to hold a checksum.
    pub fn open(len: u64) -> (reader: SnapResult<SnapValidationReader>)
        ensures
            match reader {
                Ok(r) => {
                    &&& len >= CRC32_BYTES_COUNT
                    &&& r.wf()
                    &&& r.left() == len - CRC32_BYTES_COUNT
                    &&& r.seen() == Seq::<u8>::empty()
                    &&& r.stored() is None
                    &&& forall|file: Seq<u8>| file.len() == len ==> #[trigger] r.reads(file)
                },
                Err(e) => {
                    &&& len < CRC32_BYTES_COUNT
                    &&& e == Error::Other(Failure::FileTooShort(len, CRC32_BYTES_COUNT as u64))
                },
            },
    {
        if len < CRC32_BYTES_COUNT as u64 {
            return Err(Error::Other(Failure::FileTooShort(len, CRC32_BYTES_COUNT as u64)));
        }
        let reader = SnapValidationReader {
            digest: Digest::new(),
            left: len - CRC32_BYTES_COUNT as u64,
            res: None,
        };
        assert forall|file: Seq<u8>| file.len() == len implies #[trigger] reader.reads(file) by {
            assert(file.take(0) =~= reader.seen());
        }
        Ok(reader)
    }

    /// How many bytes a read into a buffer may take: none of the checksum.
    pub fn read_limit(&self, buf_len: usize) -> (limit: usize)
        ensures
            limit as int == (if buf_len < self.left() {
                buf_len as int
            } else {
                self.left() as int
            }),
    {
        if (buf_len as u64) < self.left {
            buf_len
        } else {
            self.left as usize
        }
    }

    /// A read gave these bytes, no more than [`SnapValidationReader::read_limit`] allows.
    pub fn read(&mut self, data: &[u8])
        requires
            old(self).wf(),
            data@.len() <= old(self).left(),
        ensures
            final(self).wf(),
            final(self).left() == old(self).left() - data@.len(),
            final(self).seen() == old(self).seen() + data@,
            final(self).stored() == old(self).stored(),
            forall|file: Seq<u8>|
                old(self).reads(file) && old(self).stored() is None && data@ == file.subrange(
                    old(self).seen().len() as int,
                    (old(self).seen().len() + data@.len()) as int,
                ) ==> #[trigger] final(self).reads(file),
            forall|file: Seq<u8>, given: Seq<Seq<u8>>|
                old(self).reads(file) && data@.len() > 0 && given.len() > 0 && given[0] == data@
                    && data@ == file.subrange(
                    old(self).seen().len() as int,
                    (old(self).seen().len() + data@.len()) as int,
                ) ==> (#[trigger] handed_out(file, old(self).seen().len() as int, given)
                    <==> handed_out(
                    file,
                    final(self).seen().len() as int,
                    given.drop_first(),
                )),
    {
        self.digest.write(data);
        self.left = self.left - data.len() as u64;
        proof {
            assert forall|file: Seq<u8>|
                old(self).reads(file) && old(self).stored() is None && data@ == file.subrange(
                    old(self).seen().len() as int,
                    (old(self).seen().len() + data@.len()) as int,
                ) implies #[trigger] self.reads(file) by {
                law_reading_does_not_affect_validation(*old(self), *self, file, data@.len());
            }
        }
    }

    /// What checking the file needs next.
    pub fn next_step(&self) -> (step: ValidateStep)
        ensures
            step == (if self.stored() is Some {
                ValidateStep::Compare
            } else if self.left() == 0 {
                ValidateStep::ReadChecksum
            } else if self.left() < DEFAULT_READ_BUFFER_SIZE {
                ValidateStep::Read(self.left() as usize)
            } else {
                ValidateStep::Read(DEFAULT_READ_BUFFER_SIZE)
            }),
    {
        if self.res.is_some() {
            ValidateStep::Compare
        } else if self.left == 0 {
            ValidateStep::ReadChecksum
        } else if self.left < DEFAULT_READ_BUFFER_SIZE as u64 {
            ValidateStep::Read(self.left as usize)
        } else {
            ValidateStep::Read(DEFAULT_READ_BUFFER_SIZE)
        }
    }

    /// The four bytes of the checksum were read.
    pub fn checksum_read(&mut self, bytes: &[u8])
        requires
            old(self).wf(),
            old(self).left() == 0,
            bytes@.len() == CRC32_BYTES_COUNT,
        ensures
            final(self).wf(),
            final(self).left() == 0,
            final(self).seen() == old(self).seen(),
            final(self).stored() == Some(be_value(bytes@)),
            forall|file: Seq<u8>|
                old(self).reads(file) && bytes@ == file.skip(file.len() - CRC32_BYTES_COUNT)
                    ==> #[trigger] final(self).reads(file),
    {
        self.res = Some(read_u32(bytes));
    }

    /// Compares the stored checksum with that of what was read.
    pub fn validate(&self) -> (checked: SnapResult<()>)
        requires
            self.wf(),
            self.stored() is Some,
        ensures
            ({
                let stored = self.stored().unwrap();
                let sum = crc32_of(self.seen());
                checked == (if stored == sum {
                    SnapResult::<()>::Ok(())
                } else {
                    SnapResult::<()>::Err(Error::Other(Failure::CrcMismatch(stored, sum)))
                })
            }),
            forall|file: Seq<u8>| self.reads(file) ==> (checked is Ok <==> valid_file(file)),
    {
        let sum: u32 = self.digest.sum32();
        assert forall|file: Seq<u8>| self.reads(file) implies (sum == self.res.unwrap()
            <==> valid_file(file)) by {
            assert(self.seen() == file.take(file.len() - CRC32_BYTES_COUNT));
        }
        match self.res {
            Some(stored) => {
                if stored != sum {
                    return Err(Error::Other(Failure::CrcMismatch(stored, sum)));
                }
                Ok(())
            },
            None => Ok(()),
        }
    }
}

/// However a file is read, by whom and in what pieces, the reader goes on to read that file: a
/// partial or a full read before the check does not change the outcome.
pub proof fn law_reading_does_not_affect_validation(
    before: SnapValidationReader,
    after: SnapValidationReader,
    file: Seq<u8>,
    count: nat,
)
    requires
        before.reads(file),
        before.stored() is None,
        count <= before.left(),
        after.wf(),
        after.left() == before.left() - count,
        after.stored() == before.stored(),
        after.seen() == before.seen() + file.subrange(
            before.seen().len() as int,
            (before.seen().len() + count) as int,
        ),
    ensures
        after.reads(file),
{
    assert(after.seen() =~= file.take(after.seen().len() as int));
}

/// Four bytes at the end of a file make it valid exactly if they are the checksum of what stands
/// before.
pub proof fn law_valid_exactly(data: Seq<u8>, end: Seq<u8>)
    requires
        end.len() == CRC32_BYTES_COUNT,
    ensures
        valid_file(data + end) <==> end == be_bytes(crc32_of(data)),
{
    let file = data + end;
    assert(file.take(file.len() - CRC32_BYTES_COUNT) =~= data);
    assert(file.skip(file.len() - CRC32_BYTES_COUNT) =~= end);
    law_checksum_bytes_read_back(crc32_of(data));
    law_bytes_of_a_number(end);
}

/// A message that announces a snapshot in one file says version one.
pub proof fn law_version_of_single_files()
    ensures
        SNAPSHOT_VERSION == 1,
{
}

} // verus!
