//! What can go wrong with a snapshot.

use crate::text::{decimal, push_decimal};
use vstd::prelude::*;

verus! {

/// Why a snapshot operation stopped.
#[derive(Debug)]
pub enum Error {
    /// The job was cancelled.
    Abort,
    /// Anything else.
    Other(Failure),
}

pub type SnapResult<T> = core::result::Result<T, Error>;

/// The failures of the snapshot logic itself.
#[derive(Debug)]
pub enum Failure {
    /// A message could not be parsed; the parser's words.
    Parse(String),
    /// A snapshot file is too short to hold its checksum: its length, and the checksum's.
    FileTooShort(u64, u64),
    /// The stored checksum, and the one that was computed.
    CrcMismatch(u32, u32),
    /// A column family that no snapshot may hold.
    EncodeInvalidCf(String),
    /// Metadata that names a column family that no snapshot may hold.
    DecodeInvalidCf(String),
    /// Metadata that names a column family twice.
    DecodeDuplicatedCf(String),
    /// How many column families the metadata names, and how many it should.
    CfCount(u64, u64),
    /// A snapshot that should be sent is not there.
    SendNotExist(String),
    /// A snapshot that should be applied is not there.
    ApplyNotExist(String),
    /// A column family of the snapshot that its metadata lacks.
    CfNotInMeta(String),
    /// A stored file has another size than its metadata says: size, column family, expected.
    InvalidSize(u64, String, u64),
    /// A stored file has another checksum than its metadata says: checksum, column family, expected.
    InvalidChecksum(u32, String, u32),
    /// A column family that the snapshot has no file for.
    CfNotFound(String),
    /// A received file has another size than announced: path, column family, size, expected.
    SizeMismatch(String, String, u64, u64),
    /// A received file has another checksum than announced: path, column family, checksum,
    /// expected.
    ChecksumMismatch(String, String, u32, u32),
    /// The snapshot directory is something else.
    NotDirectory(String),
    /// A key outside the region that the snapshot is for.
    KeyNotInRegion(Vec<u8>),
    /// A length prefix that is no length.
    BadLength,
}

/// The text of a failure.
pub open spec fn failure_text(f: Failure) -> Seq<char> {
    match f {
        Failure::Parse(e) => e@,
        Failure::FileTooShort(len, need) => "file length "@ + decimal(len as nat) + " < "@ + decimal(
            need as nat,
        ),
        Failure::CrcMismatch(stored, sum) => "crc not correct: "@ + decimal(stored as nat)
            + " != "@ + decimal(sum as nat),
        Failure::EncodeInvalidCf(cf) => "failed to encode invalid snapshot cf "@ + cf@,
        Failure::DecodeInvalidCf(cf) => "failed to decode invalid snapshot cf "@ + cf@,
        Failure::DecodeDuplicatedCf(cf) => "failed to decode duplicated snapshot cf "@ + cf@,
        Failure::CfCount(got, expect) => "invalid number of snapshot meta cf file: "@ + decimal(
            got as nat,
        ) + ", expect: "@ + decimal(expect as nat),
        Failure::SendNotExist(path) => "snapshot file "@ + path@ + " not exist"@,
        Failure::ApplyNotExist(path) => "snapshot file "@ + path@ + " not exists"@,
        Failure::CfNotInMeta(cf) => "cf "@ + cf@ + " doesn't exist in snapshot meta"@,
        Failure::InvalidSize(size, cf, expect) => "invalid snapshot file size "@ + decimal(
            size as nat,
        ) + " for cf "@ + cf@ + ", expected "@ + decimal(expect as nat),
        Failure::InvalidChecksum(sum, cf, expect) => "invalid snapshot file checksum "@ + decimal(
            sum as nat,
        ) + " for cf "@ + cf@ + ", expected "@ + decimal(expect as nat),
        Failure::CfNotFound(cf) => "fail to find cf "@ + cf@,
        Failure::SizeMismatch(path, cf, size, expect) => "snapshot file "@ + path@ + " for cf "@
            + cf@ + " size mismatches, real size "@ + decimal(size as nat) + ", expected size "@
            + decimal(expect as nat),
        Failure::ChecksumMismatch(path, cf, sum, expect) => "snapshot file "@ + path@ + " for cf "@
            + cf@ + " checksum mismatches, real checksum "@ + decimal(sum as nat)
            + ", expected checksum "@ + decimal(expect as nat),
        Failure::NotDirectory(path) => path@ + " should be a directory"@,
        Failure::KeyNotInRegion(_) => "key not in region"@,
        Failure::BadLength => "bad length"@,
    }
}

/// What a failure carries, as it is told: text as it stands, numbers in decimal.
pub open spec fn told_values(f: Failure) -> Seq<Seq<char>> {
    match f {
        Failure::Parse(s) | Failure::EncodeInvalidCf(s) | Failure::DecodeInvalidCf(s)
        | Failure::DecodeDuplicatedCf(s) | Failure::SendNotExist(s) | Failure::ApplyNotExist(s)
        | Failure::CfNotInMeta(s) | Failure::CfNotFound(s) | Failure::NotDirectory(s) => seq![s@],
        Failure::FileTooShort(a, b) | Failure::CfCount(a, b) => seq![
            decimal(a as nat),
            decimal(b as nat),
        ],
        Failure::CrcMismatch(a, b) => seq![decimal(a as nat), decimal(b as nat)],
        Failure::InvalidSize(a, s, b) => seq![decimal(a as nat), s@, decimal(b as nat)],
        Failure::InvalidChecksum(a, s, b) => seq![decimal(a as nat), s@, decimal(b as nat)],
        Failure::SizeMismatch(p, s, a, b) => seq![p@, s@, decimal(a as nat), decimal(b as nat)],
        Failure::ChecksumMismatch(p, s, a, b) => seq![p@, s@, decimal(a as nat), decimal(b as nat)],
        Failure::KeyNotInRegion(_) | Failure::BadLength => seq![],
    }
}

/// Words with a value before each of them but the first.
pub open spec fn around(words: Seq<Seq<char>>, values: Seq<Seq<char>>) -> Seq<char>
    decreases values.len(),
{
    if values.len() == 0 {
        words[0]
    } else {
        around(words.drop_last(), values.drop_last()) + values.last() + words.last()
    }
}

/// Two failures of one kind.
pub open spec fn alike(f: Failure, g: Failure) -> bool {
    match f {
        Failure::Parse(_) => g is Parse,
        Failure::FileTooShort(..) => g is FileTooShort,
        Failure::CrcMismatch(..) => g is CrcMismatch,
        Failure::EncodeInvalidCf(_) => g is EncodeInvalidCf,
        Failure::DecodeInvalidCf(_) => g is DecodeInvalidCf,
        Failure::DecodeDuplicatedCf(_) => g is DecodeDuplicatedCf,
        Failure::CfCount(..) => g is CfCount,
        Failure::SendNotExist(_) => g is SendNotExist,
        Failure::ApplyNotExist(_) => g is ApplyNotExist,
        Failure::CfNotInMeta(_) => g is CfNotInMeta,
        Failure::InvalidSize(..) => g is InvalidSize,
        Failure::InvalidChecksum(..) => g is InvalidChecksum,
        Failure::CfNotFound(_) => g is CfNotFound,
        Failure::SizeMismatch(..) => g is SizeMismatch,
        Failure::ChecksumMismatch(..) => g is ChecksumMismatch,
        Failure::NotDirectory(_) => g is NotDirectory,
        Failure::KeyNotInRegion(_) => g is KeyNotInRegion,
        Failure::BadLength => g is BadLength,
    }
}

/// Failures of one kind are told in the same words, with what each carries between them, in order
/// and whole.
pub proof fn law_same_words_for_a_kind(f: Failure, g: Failure)
    requires
        alike(f, g),
    ensures
        exists|words: Seq<Seq<char>>|
            words.len() == told_values(f).len() + 1 && failure_text(f) == #[trigger] around(
                words,
                told_values(f),
            ) && failure_text(g) == around(words, told_values(g)),
{
    let none = Seq::<char>::empty();
    let words: Seq<Seq<char>> = match f {
        Failure::Parse(_) => seq![none, none],
        Failure::FileTooShort(..) => seq!["file length "@, " < "@, none],
        Failure::CrcMismatch(..) => seq!["crc not correct: "@, " != "@, none],
        Failure::EncodeInvalidCf(_) => seq!["failed to encode invalid snapshot cf "@, none],
        Failure::DecodeInvalidCf(_) => seq!["failed to decode invalid snapshot cf "@, none],
        Failure::DecodeDuplicatedCf(_) => seq!["failed to decode duplicated snapshot cf "@, none],
        Failure::CfCount(..) => seq![
            "invalid number of snapshot meta cf file: "@,
            ", expect: "@,
            none,
        ],
        Failure::SendNotExist(_) => seq!["snapshot file "@, " not exist"@],
        Failure::ApplyNotExist(_) => seq!["snapshot file "@, " not exists"@],
        Failure::CfNotInMeta(_) => seq!["cf "@, " doesn't exist in snapshot meta"@],
        Failure::InvalidSize(..) => seq![
            "invalid snapshot file size "@,
            " for cf "@,
            ", expected "@,
            none,
        ],
        Failure::InvalidChecksum(..) => seq![
            "invalid snapshot file checksum "@,
            " for cf "@,
            ", expected "@,
            none,
        ],
        Failure::CfNotFound(_) => seq!["fail to find cf "@, none],
        Failure::SizeMismatch(..) => seq![
            "snapshot file "@,
            " for cf "@,
            " size mismatches, real size "@,
            ", expected size "@,
            none,
        ],
        Failure::ChecksumMismatch(..) => seq![
            "snapshot file "@,
            " for cf "@,
            " checksum mismatches, real checksum "@,
            ", expected checksum "@,
            none,
        ],
        Failure::NotDirectory(_) => seq![none, " should be a directory"@],
        Failure::KeyNotInRegion(_) => seq!["key not in region"@],
        Failure::BadLength => seq!["bad length"@],
    };
    lemma_around(words, told_values(f));
    lemma_around(words, told_values(g));
    assert(failure_text(f) =~= around(words, told_values(f)));
    assert(failure_text(g) =~= around(words, told_values(g)));
}

proof fn lemma_around(w: Seq<Seq<char>>, v: Seq<Seq<char>>)
    requires
        w.len() == v.len() + 1,
        v.len() <= 4,
    ensures
        v.len() == 0 ==> around(w, v) == w[0],
        v.len() == 1 ==> around(w, v) == w[0] + v[0] + w[1],
        v.len() == 2 ==> around(w, v) == w[0] + v[0] + w[1] + v[1] + w[2],
        v.len() == 3 ==> around(w, v) == w[0] + v[0] + w[1] + v[1] + w[2] + v[2] + w[3],
        v.len() == 4 ==> around(w, v) == w[0] + v[0] + w[1] + v[1] + w[2] + v[2] + w[3] + v[3]
            + w[4],
    decreases v.len(),
{
    if v.len() > 0 {
        lemma_around(w.drop_last(), v.drop_last());
    }
}

impl Failure {
    /// The failure in words.
    pub fn message(&self) -> (text: String)
        ensures
            text@ == failure_text(*self),
    {
        let mut out = String::new();
        match self {
            Failure::Parse(e) => {
                out.append(e.as_str());
            },
            Failure::FileTooShort(len, need) => {
                out.append("file length ");
                push_decimal(&mut out, *len);
                out.append(" < ");
                push_decimal(&mut out, *need);
            },
            Failure::CrcMismatch(stored, sum) => {
                out.append("crc not correct: ");
                push_decimal(&mut out, *stored as u64);
                out.append(" != ");
                push_decimal(&mut out, *sum as u64);
            },
            Failure::EncodeInvalidCf(cf) => {
                out.append("failed to encode invalid snapshot cf ");
                out.append(cf.as_str());
            },
            Failure::DecodeInvalidCf(cf) => {
                out.append("failed to decode invalid snapshot cf ");
                out.append(cf.as_str());
            },
            Failure::DecodeDuplicatedCf(cf) => {
                out.append("failed to decode duplicated snapshot cf ");
                out.append(cf.as_str());
            },
            Failure::CfCount(got, expect) => {
                out.append("invalid number of snapshot meta cf file: ");
                push_decimal(&mut out, *got);
                out.append(", expect: ");
                push_decimal(&mut out, *expect);
            },
            Failure::SendNotExist(path) => {
                out.append("snapshot file ");
                out.append(path.as_str());
                out.append(" not exist");
            },
            Failure::ApplyNotExist(path) => {
                out.append("snapshot file ");
                out.append(path.as_str());
                out.append(" not exists");
            },
            Failure::CfNotInMeta(cf) => {
                out.append("cf ");
                out.append(cf.as_str());
                out.append(" doesn't exist in snapshot meta");
            },
            Failure::InvalidSize(size, cf, expect) => {
                out.append("invalid snapshot file size ");
                push_decimal(&mut out, *size);
                out.append(" for cf ");
                out.append(cf.as_str());
                out.append(", expected ");
                push_decimal(&mut out, *expect);
            },
            Failure::InvalidChecksum(sum, cf, expect) => {
                out.append("invalid snapshot file checksum ");
                push_decimal(&mut out, *sum as u64);
                out.append(" for cf ");
                out.append(cf.as_str());
                out.append(", expected ");
                push_decimal(&mut out, *expect as u64);
            },
            Failure::CfNotFound(cf) => {
                out.append("fail to find cf ");
                out.append(cf.as_str());
            },
            Failure::SizeMismatch(path, cf, size, expect) => {
                out.append("snapshot file ");
                out.append(path.as_str());
                out.append(" for cf ");
                out.append(cf.as_str());
                out.append(" size mismatches, real size ");
                push_decimal(&mut out, *size);
                out.append(", expected size ");
                push_decimal(&mut out, *expect);
            },
            Failure::ChecksumMismatch(path, cf, sum, expect) => {
                out.append("snapshot file ");
                out.append(path.as_str());
                out.append(" for cf ");
                out.append(cf.as_str());
                out.append(" checksum mismatches, real checksum ");
                push_decimal(&mut out, *sum as u64);
                out.append(", expected checksum ");
                push_decimal(&mut out, *expect as u64);
            },
            Failure::NotDirectory(path) => {
                out.append(path.as_str());
                out.append(" should be a directory");
            },
            Failure::KeyNotInRegion(_) => {
                out.append("key not in region");
            },
            Failure::BadLength => {
                out.append("bad length");
            },
        }
        assert(out@ =~= failure_text(*self));
        out
    }
}

} // verus!
