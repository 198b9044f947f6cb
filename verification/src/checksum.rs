//! Checksums, and the four bytes that hold one at the end of a file.

use byteorder::{BigEndian, ReadBytesExt, WriteBytesExt};
use crc::crc32;
use vstd::prelude::*;

verus! {

/// How many bytes a stored checksum takes.
pub const CRC32_BYTES_COUNT: usize = 4;

/// The IEEE polynomial, its bits reversed.
pub const IEEE: u32 = 0xedb88320;

/// One bit of a checksum's division by the polynomial.
pub open spec fn crc_bit(value: u32) -> u32 {
    if value & 1 == 1 {
        (value >> 1) ^ IEEE
    } else {
        value >> 1
    }
}

/// Some bits of it.
pub open spec fn crc_bits(value: u32, count: nat) -> u32
    decreases count,
{
    if count == 0 {
        value
    } else {
        crc_bit(crc_bits(value, (count - 1) as nat))
    }
}

/// One byte more.
pub open spec fn crc_byte(value: u32, byte: u8) -> u32 {
    crc_bits(value ^ (byte as u32), 8)
}

/// A run of bytes more.
pub open spec fn crc_bytes(value: u32, bytes: Seq<u8>) -> u32
    decreases bytes.len(),
{
    if bytes.len() == 0 {
        value
    } else {
        crc_byte(crc_bytes(value, bytes.drop_last()), bytes.last())
    }
}

/// The checksum of a run of bytes that follow others, given the checksum of those. Its bits are
/// inverted while it is computed.
pub open spec fn crc32_after(sum: u32, bytes: Seq<u8>) -> u32 {
    !crc_bytes(!sum, bytes)
}

/// The IEEE checksum of a run of bytes.
pub open spec fn crc32_of(bytes: Seq<u8>) -> u32 {
    crc32_after(0, bytes)
}

/// Calls `crc::crc32::update` with the table of the IEEE polynomial, which is what a digest made
/// by `Digest::new(IEEE)` does on each write. Trusted: it is the reflected division by that
/// polynomial, inverted before and after; the table holds the eight bits' worth of it for each
/// byte.
#[verifier::external_body]
pub(crate) fn crc32_update(sum: u32, bytes: &[u8]) -> (next: u32)
    ensures
        next == crc32_after(sum, bytes@),
{
    crc32::update(sum, &crc32::IEEE_TABLE, bytes)
}

proof fn lemma_crc_bytes_join(value: u32, a: Seq<u8>, b: Seq<u8>)
    ensures
        crc_bytes(value, a + b) == crc_bytes(crc_bytes(value, a), b),
    decreases b.len(),
{
    if b.len() == 0 {
        assert(a + b =~= a);
    } else {
        lemma_crc_bytes_join(value, a, b.drop_last());
        assert((a + b).drop_last() =~= a + b.drop_last());
    }
}

/// Summing two runs of bytes one after the other is summing them joined.
pub proof fn law_checksum_of_joined(sum: u32, a: Seq<u8>, b: Seq<u8>)
    ensures
        crc32_after(sum, a + b) == crc32_after(crc32_after(sum, a), b),
{
    lemma_crc_bytes_join(!sum, a, b);
    let mid = crc_bytes(!sum, a);
    assert(!(!mid) == mid) by (bit_vector);
}

proof fn lemma_crc_bits_injective(a: u32, b: u32, count: nat)
    requires
        crc_bits(a, count) == crc_bits(b, count),
    ensures
        a == b,
    decreases count,
{
    if count > 0 {
        let x = crc_bits(a, (count - 1) as nat);
        let y = crc_bits(b, (count - 1) as nat);
        assert(crc_bit(x) == crc_bit(y) ==> x == y) by (bit_vector);
        lemma_crc_bits_injective(a, b, (count - 1) as nat);
    }
}

proof fn lemma_crc_bytes_injective(a: u32, b: u32, bytes: Seq<u8>)
    requires
        crc_bytes(a, bytes) == crc_bytes(b, bytes),
    ensures
        a == b,
    decreases bytes.len(),
{
    if bytes.len() > 0 {
        let x = crc_bytes(a, bytes.drop_last());
        let y = crc_bytes(b, bytes.drop_last());
        let last = bytes.last() as u32;
        lemma_crc_bits_injective(x ^ last, y ^ last, 8);
        assert(x ^ last == y ^ last ==> x == y) by (bit_vector);
        lemma_crc_bytes_injective(a, b, bytes.drop_last());
    }
}

/// A byte that was altered is noticed: bytes that differ in one place only have different
/// checksums.
pub proof fn law_altered_byte_is_noticed(before: Seq<u8>, one: u8, other: u8, after: Seq<u8>)
    requires
        one != other,
    ensures
        crc32_of(before + seq![one] + after) != crc32_of(before + seq![other] + after),
{
    let zero: u32 = 0;
    let start = crc_bytes(!zero, before);
    let (x, y) = (crc_byte(start, one), crc_byte(start, other));
    lemma_crc_bytes_join(!zero, before + seq![one], after);
    lemma_crc_bytes_join(!zero, before + seq![other], after);
    assert((before + seq![one]).drop_last() =~= before);
    assert((before + seq![other]).drop_last() =~= before);
    assert(crc_bytes(!zero, before + seq![one]) == x);
    assert(crc_bytes(!zero, before + seq![other]) == y);
    let (p, q) = (crc_bytes(x, after), crc_bytes(y, after));
    if !p == !q {
        assert(!p == !q ==> p == q) by (bit_vector);
        lemma_crc_bytes_injective(x, y, after);
        lemma_crc_bits_injective(start ^ (one as u32), start ^ (other as u32), 8);
        assert(start ^ (one as u32) == start ^ (other as u32) ==> one == other) by (bit_vector);
    }
}

/// A checksum that is computed while bytes go by.
pub struct Digest {
    sum: u32,
    seen: Ghost<Seq<u8>>,
}

impl Digest {
    /// The bytes that went by.
    pub closed spec fn seen(&self) -> Seq<u8> {
        self.seen@
    }

    pub closed spec fn wf(&self) -> bool {
        self.sum == crc32_of(self.seen@)
    }

    pub fn new() -> (digest: Digest)
        ensures
            digest.wf(),
            digest.seen() == Seq::<u8>::empty(),
    {
        assert(!(!0u32) == 0u32) by (bit_vector);
        Digest { sum: 0, seen: Ghost(Seq::empty()) }
    }

    pub fn write(&mut self, bytes: &[u8])
        requires
            old(self).wf(),
        ensures
            final(self).wf(),
            final(self).seen() == old(self).seen() + bytes@,
    {
        self.sum = crc32_update(self.sum, bytes);
        proof {
            law_checksum_of_joined(0, self.seen@, bytes@);
            self.seen@ = self.seen@ + bytes@;
        }
    }

    pub fn sum32(&self) -> (sum: u32)
        requires
            self.wf(),
        ensures
            sum == crc32_of(self.seen()),
    {
        self.sum
    }
}

/// How many bytes of a file are read at once while its checksum is computed.
pub const DIGEST_BUFFER_SIZE: usize = 10240;

/// How a read ended.
pub enum ReadOutcome<'a> {
    /// It gave these bytes: none at the end of the file.
    Data(&'a [u8]),
    /// It was interrupted.
    Interrupted,
    /// It failed.
    Failed,
}

/// What follows a read.
#[derive(Clone, Copy, PartialEq, Eq, Debug, Structural)]
pub enum ChecksumStep {
    /// Read again.
    ReadMore,
    /// The whole file was read, and has this checksum.
    Done(u32),
    /// Report the failure.
    Fail,
}

/// Computes the checksum of a file, read by read.
pub fn calc_checksum(digest: &mut Digest, read: ReadOutcome) -> (step: ChecksumStep)
    requires
        old(digest).wf(),
    ensures
        final(digest).wf(),
        match read {
            ReadOutcome::Data(bytes) => {
                &&& final(digest).seen() == old(digest).seen() + bytes@
                &&& step == if bytes@.len() == 0 {
                    ChecksumStep::Done(crc32_of(old(digest).seen()))
                } else {
                    ChecksumStep::ReadMore
                }
            },
            ReadOutcome::Interrupted => step == ChecksumStep::ReadMore && *final(digest) == *old(
                digest,
            ),
            ReadOutcome::Failed => step == ChecksumStep::Fail && *final(digest) == *old(digest),
        },
{
    match read {
        ReadOutcome::Data(bytes) => {
            if bytes.len() == 0 {
                assert(digest.seen() + bytes@ =~= digest.seen());
                return ChecksumStep::Done(digest.sum32());
            }
            digest.write(bytes);
            ChecksumStep::ReadMore
        },
        ReadOutcome::Interrupted => ChecksumStep::ReadMore,
        ReadOutcome::Failed => ChecksumStep::Fail,
    }
}

/// The four bytes of a number, the most significant first.
pub open spec fn be_bytes(n: u32) -> Seq<u8> {
    seq![
        (n / 0x1000000) as u8,
        (n / 0x10000 % 0x100) as u8,
        (n / 0x100 % 0x100) as u8,
        (n % 0x100) as u8,
    ]
}

/// The number that four bytes hold, the most significant first.
pub open spec fn be_value(bytes: Seq<u8>) -> u32 {
    (bytes[0] * 0x1000000 + bytes[1] * 0x10000 + bytes[2] * 0x100 + bytes[3]) as u32
}

/// Calls `byteorder::WriteBytesExt::write_u32` on a vector, which cannot fail. Trusted: it appends
/// the number's four bytes, the most significant first.
#[verifier::external_body]
pub(crate) fn push_u32(out: &mut Vec<u8>, n: u32)
    ensures
        final(out)@ == old(out)@ + be_bytes(n),
{
    out.write_u32::<BigEndian>(n).unwrap();
}

/// Calls `byteorder::ReadBytesExt::read_u32` on four bytes, which cannot fail. Trusted: the number
/// is the one that the bytes hold, the most significant first.
#[verifier::external_body]
pub(crate) fn read_u32(bytes: &[u8]) -> (n: u32)
    requires
        bytes@.len() == 4,
    ensures
        n == be_value(bytes@),
{
    let mut rest = bytes;
    rest.read_u32::<BigEndian>().unwrap()
}

/// A stored checksum reads back as it was written.
pub proof fn law_checksum_bytes_read_back(n: u32)
    ensures
        be_bytes(n).len() == CRC32_BYTES_COUNT,
        be_value(be_bytes(n)) == n,
{
}

proof fn lemma_four_bytes(a: u8, b: u8, c: u8, d: u8)
    ensures
        ({
            let n = a * 0x1000000 + b * 0x10000 + c * 0x100 + d;
            &&& 0 <= n <= u32::MAX
            &&& n / 0x1000000 == a
            &&& n / 0x10000 % 0x100 == b
            &&& n / 0x100 % 0x100 == c
            &&& n % 0x100 == d
        }),
{
}

/// Four bytes are those of the number that they hold, and of no other.
pub proof fn law_bytes_of_a_number(bytes: Seq<u8>)
    requires
        bytes.len() == CRC32_BYTES_COUNT,
    ensures
        be_bytes(be_value(bytes)) == bytes,
{
    lemma_four_bytes(bytes[0], bytes[1], bytes[2], bytes[3]);
    assert(be_bytes(be_value(bytes)) =~= bytes);
}

} // verus!
