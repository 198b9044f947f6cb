//! Byte strings in a file: a length, then the bytes.
//!
//! The length is doubled, which leaves the lowest bit as a sign, and written in groups of seven
//! bits, the lowest group first. Every group but the last has the high bit set.

use crate::error::{Error, Failure, SnapResult};
use vstd::prelude::*;

verus! {

/// A number in groups of seven bits, the lowest first.
pub open spec fn var_bytes(n: nat) -> Seq<u8>
    decreases n,
{
    if n < 128 {
        seq![n as u8]
    } else {
        seq![(n % 128 + 128) as u8] + var_bytes(n / 128)
    }
}

pub open spec fn pow128(n: nat) -> nat
    decreases n,
{
    if n == 0 {
        1
    } else {
        128 * pow128((n - 1) as nat)
    }
}

/// The number that groups of seven bits stand for, the lowest first.
pub open spec fn var_value(bytes: Seq<u8>) -> nat
    decreases bytes.len(),
{
    if bytes.len() == 0 {
        0
    } else {
        (bytes[0] % 128) as nat + 128 * var_value(bytes.drop_first())
    }
}

/// A byte string as it stands in a file.
pub open spec fn compact_bytes(data: Seq<u8>) -> Seq<u8> {
    var_bytes(2 * data.len()) + data
}

fn push_var(out: &mut Vec<u8>, n: u64)
    ensures
        final(out)@ == old(out)@ + var_bytes(n as nat),
    decreases n,
{
    let ghost before = out@;
    if n < 128 {
        out.push(n as u8);
        assert(out@ =~= before + var_bytes(n as nat));
    } else {
        out.push((n % 128 + 128) as u8);
        push_var(out, n / 128);
        assert(out@ =~= before + var_bytes(n as nat));
    }
}

/// Appends a byte string.
pub fn encode_compact_bytes(out: &mut Vec<u8>, data: &[u8])
    requires
        data@.len() <= i64::MAX,
    ensures
        final(out)@ == old(out)@ + compact_bytes(data@),
{
    let ghost before = out@;
    push_var(out, data.len() as u64 * 2);
    out.extend_from_slice(data);
    assert(out@ =~= before + compact_bytes(data@));
}

/// Reads the length of a byte string, one byte at a time.
pub struct LenDecoder {
    value: u64,
    scale: u64,
    count: u8,
    seen: Ghost<Seq<u8>>,
}

/// What one more byte of a length leads to.
pub enum LenStep {
    /// The length goes on.
    More,
    /// The length is complete.
    Done(u64),
}

impl LenDecoder {
    /// The bytes taken so far.
    pub closed spec fn seen(&self) -> Seq<u8> {
        self.seen@
    }

    pub closed spec fn wf(&self) -> bool {
        &&& self.count == self.seen@.len()
        &&& self.count <= 9
        &&& self.scale == pow128(self.count as nat)
        &&& self.value == var_value(self.seen@)
        &&& self.value < self.scale
    }

    pub fn new() -> (decoder: LenDecoder)
        ensures
            decoder.wf(),
            decoder.seen() == Seq::<u8>::empty(),
    {
        LenDecoder { value: 0, scale: 1, count: 0, seen: Ghost(Seq::empty()) }
    }

    /// Takes one more byte.
    pub fn step(&mut self, b: u8) -> (step: SnapResult<LenStep>)
        requires
            old(self).wf(),
        ensures
            match step {
                Ok(LenStep::More) => {
                    &&& b >= 128
                    &&& old(self).seen().len() < 9
                    &&& final(self).wf()
                    &&& final(self).seen() == old(self).seen().push(b)
                },
                Ok(LenStep::Done(len)) => {
                    &&& b < 128
                    &&& old(self).seen().len() == 9 ==> b <= 1
                    &&& 2 * len == var_value(old(self).seen().push(b))
                },
                Err(e) => {
                    &&& e == Error::Other(Failure::BadLength)
                    &&& {
                        ||| old(self).seen().len() == 9 && b > 1
                        ||| b < 128 && var_value(old(self).seen().push(b)) % 2 == 1
                    }
                },
            },
    {
        proof {
            lemma_var_value_push(self.seen@, b);
            reveal_with_fuel(pow128, 11);
        }
        if self.count == 9 {
            if b > 1 {
                return Err(Error::Other(Failure::BadLength));
            }
            let all: u64 = if b == 1 {
                self.value + self.scale
            } else {
                self.value
            };
            assert((b % 128) * self.scale == (if b == 1 {
                self.scale as int
            } else {
                0
            })) by (nonlinear_arith)
                requires
                    b <= 1,
            ;
            if all % 2 == 1 {
                return Err(Error::Other(Failure::BadLength));
            }
            return Ok(LenStep::Done(all / 2));
        }
        assert(self.scale <= 0x100_0000_0000_0000);
        assert((b % 128) * self.scale <= 127 * self.scale) by (nonlinear_arith)
            requires
                0 <= b % 128 <= 127,
                self.scale >= 0,
        ;
        assert((b % 128) * self.scale >= 0) by (nonlinear_arith)
            requires
                0 <= b % 128,
                self.scale >= 0,
        ;
        let all: u64 = self.value + (b % 128) as u64 * self.scale;
        if b < 128 {
            if all % 2 == 1 {
                return Err(Error::Other(Failure::BadLength));
            }
            return Ok(LenStep::Done(all / 2));
        }
        self.value = all;
        self.scale = self.scale * 128;
        self.count = self.count + 1;
        proof {
            self.seen@ = self.seen@.push(b);
        }
        Ok(LenStep::More)
    }
}

proof fn lemma_var_value_push(s: Seq<u8>, b: u8)
    ensures
        var_value(s.push(b)) == var_value(s) + (b % 128) * pow128(s.len()),
    decreases s.len(),
{
    if s.len() == 0 {
        assert(s.push(b).drop_first() =~= Seq::<u8>::empty());
        assert(var_value(s.push(b).drop_first()) == 0);
        assert(var_value(s) == 0);
        let one = pow128(0);
        assert((b % 128) * one == b % 128) by (nonlinear_arith)
            requires
                one == 1,
        ;
    } else {
        lemma_var_value_push(s.drop_first(), b);
        assert(s.push(b).drop_first() =~= s.drop_first().push(b));
        let low = pow128((s.len() - 1) as nat);
        assert(pow128(s.len()) == 128 * low);
        assert(s.push(b)[0] == s[0]);
        assert((b % 128) * (128 * low) == 128 * ((b % 128) * low)) by (nonlinear_arith);
    }
}

/// The groups of a number are complete only with the last one, and give the number back.
pub proof fn law_length_reads_back(n: nat)
    ensures
        var_bytes(n).len() > 0,
        var_bytes(n).last() < 128,
        forall|i: int| 0 <= i < var_bytes(n).len() - 1 ==> #[trigger] var_bytes(n)[i] >= 128,
        var_value(var_bytes(n)) == n,
    decreases n,
{
    let bytes = var_bytes(n);
    if n < 128 {
        assert(bytes.drop_first() =~= Seq::<u8>::empty());
        assert(var_value(bytes.drop_first()) == 0);
    } else {
        law_length_reads_back(n / 128);
        assert(bytes.drop_first() =~= var_bytes(n / 128));
    }
}

/// A number below two to the 64th takes at most ten groups, and the tenth is at most one.
pub proof fn law_length_is_short(n: nat)
    requires
        n <= u64::MAX,
    ensures
        var_bytes(n).len() <= 10,
        var_bytes(n).len() == 10 ==> var_bytes(n)[9] <= 1,
{
    reveal_with_fuel(var_bytes, 11);
}

/// Byte strings one after the other, as they stand in a file.
pub open spec fn stream_of(records: Seq<Seq<u8>>) -> Seq<u8>
    decreases records.len(),
{
    if records.len() == 0 {
        Seq::empty()
    } else {
        stream_of(records.drop_last()) + compact_bytes(records.last())
    }
}

pub proof fn lemma_stream_append(a: Seq<Seq<u8>>, b: Seq<Seq<u8>>)
    ensures
        stream_of(a + b) == stream_of(a) + stream_of(b),
    decreases b.len(),
{
    if b.len() == 0 {
        assert(a + b =~= a);
        assert(stream_of(a) + stream_of(b) =~= stream_of(a));
    } else {
        lemma_stream_append(a, b.drop_last());
        assert((a + b).drop_last() =~= a + b.drop_last());
        assert(stream_of(a + b) =~= stream_of(a) + stream_of(b));
    }
}

pub proof fn lemma_stream_one(record: Seq<u8>)
    ensures
        stream_of(seq![record]) == compact_bytes(record),
{
    assert(seq![record].drop_last() =~= Seq::<Seq<u8>>::empty());
    assert(stream_of(seq![record].drop_last()) =~= Seq::<u8>::empty());
    assert(stream_of(seq![record]) =~= compact_bytes(record));
}

/// What begins with a byte string begins with no other.
pub proof fn law_first_string_is_unique(a: Seq<u8>, after_a: Seq<u8>, b: Seq<u8>, after_b: Seq<u8>)
    requires
        compact_bytes(a) + after_a == compact_bytes(b) + after_b,
    ensures
        a == b,
        after_a == after_b,
{
    let stream = compact_bytes(a) + after_a;
    let la = var_bytes(2 * a.len());
    let lb = var_bytes(2 * b.len());
    law_length_reads_back(2 * a.len());
    law_length_reads_back(2 * b.len());
    assert forall|i: int| 0 <= i < la.len() implies stream[i] == la[i] by {
        assert(compact_bytes(a)[i] == la[i]);
    }
    assert forall|i: int| 0 <= i < lb.len() implies stream[i] == lb[i] by {
        assert(compact_bytes(b)[i] == lb[i]);
        assert((compact_bytes(b) + after_b)[i] == lb[i]);
    }
    if la.len() < lb.len() {
        assert(lb[la.len() - 1] >= 128);
        assert(stream[la.len() - 1] == la.last());
    }
    if lb.len() < la.len() {
        assert(la[lb.len() - 1] >= 128);
        assert(stream[lb.len() - 1] == lb.last());
    }
    assert(la =~= lb);
    assert(a.len() == b.len());
    assert(a =~= stream.subrange(la.len() as int, (la.len() + a.len()) as int));
    assert(b =~= (compact_bytes(b) + after_b).subrange(
        lb.len() as int,
        (lb.len() + b.len()) as int,
    ));
    assert(after_a =~= stream.skip((la.len() + a.len()) as int));
    assert(after_b =~= (compact_bytes(b) + after_b).skip((lb.len() + b.len()) as int));
}

/// The first bytes of a file, up to this many, are a length that is complete.
pub open spec fn complete_length(file: Seq<u8>, count: int) -> bool {
    &&& 0 < count <= file.len()
    &&& file[count - 1] < 128
    &&& forall|i: int| 0 <= i < count - 1 ==> #[trigger] file[i] >= 128
}

/// A byte string that was written is read: the length that [`LenDecoder`] takes off the file is
/// that of the byte string, it is accepted, and the byte string stands behind it.
pub proof fn law_written_string_is_read(data: Seq<u8>, after: Seq<u8>, count: int)
    requires
        data.len() <= i64::MAX,
        complete_length(compact_bytes(data) + after, count),
    ensures
        ({
            let file = compact_bytes(data) + after;
            &&& var_value(file.take(count)) == 2 * data.len()
            &&& count <= 10
            &&& count == 10 ==> file[9] <= 1
            &&& count + data.len() <= file.len()
            &&& file.subrange(count, (count + data.len()) as int) == data
            &&& file.skip((count + data.len()) as int) == after
        }),
{
    let file = compact_bytes(data) + after;
    let len = var_bytes(2 * data.len());
    law_length_reads_back(2 * data.len());
    law_length_is_short(2 * data.len());
    assert forall|i: int| 0 <= i < len.len() implies file[i] == len[i] by {
        assert(compact_bytes(data)[i] == len[i]);
    }
    assert(file[len.len() - 1] == len.last());
    if len.len() < count {
        assert(file[len.len() - 1] >= 128);
    } else if count < len.len() {
        assert(len[count - 1] >= 128);
    }
    assert(file.take(count) =~= len);
    assert(file.subrange(count, (count + data.len()) as int) =~= data);
    assert(file.skip((count + data.len()) as int) =~= after);
}

/// A file determines the byte strings that it holds.
pub proof fn law_stream_determines_records(a: Seq<Seq<u8>>, b: Seq<Seq<u8>>)
    requires
        stream_of(a) == stream_of(b),
    ensures
        a == b,
    decreases a.len(),
{
    if a.len() == 0 {
        if b.len() > 0 {
            law_length_reads_back(2 * b.last().len());
            assert(compact_bytes(b.last()).len() > 0);
        }
        assert(a =~= b);
    } else if b.len() == 0 {
        law_length_reads_back(2 * a.last().len());
        assert(compact_bytes(a.last()).len() > 0);
    } else {
        let rest_a = a.drop_first();
        let rest_b = b.drop_first();
        assert(a =~= seq![a[0]] + rest_a);
        assert(b =~= seq![b[0]] + rest_b);
        lemma_stream_append(seq![a[0]], rest_a);
        lemma_stream_append(seq![b[0]], rest_b);
        lemma_stream_one(a[0]);
        lemma_stream_one(b[0]);
        law_first_string_is_unique(a[0], stream_of(rest_a), b[0], stream_of(rest_b));
        law_stream_determines_records(rest_a, rest_b);
    }
}

/// A file of byte strings is made string by string: each is its length and then its bytes.
pub proof fn law_file_goes_string_by_string(a: Seq<Seq<u8>>, b: Seq<Seq<u8>>, data: Seq<u8>)
    ensures
        stream_of(a + b) == stream_of(a) + stream_of(b),
        stream_of(seq![data]) == var_bytes(2 * data.len()) + data,
        stream_of(Seq::empty()) == Seq::<u8>::empty(),
{
    lemma_stream_append(a, b);
    lemma_stream_one(data);
    let none = Seq::<Seq<u8>>::empty();
    assert(stream_of(none) =~= Seq::<u8>::empty());
}

/// A length is written in groups of seven bits, the lowest first: the first byte of a long one holds
/// its lowest group and the high bit, and the rest is what is left of it; a short one is one byte.
/// Reading undoes that group by group.
pub proof fn law_lengths_go_by_groups(n: nat, first: u8, rest: Seq<u8>)
    ensures
        n < 128 ==> var_bytes(n) == seq![n as u8],
        n >= 128 ==> var_bytes(n).len() > 0 && var_bytes(n)[0] == n % 128 + 128 && var_bytes(
            n,
        ).skip(1) == var_bytes(n / 128),
        var_value(Seq::empty()) == 0,
        var_value(seq![first] + rest) == first % 128 + 128 * var_value(rest),
{
    if n >= 128 {
        assert(var_bytes(n).skip(1) =~= var_bytes(n / 128));
    }
    assert((seq![first] + rest).drop_first() =~= rest);
}

} // verus!
