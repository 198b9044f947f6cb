//! The record form of a snapshot: what a single-file snapshot holds, and what the file of the lock
//! column family holds.
//!
//! A column family is its name, then each key and value, then an empty record. A single-file
//! snapshot is its column families and one more empty record.

use crate::codec::{
    encode_compact_bytes, law_stream_determines_records, lemma_stream_append, lemma_stream_one,
    stream_of,
};
use crate::types::CF_RAFT;
use crate::text::same_text;
use vstd::prelude::*;
use vstd::string::*;

verus! {

/// Keys and values, in order.
pub type Pairs = Seq<(Seq<u8>, Seq<u8>)>;

/// What a snapshot holds of one column family.
#[verifier::ext_equal]
pub struct CfContent {
    pub name: Seq<u8>,
    pub pairs: Pairs,
}

/// Keys and values as records.
pub open spec fn pair_records(pairs: Pairs) -> Seq<Seq<u8>>
    decreases pairs.len(),
{
    if pairs.len() == 0 {
        Seq::empty()
    } else {
        pair_records(pairs.drop_last()).push(pairs.last().0).push(pairs.last().1)
    }
}

/// A column family as records, but for the empty record at its end.
pub open spec fn open_cf_records(cf: CfContent) -> Seq<Seq<u8>> {
    seq![cf.name] + pair_records(cf.pairs)
}

/// A column family as records.
pub open spec fn cf_records(cf: CfContent) -> Seq<Seq<u8>> {
    open_cf_records(cf).push(Seq::empty())
}

/// Column families as records, one after the other.
pub open spec fn cfs_records(cfs: Seq<CfContent>) -> Seq<Seq<u8>>
    decreases cfs.len(),
{
    if cfs.len() == 0 {
        Seq::empty()
    } else {
        cfs_records(cfs.drop_last()) + cf_records(cfs.last())
    }
}

/// A snapshot as records.
pub open spec fn snapshot_records(cfs: Seq<CfContent>) -> Seq<Seq<u8>> {
    cfs_records(cfs).push(Seq::empty())
}

/// The bytes of a single-file snapshot, but for its checksum.
pub open spec fn snapshot_stream(cfs: Seq<CfContent>) -> Seq<u8> {
    stream_of(snapshot_records(cfs))
}

/// How many keys column families hold.
pub open spec fn pair_count(cfs: Seq<CfContent>) -> nat
    decreases cfs.len(),
{
    if cfs.len() == 0 {
        0
    } else {
        pair_count(cfs.drop_last()) + cfs.last().pairs.len()
    }
}

/// Whether a snapshot holds a column family: all but the one of the raft log.
pub open spec fn packed(cf: Seq<char>) -> bool {
    cf != CF_RAFT@
}

/// Whether a snapshot holds a column family. The data of `CF_RAFT` is left out, even though none
/// of it should occur in the key range of a region.
pub fn need_to_pack(cf: &str) -> (yes: bool)
    ensures
        yes == packed(cf@),
{
    !same_text(cf, CF_RAFT)
}

/// A key and its value, as they stand in a file.
pub fn encode_pair(key: &[u8], value: &[u8]) -> (bytes: Vec<u8>)
    requires
        key@.len() <= i64::MAX,
        value@.len() <= i64::MAX,
    ensures
        bytes@ == stream_of(seq![key@, value@]),
{
    let mut out: Vec<u8> = Vec::new();
    encode_compact_bytes(&mut out, key);
    encode_compact_bytes(&mut out, value);
    proof {
        lemma_stream_one(key@);
        lemma_stream_one(value@);
        lemma_stream_append(seq![key@], seq![value@]);
        assert(seq![key@] + seq![value@] =~= seq![key@, value@]);
        assert(out@ =~= stream_of(seq![key@, value@]));
    }
    out
}

/// The empty record that ends a column family, or the snapshot.
pub fn encode_end() -> (bytes: Vec<u8>)
    ensures
        bytes@ == stream_of(seq![Seq::<u8>::empty()]),
{
    let mut out: Vec<u8> = Vec::new();
    let none: Vec<u8> = Vec::new();
    encode_compact_bytes(&mut out, none.as_slice());
    proof {
        lemma_stream_one(Seq::<u8>::empty());
        assert(none@ =~= Seq::<u8>::empty());
        assert(out@ =~= stream_of(seq![Seq::<u8>::empty()]));
    }
    out
}

/// Builds a single-file snapshot. Each call gives the bytes to write next.
pub struct StreamBuilder {
    in_cf: bool,
    cf_count: usize,
    total: usize,
    done: Ghost<Seq<CfContent>>,
    current: Ghost<CfContent>,
    output: Ghost<Seq<u8>>,
}

impl StreamBuilder {
    /// Whether a column family is being written.
    pub closed spec fn in_cf(&self) -> bool {
        self.in_cf
    }

    /// The column families that are complete.
    pub closed spec fn done(&self) -> Seq<CfContent> {
        self.done@
    }

    /// The column family that is being written.
    pub closed spec fn current(&self) -> CfContent {
        self.current@
    }

    /// All bytes given so far.
    pub closed spec fn output(&self) -> Seq<u8> {
        self.output@
    }

    /// The records that the bytes given so far stand for.
    pub open spec fn records(&self) -> Seq<Seq<u8>> {
        if self.in_cf() {
            cfs_records(self.done()) + open_cf_records(self.current())
        } else {
            cfs_records(self.done())
        }
    }

    pub closed spec fn wf(&self) -> bool {
        &&& self.output@ == stream_of(self.records())
        &&& self.total == pair_count(self.done@)
        &&& self.in_cf ==> self.cf_count == self.current@.pairs.len()
    }

    /// How many keys were written.
    pub open spec fn keys_written(&self) -> nat {
        pair_count(self.done()) + if self.in_cf() {
            self.current().pairs.len()
        } else {
            0
        }
    }

    pub fn new() -> (builder: StreamBuilder)
        ensures
            builder.wf(),
            !builder.in_cf(),
            builder.done() == Seq::<CfContent>::empty(),
            builder.output() == Seq::<u8>::empty(),
    {
        StreamBuilder {
            in_cf: false,
            cf_count: 0,
            total: 0,
            done: Ghost(Seq::empty()),
            current: Ghost(CfContent { name: Seq::empty(), pairs: Seq::empty() }),
            output: Ghost(Seq::empty()),
        }
    }

    /// Begins a column family. `None` if snapshots leave it out.
    pub fn begin_cf(&mut self, cf: &str) -> (bytes: Option<Vec<u8>>)
        requires
            old(self).wf(),
            !old(self).in_cf(),
            cf.spec_bytes().len() <= i64::MAX,
        ensures
            final(self).wf(),
            final(self).done() == old(self).done(),
            bytes is Some <==> packed(cf@),
            match bytes {
                Some(b) => {
                    &&& final(self).in_cf()
                    &&& final(self).current() == (CfContent {
                        name: cf.spec_bytes(),
                        pairs: Seq::empty(),
                    })
                    &&& final(self).output() == old(self).output() + b@
                },
                None => *final(self) == *old(self),
            },
    {
        if !need_to_pack(cf) {
            return None;
        }
        let ghost before = self.records();
        let mut out: Vec<u8> = Vec::new();
        encode_compact_bytes(&mut out, cf.as_bytes());
        self.in_cf = true;
        self.cf_count = 0;
        proof {
            let name = cf.spec_bytes();
            self.current@ = CfContent { name, pairs: Seq::empty() };
            self.output@ = self.output@ + out@;
            lemma_stream_one(name);
            lemma_stream_append(before, seq![name]);
            assert(out@ =~= stream_of(seq![name]));
            assert(self.records() =~= before + seq![name]);
        }
        Some(out)
    }

    /// Adds a key and its value to the column family.
    pub fn add_kv(&mut self, key: &[u8], value: &[u8]) -> (bytes: Vec<u8>)
        requires
            old(self).wf(),
            old(self).in_cf(),
            old(self).keys_written() < usize::MAX,
            key@.len() <= i64::MAX,
            value@.len() <= i64::MAX,
        ensures
            final(self).wf(),
            final(self).in_cf(),
            final(self).done() == old(self).done(),
            final(self).current() == (CfContent {
                name: old(self).current().name,
                pairs: old(self).current().pairs.push((key@, value@)),
            }),
            final(self).output() == old(self).output() + bytes@,
    {
        let ghost before = self.records();
        let out = encode_pair(key, value);
        self.cf_count = self.cf_count + 1;
        proof {
            let pairs = self.current@.pairs.push((key@, value@));
            assert(pairs.drop_last() =~= self.current@.pairs);
            self.current@ = CfContent { name: self.current@.name, pairs };
            self.output@ = self.output@ + out@;
            lemma_stream_append(before, seq![key@, value@]);
            assert(self.records() =~= before + seq![key@, value@]);
        }
        out
    }

    /// Ends the column family.
    pub fn end_cf(&mut self) -> (bytes: Vec<u8>)
        requires
            old(self).wf(),
            old(self).in_cf(),
            old(self).keys_written() <= usize::MAX,
        ensures
            final(self).wf(),
            !final(self).in_cf(),
            final(self).done() == old(self).done().push(old(self).current()),
            final(self).output() == old(self).output() + bytes@,
    {
        let ghost before = self.records();
        let out = encode_end();
        self.in_cf = false;
        self.total = self.total + self.cf_count;
        proof {
            let end = seq![Seq::<u8>::empty()];
            let done = self.done@.push(self.current@);
            assert(done.drop_last() =~= self.done@);
            self.done@ = done;
            self.output@ = self.output@ + out@;
            lemma_stream_append(before, end);
            assert(self.records() =~= before + end);
        }
        out
    }

    /// Ends the snapshot. Gives the last bytes, and how many keys the snapshot holds.
    pub fn finish(self) -> (last: (Vec<u8>, usize))
        requires
            self.wf(),
            !self.in_cf(),
        ensures
            self.output() + last.0@ == snapshot_stream(self.done()),
            last.1 == pair_count(self.done()),
    {
        let out = encode_end();
        proof {
            let end = seq![Seq::<u8>::empty()];
            lemma_stream_append(self.records(), end);
            assert(snapshot_records(self.done()) =~= self.records() + end);
        }
        (out, self.total)
    }
}

/// At every moment, the bytes given so far are the records of what was added so far.
pub proof fn law_built_bytes_are_records(builder: StreamBuilder)
    requires
        builder.wf(),
    ensures
        builder.output() == stream_of(builder.records()),
{
}

/// Keys and values none of whose keys is empty: an empty record would end the column family.
pub open spec fn regular(pairs: Pairs) -> bool {
    forall|i: int| 0 <= i < pairs.len() ==> (#[trigger] pairs[i]).0.len() > 0
}

/// A column family whose name is not empty, nor any of its keys.
pub open spec fn regular_cf(cf: CfContent) -> bool {
    cf.name.len() > 0 && regular(cf.pairs)
}

pub open spec fn regular_cfs(cfs: Seq<CfContent>) -> bool {
    forall|i: int| 0 <= i < cfs.len() ==> regular_cf(#[trigger] cfs[i])
}

proof fn lemma_pair_records(pairs: Pairs)
    ensures
        pair_records(pairs).len() == 2 * pairs.len(),
        forall|i: int|
            #![trigger pairs[i]]
            0 <= i < pairs.len() ==> pair_records(pairs)[2 * i] == pairs[i].0 && pair_records(
                pairs,
            )[2 * i + 1] == pairs[i].1,
    decreases pairs.len(),
{
    if pairs.len() > 0 {
        let front = pairs.drop_last();
        lemma_pair_records(front);
        assert forall|i: int| #![trigger pairs[i]] 0 <= i < pairs.len() implies pair_records(
            pairs,
        )[2 * i] == pairs[i].0 && pair_records(pairs)[2 * i + 1] == pairs[i].1 by {
            if i < front.len() {
                assert(front[i] == pairs[i]);
            }
        }
    }
}

/// Keys and values end with the first empty record that stands where a key should be.
pub proof fn lemma_pairs_unique(
    a: Pairs,
    after_a: Seq<Seq<u8>>,
    b: Pairs,
    after_b: Seq<Seq<u8>>,
)
    requires
        regular(a),
        regular(b),
        pair_records(a).push(Seq::empty()) + after_a == pair_records(b).push(Seq::empty())
            + after_b,
    ensures
        a == b,
        after_a == after_b,
{
    let ra = pair_records(a);
    let rb = pair_records(b);
    let whole = ra.push(Seq::empty()) + after_a;
    lemma_pair_records(a);
    lemma_pair_records(b);
    assert(whole[2 * a.len() as int] == Seq::<u8>::empty());
    assert(whole[2 * b.len() as int] == (rb.push(Seq::empty()) + after_b)[2 * b.len() as int]);
    assert(whole[2 * b.len() as int] == Seq::<u8>::empty());
    if a.len() < b.len() {
        let i = a.len() as int;
        assert(rb[2 * i] == b[i].0);
        assert((rb.push(Seq::empty()) + after_b)[2 * i] == rb[2 * i]);
    }
    if b.len() < a.len() {
        let i = b.len() as int;
        assert(ra[2 * i] == a[i].0);
        assert(whole[2 * i] == ra[2 * i]);
    }
    assert forall|i: int| 0 <= i < a.len() implies a[i] == b[i] by {
        assert(whole[2 * i] == ra[2 * i] && whole[2 * i + 1] == ra[2 * i + 1]);
        assert((rb.push(Seq::empty()) + after_b)[2 * i] == rb[2 * i]);
        assert((rb.push(Seq::empty()) + after_b)[2 * i + 1] == rb[2 * i + 1]);
        assert(ra[2 * i] == a[i].0 && ra[2 * i + 1] == a[i].1);
        assert(rb[2 * i] == b[i].0 && rb[2 * i + 1] == b[i].1);
    }
    assert(a =~= b);
    assert(after_a =~= whole.skip((2 * a.len() + 1) as int));
    assert(after_b =~= (rb.push(Seq::empty()) + after_b).skip((2 * b.len() + 1) as int));
}

proof fn lemma_cfs_records_front(cfs: Seq<CfContent>)
    requires
        cfs.len() > 0,
    ensures
        cfs_records(cfs) == cf_records(cfs[0]) + cfs_records(cfs.drop_first()),
    decreases cfs.len(),
{
    if cfs.len() == 1 {
        assert(cfs.drop_first() =~= Seq::<CfContent>::empty());
        assert(cfs.drop_last() =~= Seq::<CfContent>::empty());
        assert(cfs_records(cfs.drop_last()) =~= Seq::<Seq<u8>>::empty());
        assert(cfs_records(cfs) =~= cf_records(cfs[0]) + cfs_records(cfs.drop_first()));
    } else {
        lemma_cfs_records_front(cfs.drop_last());
        assert(cfs.drop_last().drop_first() =~= cfs.drop_first().drop_last());
        assert(cfs_records(cfs) =~= cf_records(cfs[0]) + cfs_records(cfs.drop_first()));
    }
}

/// The records of a snapshot determine what it holds, where no key and no name is empty.
pub proof fn law_records_determine_content(a: Seq<CfContent>, b: Seq<CfContent>)
    requires
        regular_cfs(a),
        regular_cfs(b),
        snapshot_records(a) == snapshot_records(b),
    ensures
        a == b,
    decreases a.len(),
{
    let whole = snapshot_records(a);
    if a.len() == 0 {
        assert(whole[0] == Seq::<u8>::empty());
    } else {
        lemma_cfs_records_front(a);
        assert(whole[0] == a[0].name);
        assert(regular_cf(a[0]));
    }
    if b.len() == 0 {
        assert(snapshot_records(b)[0] == Seq::<u8>::empty());
    } else {
        lemma_cfs_records_front(b);
        assert(snapshot_records(b)[0] == b[0].name);
        assert(regular_cf(b[0]));
    }
    if a.len() > 0 && b.len() > 0 {
        let rest_a = snapshot_records(a.drop_first());
        let rest_b = snapshot_records(b.drop_first());
        assert(whole.drop_first() =~= pair_records(a[0].pairs).push(Seq::empty()) + rest_a);
        assert(snapshot_records(b).drop_first() =~= pair_records(b[0].pairs).push(Seq::empty())
            + rest_b);
        lemma_pairs_unique(a[0].pairs, rest_a, b[0].pairs, rest_b);
        assert(regular_cfs(a.drop_first())) by {
            assert forall|i: int| 0 <= i < a.drop_first().len() implies regular_cf(
                #[trigger] a.drop_first()[i],
            ) by {
                assert(regular_cf(a[i + 1]));
            }
        }
        assert(regular_cfs(b.drop_first())) by {
            assert forall|i: int| 0 <= i < b.drop_first().len() implies regular_cf(
                #[trigger] b.drop_first()[i],
            ) by {
                assert(regular_cf(b[i + 1]));
            }
        }
        law_records_determine_content(a.drop_first(), b.drop_first());
        assert(a =~= seq![a[0]] + a.drop_first());
        assert(b =~= seq![b[0]] + b.drop_first());
    } else {
        assert(a =~= b);
    }
}

/// The bytes of a single-file snapshot determine what it holds, where no key and no name is empty.
pub proof fn law_stream_determines_content(a: Seq<CfContent>, b: Seq<CfContent>)
    requires
        regular_cfs(a),
        regular_cfs(b),
        snapshot_stream(a) == snapshot_stream(b),
    ensures
        a == b,
{
    law_stream_determines_records(snapshot_records(a), snapshot_records(b));
    law_records_determine_content(a, b);
}

/// Keys and values alternate: the record at twice a place is the key there, the next its value.
pub proof fn law_keys_and_values_alternate(pairs: Pairs)
    ensures
        pair_records(pairs).len() == 2 * pairs.len(),
        forall|i: int|
            #![trigger pairs[i]]
            0 <= i < pairs.len() ==> pair_records(pairs)[2 * i] == pairs[i].0 && pair_records(
                pairs,
            )[2 * i + 1] == pairs[i].1,
{
    lemma_pair_records(pairs);
}

/// Column families follow one another: a snapshot of two runs of them has the records of the first
/// and then those of the second; one has its name first, an empty record last and its keys and
/// values between; and one more empty record ends the snapshot.
pub proof fn law_column_families_follow(a: Seq<CfContent>, b: Seq<CfContent>, cf: CfContent)
    ensures
        cfs_records(a + b) == cfs_records(a) + cfs_records(b),
        cfs_records(seq![cf]).len() == 2 * cf.pairs.len() + 2,
        cfs_records(seq![cf])[0] == cf.name,
        cfs_records(seq![cf]).last() == Seq::<u8>::empty(),
        cfs_records(seq![cf]).subrange(1, 2 * cf.pairs.len() as int + 1) == pair_records(cf.pairs),
        snapshot_records(a).len() == cfs_records(a).len() + 1,
        snapshot_records(a).drop_last() == cfs_records(a),
        snapshot_records(a).last() == Seq::<u8>::empty(),
    decreases b.len(),
{
    lemma_pair_records(cf.pairs);
    let one = seq![cf];
    assert(one.drop_last() =~= Seq::<CfContent>::empty());
    assert(cfs_records(one.drop_last()) =~= Seq::<Seq<u8>>::empty());
    assert(cfs_records(one) =~= cf_records(cf));
    assert(cfs_records(one).subrange(1, 2 * cf.pairs.len() as int + 1) =~= pair_records(cf.pairs));
    assert(snapshot_records(a).drop_last() =~= cfs_records(a));
    if b.len() == 0 {
        assert(a + b =~= a);
        assert(cfs_records(a) + cfs_records(b) =~= cfs_records(a));
    } else {
        law_column_families_follow(a, b.drop_last(), cf);
        assert((a + b).drop_last() =~= a + b.drop_last());
        assert(cfs_records(a + b) =~= cfs_records(a) + cfs_records(b));
    }
}

/// The number of keys adds up over column families.
pub proof fn law_key_counts_add_up(a: Seq<CfContent>, b: Seq<CfContent>, cf: CfContent)
    ensures
        pair_count(a + b) == pair_count(a) + pair_count(b),
        pair_count(seq![cf]) == cf.pairs.len(),
    decreases b.len(),
{
    let one = seq![cf];
    assert(one.drop_last() =~= Seq::<CfContent>::empty());
    assert(pair_count(one.drop_last()) == 0);
    if b.len() == 0 {
        assert(a + b =~= a);
    } else {
        law_key_counts_add_up(a, b.drop_last(), cf);
        assert((a + b).drop_last() =~= a + b.drop_last());
    }
}

/// The column family of the raft log, and no other, is left out.
pub proof fn law_only_raft_is_left_out(cf: Seq<char>)
    ensures
        packed(cf) <==> cf != "raft"@,
{
}

} // verus!
