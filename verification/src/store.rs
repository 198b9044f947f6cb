//! What a store holds before a snapshot is built from it, and after one is applied to it.

use crate::apply::{
    joined, law_batches_hold_everything, progress_after, progress_after_all, start_of, Applier,
    Progress, Want,
};
use crate::checksum::{be_bytes, crc32_of, law_checksum_bytes_read_back, CRC32_BYTES_COUNT};
use crate::codec::{law_stream_determines_records, stream_of};
use crate::keys::{law_scanned_keys_are_in_region, lex_less, stored_end, stored_start};
use crate::manager::has_cf_files;
use crate::records::{
    cf_records, cfs_records, open_cf_records, pair_records, snapshot_records, snapshot_stream,
    CfContent, Pairs,
};
use crate::types::Region;
use crate::v1;
use vstd::prelude::*;

verus! {

/// The values in a store, by the name of the column family and the key.
pub type Store = Map<(Seq<u8>, Seq<u8>), Seq<u8>>;

/// A store after keys and values of a column family were put into it, in order.
pub open spec fn put_pairs(store: Store, cf: Seq<u8>, pairs: Pairs) -> Store
    decreases pairs.len(),
{
    if pairs.len() == 0 {
        store
    } else {
        put_pairs(store, cf, pairs.drop_last()).insert((cf, pairs.last().0), pairs.last().1)
    }
}

/// A store after batches of a column family were written to it, in order.
pub open spec fn put_batches(store: Store, cf: Seq<u8>, batches: Seq<Pairs>) -> Store
    decreases batches.len(),
{
    if batches.len() == 0 {
        store
    } else {
        put_pairs(put_batches(store, cf, batches.drop_last()), cf, batches.last())
    }
}

/// A store after column families were put into it.
pub open spec fn put_cfs(store: Store, cfs: Seq<CfContent>) -> Store
    decreases cfs.len(),
{
    if cfs.len() == 0 {
        store
    } else {
        put_pairs(put_cfs(store, cfs.drop_last()), cfs.last().name, cfs.last().pairs)
    }
}

proof fn lemma_put_pairs_append(store: Store, cf: Seq<u8>, a: Pairs, b: Pairs)
    ensures
        put_pairs(store, cf, a + b) == put_pairs(put_pairs(store, cf, a), cf, b),
    decreases b.len(),
{
    if b.len() == 0 {
        assert(a + b =~= a);
    } else {
        lemma_put_pairs_append(store, cf, a, b.drop_last());
        assert((a + b).drop_last() =~= a + b.drop_last());
    }
}

/// Writing batches one by one puts all of their keys and values into the store, in order.
pub proof fn law_batches_put_their_pairs(store: Store, cf: Seq<u8>, batches: Seq<Pairs>)
    ensures
        put_batches(store, cf, batches) == put_pairs(store, cf, joined(batches)),
    decreases batches.len(),
{
    if batches.len() > 0 {
        law_batches_put_their_pairs(store, cf, batches.drop_last());
        lemma_put_pairs_append(store, cf, joined(batches.drop_last()), batches.last());
    }
}

/// The size of a batch does not matter: two runs over the same records, whatever their limits, are
/// both refused at the same record, or both go as far, and what they have put into the store when
/// the last batch is written is the same.
pub proof fn law_batch_size_does_not_matter(
    one: Applier,
    other: Applier,
    records: Seq<Seq<u8>>,
    next: Seq<u8>,
    store: Store,
)
    requires
        one.wf(),
        other.wf(),
        one.single() == other.single(),
        one.region() == other.region(),
        progress_after_all(start_of(one.single()), one.single(), one.region(), records) == Some(
            one.progress(),
        ),
        progress_after_all(start_of(other.single()), other.single(), other.region(), records)
            == Some(other.progress()),
    ensures
        one.wanted() == other.wanted(),
        one.applied() == other.applied(),
        one.current() == other.current(),
        progress_after(one.progress(), one.single(), one.region(), next) == progress_after(
            other.progress(),
            other.single(),
            other.region(),
            next,
        ),
        ({
            let cf = one.current().name;
            put_pairs(put_batches(store, cf, one.batches()), cf, one.pending()) == put_pairs(
                put_batches(store, cf, other.batches()),
                cf,
                other.pending(),
            )
        }),
{
    let cf = one.current().name;
    assert(one.progress() == other.progress());
    law_batches_hold_everything(one);
    law_batches_hold_everything(other);
    law_batches_put_their_pairs(store, cf, one.batches());
    law_batches_put_their_pairs(store, cf, other.batches());
    lemma_put_pairs_append(store, cf, joined(one.batches()), one.pending());
    lemma_put_pairs_append(store, cf, joined(other.batches()), other.pending());
}

/// Whether a stored key stands between the first and the last key of a region.
pub open spec fn in_range(key: Seq<u8>, region: Region) -> bool {
    !lex_less(key, stored_start(region)) && lex_less(key, stored_end(region))
}

pub open spec fn has_key(pairs: Pairs, key: Seq<u8>) -> bool {
    exists|i: int| 0 <= i < pairs.len() && (#[trigger] pairs[i]).0 == key
}

pub open spec fn distinct_keys(pairs: Pairs) -> bool {
    forall|i: int, j: int|
        0 <= i < j < pairs.len() ==> (#[trigger] pairs[i]).0 != (#[trigger] pairs[j]).0
}

/// What walking the keys of a region in a column family gives: each of them once, with its value.
pub open spec fn is_scan(db: Store, cf: Seq<u8>, region: Region, pairs: Pairs) -> bool {
    &&& distinct_keys(pairs)
    &&& forall|i: int|
        0 <= i < pairs.len() ==> in_range((#[trigger] pairs[i]).0, region) && db.contains_key(
            (cf, pairs[i].0),
        ) && db[(cf, pairs[i].0)] == pairs[i].1
    &&& forall|key: Seq<u8>|
        in_range(key, region) && #[trigger] db.contains_key((cf, key)) ==> has_key(pairs, key)
}

/// The part of a store that a region has in some column families.
pub open spec fn part_of(db: Store, cfs: Seq<CfContent>, region: Region) -> Store {
    Map::new(
        |at: (Seq<u8>, Seq<u8>)|
            has_cf(cfs, at.0) && in_range(at.1, region) && db.contains_key(at),
        |at: (Seq<u8>, Seq<u8>)| db[at],
    )
}

pub open spec fn has_cf(cfs: Seq<CfContent>, name: Seq<u8>) -> bool {
    exists|i: int| 0 <= i < cfs.len() && (#[trigger] cfs[i]).name == name
}

/// Column families of a region, as they are scanned to build a snapshot: each once, under a name
/// that is not empty.
pub open spec fn is_scan_of_region(db: Store, region: Region, cfs: Seq<CfContent>) -> bool {
    &&& forall|i: int|
        0 <= i < cfs.len() ==> (#[trigger] cfs[i]).name.len() > 0 && is_scan(
            db,
            cfs[i].name,
            region,
            cfs[i].pairs,
        )
    &&& forall|i: int, j: int|
        0 <= i < j < cfs.len() ==> (#[trigger] cfs[i]).name != (#[trigger] cfs[j]).name
}

proof fn lemma_put_pairs(store: Store, cf: Seq<u8>, pairs: Pairs)
    requires
        distinct_keys(pairs),
    ensures
        forall|at: (Seq<u8>, Seq<u8>)|
            #![trigger put_pairs(store, cf, pairs).contains_key(at)]
            put_pairs(store, cf, pairs).contains_key(at) <==> store.contains_key(at) || (at.0 == cf
                && has_key(pairs, at.1)),
        forall|i: int|
            0 <= i < pairs.len() ==> put_pairs(store, cf, pairs)[(cf, (#[trigger] pairs[i]).0)]
                == pairs[i].1,
        forall|at: (Seq<u8>, Seq<u8>)|
            store.contains_key(at) && !(at.0 == cf && has_key(pairs, at.1))
                ==> #[trigger] put_pairs(store, cf, pairs)[at] == store[at],
    decreases pairs.len(),
{
    let put = put_pairs(store, cf, pairs);
    if pairs.len() > 0 {
        let front = pairs.drop_last();
        let last = pairs.last();
        assert forall|i: int, j: int| 0 <= i < j < front.len() implies (#[trigger] front[i]).0 != (
        #[trigger] front[j]).0 by {
            assert(front[i] == pairs[i] && front[j] == pairs[j]);
        }
        lemma_put_pairs(store, cf, front);
        assert forall|key: Seq<u8>| #[trigger] has_key(pairs, key) <==> has_key(front, key) || key
            == last.0 by {
            if has_key(front, key) {
                let i = choose|i: int| 0 <= i < front.len() && (#[trigger] front[i]).0 == key;
                assert(pairs[i].0 == key);
            }
            if key == last.0 {
                assert(pairs[pairs.len() - 1].0 == key);
            }
            if has_key(pairs, key) && key != last.0 {
                let i = choose|i: int| 0 <= i < pairs.len() && (#[trigger] pairs[i]).0 == key;
                assert(front[i].0 == key);
            }
        }
        assert forall|i: int| 0 <= i < pairs.len() implies put[(cf, (#[trigger] pairs[i]).0)]
            == pairs[i].1 by {
            if i < front.len() {
                assert(front[i] == pairs[i]);
                assert(pairs[i].0 != pairs[pairs.len() - 1].0);
            }
        }
        let mid = put_pairs(store, cf, front);
        assert(put == mid.insert((cf, last.0), last.1));
        assert forall|at: (Seq<u8>, Seq<u8>)|
            #![trigger put.contains_key(at)]
            put.contains_key(at) <==> store.contains_key(at) || (at.0 == cf && has_key(
                pairs,
                at.1,
            )) by {
            assert(at == (at.0, at.1));
            assert(mid.contains_key(at) <==> store.contains_key(at) || (at.0 == cf && has_key(
                front,
                at.1,
            )));
            assert(has_key(pairs, at.1) <==> has_key(front, at.1) || at.1 == last.0);
        }
        assert forall|at: (Seq<u8>, Seq<u8>)|
            store.contains_key(at) && !(at.0 == cf && has_key(pairs, at.1)) implies #[trigger]
            put[at] == store[at] by {
            assert(at == (at.0, at.1));
            assert(has_key(pairs, at.1) <==> has_key(front, at.1) || at.1 == last.0);
            assert(mid.contains_key(at));
            assert(mid[at] == store[at]);
        }
    }
}

/// What is put into an empty store out of the scans of a region is the region's part of the store
/// that was scanned.
pub proof fn law_scans_make_the_region(db: Store, region: Region, cfs: Seq<CfContent>)
    requires
        is_scan_of_region(db, region, cfs),
    ensures
        put_cfs(Map::empty(), cfs) == part_of(db, cfs, region),
    decreases cfs.len(),
{
    if cfs.len() == 0 {
        assert(put_cfs(Map::empty(), cfs) =~= part_of(db, cfs, region));
    } else {
        let front = cfs.drop_last();
        let last = cfs.last();
        assert(last == cfs[cfs.len() - 1]);
        assert(is_scan_of_region(db, region, front)) by {
            assert forall|i: int| 0 <= i < front.len() implies (#[trigger] front[i]).name.len() > 0
                && is_scan(db, front[i].name, region, front[i].pairs) by {
                assert(front[i] == cfs[i]);
            }
            assert forall|i: int, j: int| 0 <= i < j < front.len() implies (
            #[trigger] front[i]).name != (#[trigger] front[j]).name by {
                assert(front[i] == cfs[i] && front[j] == cfs[j]);
            }
        }
        law_scans_make_the_region(db, region, front);
        lemma_has_cf_last(cfs);
        let before = part_of(db, front, region);
        let after = part_of(db, cfs, region);
        let put = put_pairs(before, last.name, last.pairs);
        assert(!has_cf(front, last.name)) by {
            if has_cf(front, last.name) {
                let i = choose|i: int| 0 <= i < front.len() && (#[trigger] front[i]).name
                    == last.name;
                assert(cfs[i].name != cfs[cfs.len() - 1].name);
            }
        }
        lemma_put_pairs(before, last.name, last.pairs);
        assert forall|at: (Seq<u8>, Seq<u8>)|
            put.contains_key(at) <==> #[trigger] after.contains_key(at) by {
            lemma_put_one(db, region, cfs, at);
        }
        assert forall|at: (Seq<u8>, Seq<u8>)| #[trigger] after.contains_key(at) implies put[at]
            == after[at] by {
            lemma_put_one(db, region, cfs, at);
            if at.0 == last.name && has_key(last.pairs, at.1) {
                let i = choose|i: int| 0 <= i < last.pairs.len() && (#[trigger] last.pairs[i]).0
                    == at.1;
                assert(put[(last.name, last.pairs[i].0)] == last.pairs[i].1);
                assert(at == (last.name, last.pairs[i].0));
            }
        }
        assert(put =~= after);
    }
}

proof fn lemma_has_cf_last(cfs: Seq<CfContent>)
    requires
        cfs.len() > 0,
    ensures
        forall|name: Seq<u8>| #[trigger]
            has_cf(cfs, name) <==> has_cf(cfs.drop_last(), name) || name == cfs.last().name,
{
    let front = cfs.drop_last();
    assert forall|name: Seq<u8>| #[trigger] has_cf(cfs, name) <==> has_cf(front, name) || name
        == cfs.last().name by {
        if has_cf(front, name) {
            let i = choose|i: int| 0 <= i < front.len() && (#[trigger] front[i]).name == name;
            assert(cfs[i].name == name);
        }
        if name == cfs.last().name {
            assert(cfs[cfs.len() - 1].name == name);
        }
        if has_cf(cfs, name) && name != cfs.last().name {
            let i = choose|i: int| 0 <= i < cfs.len() && (#[trigger] cfs[i]).name == name;
            assert(front[i].name == name);
        }
    }
}

/// Where a key of the region stands: in the column families before the last, or in the last scan.
proof fn lemma_put_one(db: Store, region: Region, cfs: Seq<CfContent>, at: (Seq<u8>, Seq<u8>))
    requires
        is_scan_of_region(db, region, cfs),
        cfs.len() > 0,
        !has_cf(cfs.drop_last(), cfs.last().name),
    ensures
        part_of(db, cfs, region).contains_key(at) <==> part_of(
            db,
            cfs.drop_last(),
            region,
        ).contains_key(at) || (at.0 == cfs.last().name && has_key(cfs.last().pairs, at.1)),
        at.0 == cfs.last().name && has_key(cfs.last().pairs, at.1) ==> {
            &&& part_of(db, cfs, region).contains_key(at)
            &&& !part_of(db, cfs.drop_last(), region).contains_key(at)
        },
{
    let last = cfs.last();
    assert(last == cfs[cfs.len() - 1]);
    lemma_has_cf_last(cfs);
    assert(is_scan(db, last.name, region, last.pairs));
    assert(at == (at.0, at.1));
    if at.0 == last.name && has_key(last.pairs, at.1) {
        let i = choose|i: int| 0 <= i < last.pairs.len() && (#[trigger] last.pairs[i]).0 == at.1;
        assert(in_range(last.pairs[i].0, region));
    }
    if at.0 == last.name && in_range(at.1, region) && db.contains_key(at) {
        assert(db.contains_key((last.name, at.1)));
        assert(has_key(last.pairs, at.1));
    }
}

proof fn lemma_progress_append(
    before: Progress,
    single: bool,
    region: Region,
    a: Seq<Seq<u8>>,
    b: Seq<Seq<u8>>,
)
    ensures
        progress_after_all(before, single, region, a + b) == (match progress_after_all(
            before,
            single,
            region,
            a,
        ) {
            Some(p) => progress_after_all(p, single, region, b),
            None => None,
        }),
    decreases b.len(),
{
    if b.len() == 0 {
        assert(a + b =~= a);
    } else {
        lemma_progress_append(before, single, region, a, b.drop_last());
        assert((a + b).drop_last() =~= a + b.drop_last());
    }
}

/// Keys and values of a region are all taken.
proof fn lemma_pairs_taken(before: Progress, single: bool, region: Region, pairs: Pairs)
    requires
        before.want == Want::Key,
        before.key.len() == 0,
        before.current.pairs.len() == 0,
        forall|i: int| 0 <= i < pairs.len() ==> in_range((#[trigger] pairs[i]).0, region),
    ensures
        progress_after_all(before, single, region, pair_records(pairs)) == Some(
            Progress {
                current: CfContent { name: before.current.name, pairs },
                key: Seq::empty(),
                ..before
            },
        ),
    decreases pairs.len(),
{
    let records = pair_records(pairs);
    assert(before.key =~= Seq::<u8>::empty());
    if pairs.len() == 0 {
        assert(before.current.pairs =~= pairs);
    } else {
        let front = pairs.drop_last();
        let (key, value) = pairs.last();
        assert forall|i: int| 0 <= i < front.len() implies in_range(
            (#[trigger] front[i]).0,
            region,
        ) by {
            assert(front[i] == pairs[i]);
        }
        lemma_pairs_taken(before, single, region, front);
        assert(in_range(pairs[pairs.len() - 1].0, region));
        law_scanned_keys_are_in_region(key, region);
        let mid = Progress {
            current: CfContent { name: before.current.name, pairs: front },
            key: Seq::empty(),
            ..before
        };
        let with_key = Progress { want: Want::Value, key, ..mid };
        let one = pair_records(front).push(key);
        assert(one.drop_last() =~= pair_records(front));
        assert(progress_after_all(before, single, region, one) == Some(with_key));
        assert(records.drop_last() =~= one);
        assert(records.last() == value);
        assert(front.push((key, value)) =~= pairs);
    }
}

/// The records of a region's column families are all taken.
proof fn lemma_cfs_taken(region: Region, db: Store, cfs: Seq<CfContent>) -> (p: Progress)
    requires
        is_scan_of_region(db, region, cfs),
    ensures
        progress_after_all(start_of(false), false, region, cfs_records(cfs)) == Some(p),
        p.want == Want::CfName,
        p.applied == cfs,
        p.key.len() == 0,
    decreases cfs.len(),
{
    if cfs.len() == 0 {
        assert(cfs =~= Seq::<CfContent>::empty());
        start_of(false)
    } else {
        let front = cfs.drop_last();
        let last = cfs.last();
        assert(last == cfs[cfs.len() - 1]);
        assert forall|i: int| 0 <= i < front.len() implies (#[trigger] front[i]).name.len() > 0
            && is_scan(db, front[i].name, region, front[i].pairs) by {
            assert(front[i] == cfs[i]);
        }
        assert forall|i: int, j: int| 0 <= i < j < front.len() implies (#[trigger] front[i]).name
            != (#[trigger] front[j]).name by {
            assert(front[i] == cfs[i] && front[j] == cfs[j]);
        }
        let before = lemma_cfs_taken(region, db, front);
        assert(last.name.len() > 0 && is_scan(db, last.name, region, last.pairs));
        lemma_progress_append(
            start_of(false),
            false,
            region,
            cfs_records(front),
            cf_records(last),
        );
        lemma_cf_taken(before, region, last);
        assert(front.push(last) =~= cfs);
        Progress {
            want: Want::CfName,
            applied: cfs,
            current: last,
            key: Seq::empty(),
        }
    }
}

proof fn lemma_cf_taken(before: Progress, region: Region, cf: CfContent)
    requires
        before.want == Want::CfName,
        before.key.len() == 0,
        cf.name.len() > 0,
        forall|i: int| 0 <= i < cf.pairs.len() ==> in_range((#[trigger] cf.pairs[i]).0, region),
    ensures
        progress_after_all(before, false, region, cf_records(cf)) == Some(
            Progress {
                want: Want::CfName,
                applied: before.applied.push(cf),
                current: cf,
                key: Seq::empty(),
            },
        ),
{
    let name = seq![cf.name];
    let records = pair_records(cf.pairs);
    let opened = Progress {
        want: Want::Key,
        current: CfContent { name: cf.name, pairs: Seq::empty() },
        ..before
    };
    assert(name.drop_last() =~= Seq::<Seq<u8>>::empty());
    assert(progress_after_all(before, false, region, name.drop_last()) == Some(before));
    assert(progress_after_all(before, false, region, name) == Some(opened));
    lemma_progress_append(before, false, region, name, records);
    lemma_pairs_taken(opened, false, region, cf.pairs);
    let whole = cf_records(cf);
    assert(whole.drop_last() =~= open_cf_records(cf));
    assert(whole.last() =~= Seq::<u8>::empty());
}

/// A snapshot of a region is applied to that region whole: no record of it is refused, and an
/// empty store gets the region's part of the store that the snapshot was built from, of the column
/// families that were packed and of no others.
pub proof fn law_region_is_applied_whole(
    db: Store,
    region: Region,
    cfs: Seq<CfContent>,
    records: Seq<Seq<u8>>,
)
    requires
        is_scan_of_region(db, region, cfs),
        stream_of(records) == snapshot_stream(cfs),
    ensures
        progress_after_all(start_of(false), false, region, records) matches Some(p) && p.want
            == Want::Nothing && p.applied == cfs,
        put_cfs(Map::empty(), cfs) == part_of(db, cfs, region),
{
    law_stream_determines_records(records, snapshot_records(cfs));
    let p = lemma_cfs_taken(region, db, cfs);
    assert(records.drop_last() =~= cfs_records(cfs));
    assert(records.last() =~= Seq::<u8>::empty());
    law_scans_make_the_region(db, region, cfs);
}

/// The same of one column family that has a file of records.
pub proof fn law_cf_of_region_is_applied_whole(
    db: Store,
    region: Region,
    cf: CfContent,
    records: Seq<Seq<u8>>,
)
    requires
        cf.name.len() > 0,
        is_scan(db, cf.name, region, cf.pairs),
        stream_of(records) == stream_of(pair_records(cf.pairs).push(Seq::empty())),
    ensures
        progress_after_all(start_of(true), true, region, records) matches Some(p) && p.want
            == Want::Nothing && p.current.pairs == cf.pairs,
        put_pairs(Map::empty(), cf.name, cf.pairs) == part_of(db, seq![cf], region),
{
    let whole = pair_records(cf.pairs).push(Seq::empty());
    law_stream_determines_records(records, whole);
    lemma_pairs_taken(start_of(true), true, region, cf.pairs);
    assert(records.drop_last() =~= pair_records(cf.pairs));
    assert(records.last() =~= Seq::<u8>::empty());
    let cfs = seq![cf];
    assert(is_scan_of_region(db, region, cfs)) by {
        assert forall|i: int| 0 <= i < cfs.len() implies (#[trigger] cfs[i]).name.len() > 0
            && is_scan(db, cfs[i].name, region, cfs[i].pairs) by {
            assert(cfs[i] == cf);
        }
    }
    law_scans_make_the_region(db, region, cfs);
    assert(cfs.drop_last() =~= Seq::<CfContent>::empty());
    assert(put_cfs(Map::empty(), cfs.drop_last()) == Map::<(Seq<u8>, Seq<u8>), Seq<u8>>::empty());
}

/// The whole way of a snapshot in one file, from a store where such are built to one where others
/// are: the message makes it received as such; saved as it came it is, byte for byte, the file that
/// was built, and valid; and applying it gives the region's part of the store that it was built
/// from.
pub proof fn law_single_file_round_trip(
    db: Store,
    region: Region,
    cfs: Seq<CfContent>,
    built: (v1::Snap, v1::Snap, v1::Save),
    received: (v1::Snap, v1::Snap, v1::Save),
    records: Seq<Seq<u8>>,
)
    requires
        is_scan_of_region(db, region, cfs),
        built.0.written() == snapshot_stream(cfs),
        built.1.saved_from(built.0, true, Some(built.2)),
        received.0.written() == built.0.written() + built.2.trailer@,
        received.1.saved_from(received.0, false, Some(received.2)),
        ({
            let file = received.0.written() + received.2.trailer@;
            stream_of(records) == file.take(file.len() - CRC32_BYTES_COUNT)
        }),
    ensures
        !has_cf_files(v1::SNAPSHOT_VERSION),
        received.0.written() + received.2.trailer@ == built.0.written() + built.2.trailer@,
        v1::valid_file(received.0.written() + received.2.trailer@),
        progress_after_all(start_of(false), false, region, records) matches Some(p) && p.want
            == Want::Nothing && p.applied == cfs,
        put_cfs(Map::empty(), cfs) == part_of(db, cfs, region),
{
    let stream = snapshot_stream(cfs);
    let sent = stream + be_bytes(crc32_of(stream));
    v1::law_saved_file_is_valid(stream);
    law_checksum_bytes_read_back(crc32_of(stream));
    assert(built.0.written() + built.2.trailer@ == sent);
    assert(received.0.written() + received.2.trailer@ =~= sent);
    assert(sent.take(sent.len() - CRC32_BYTES_COUNT) =~= stream);
    law_region_is_applied_whole(db, region, cfs, records);
}

} // verus!
