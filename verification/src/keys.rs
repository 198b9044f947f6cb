//! Keys in the store, and the keys that a region spans.

use crate::error::{Error, Failure, SnapResult};
use crate::types::Region;
use vstd::prelude::*;
use vstd::slice::{slice_subrange, slice_to_vec};

verus! {

/// The first byte of every data key in the store.
pub const DATA_PREFIX: u8 = 0x7a;

/// Whether one byte string stands before another in the dictionary.
pub open spec fn lex_less(a: Seq<u8>, b: Seq<u8>) -> bool
    decreases a.len(),
{
    if b.len() == 0 {
        false
    } else if a.len() == 0 {
        true
    } else {
        a[0] < b[0] || (a[0] == b[0] && lex_less(a.drop_first(), b.drop_first()))
    }
}

/// A key as the store holds it.
pub open spec fn stored_key(key: Seq<u8>) -> Seq<u8> {
    seq![DATA_PREFIX] + key
}

/// Where the stored keys of a region begin.
pub open spec fn stored_start(region: Region) -> Seq<u8> {
    stored_key(region.start_key@)
}

/// Where the stored keys of a region end: before the end key, or after all data keys where the
/// region has no upper bound.
pub open spec fn stored_end(region: Region) -> Seq<u8> {
    if region.end_key@.len() == 0 {
        seq![(DATA_PREFIX + 1) as u8]
    } else {
        stored_key(region.end_key@)
    }
}

/// Whether a region spans a key.
pub open spec fn in_region(key: Seq<u8>, region: Region) -> bool {
    &&& !lex_less(key, region.start_key@)
    &&& region.end_key@.len() == 0 || lex_less(key, region.end_key@)
}

/// Whether a stored key is a data key of a region.
pub open spec fn stored_in_region(key: Seq<u8>, region: Region) -> bool {
    &&& key.len() > 0
    &&& key[0] == DATA_PREFIX
    &&& in_region(key.drop_first(), region)
}

/// Whether one byte string stands before another in the dictionary.
pub fn less(a: &[u8], b: &[u8]) -> (yes: bool)
    ensures
        yes == lex_less(a@, b@),
{
    let mut i: usize = 0;
    assert(a@.skip(0) =~= a@);
    assert(b@.skip(0) =~= b@);
    while i < a.len() && i < b.len()
        invariant
            i <= a@.len(),
            i <= b@.len(),
            lex_less(a@, b@) == lex_less(a@.skip(i as int), b@.skip(i as int)),
        decreases a@.len() - i,
    {
        if a[i] < b[i] {
            return true;
        }
        if a[i] > b[i] {
            return false;
        }
        assert(a@.skip(i as int).drop_first() =~= a@.skip(i + 1));
        assert(b@.skip(i as int).drop_first() =~= b@.skip(i + 1));
        i = i + 1;
    }
    i < b.len()
}

/// A key as the store holds it.
pub fn data_key(key: &[u8]) -> (stored: Vec<u8>)
    ensures
        stored@ == stored_key(key@),
{
    let mut out: Vec<u8> = Vec::new();
    out.push(DATA_PREFIX);
    out.extend_from_slice(key);
    assert(out@ =~= stored_key(key@));
    out
}

/// Where the stored keys of a region begin.
pub fn enc_start_key(region: &Region) -> (stored: Vec<u8>)
    ensures
        stored@ == stored_start(*region),
{
    data_key(region.start_key.as_slice())
}

/// Where the stored keys of a region end.
pub fn enc_end_key(region: &Region) -> (stored: Vec<u8>)
    ensures
        stored@ == stored_end(*region),
{
    if region.end_key.len() == 0 {
        let mut out: Vec<u8> = Vec::new();
        out.push(DATA_PREFIX + 1);
        assert(out@ =~= stored_end(*region));
        out
    } else {
        data_key(region.end_key.as_slice())
    }
}

/// Refuses a stored key that is no data key of the region.
pub fn check_stored_key(key: &[u8], region: &Region) -> (checked: SnapResult<()>)
    ensures
        match checked {
            Ok(()) => stored_in_region(key@, *region),
            Err(e) => {
                &&& !stored_in_region(key@, *region)
                &&& e matches Error::Other(Failure::KeyNotInRegion(k)) && k@ == key@
            },
        },
{
    if key.len() > 0 && key[0] == DATA_PREFIX {
        let origin = slice_subrange(key, 1, key.len());
        assert(origin@ =~= key@.drop_first());
        if !less(origin, region.start_key.as_slice()) && (region.end_key.len() == 0 || less(
            origin,
            region.end_key.as_slice(),
        )) {
            return Ok(());
        }
    }
    Err(Error::Other(Failure::KeyNotInRegion(slice_to_vec(key))))
}

/// What is stored between a region's first and last key belongs to the region: a snapshot of a
/// region holds no key that applying the snapshot to that region would refuse.
pub proof fn law_scanned_keys_are_in_region(key: Seq<u8>, region: Region)
    requires
        !lex_less(key, stored_start(region)),
        lex_less(key, stored_end(region)),
    ensures
        stored_in_region(key, region),
{
    let start = stored_start(region);
    let end = stored_end(region);
    assert(start.drop_first() =~= region.start_key@);
    if region.end_key@.len() > 0 {
        assert(end.drop_first() =~= region.end_key@);
    } else {
        assert(end.drop_first() =~= Seq::<u8>::empty());
        assert(!lex_less(key.drop_first(), end.drop_first()));
    }
}

/// Byte strings are ordered as in a dictionary: one stands before another exactly where they agree
/// up to some place, and there it ends or has the smaller byte.
pub proof fn law_dictionary_order(a: Seq<u8>, b: Seq<u8>)
    ensures
        lex_less(a, b) <==> exists|n: int| #[trigger] first_difference(a, b, n),
    decreases a.len(),
{
    if b.len() == 0 {
    } else if a.len() == 0 {
        assert(first_difference(a, b, 0));
    } else {
        let (x, y) = (a.drop_first(), b.drop_first());
        law_dictionary_order(x, y);
        if lex_less(a, b) {
            if a[0] < b[0] {
                assert(first_difference(a, b, 0));
            } else {
                let n = choose|n: int| #[trigger] first_difference(x, y, n);
                assert forall|i: int| 0 <= i < n + 1 implies #[trigger] a[i] == b[i] by {
                    if i > 0 {
                        assert(x[i - 1] == y[i - 1]);
                    }
                }
                assert(first_difference(a, b, n + 1));
            }
        }
        if exists|n: int| #[trigger] first_difference(a, b, n) {
            let n = choose|n: int| #[trigger] first_difference(a, b, n);
            if n > 0 {
                assert(a[0] == b[0]);
                assert forall|i: int| 0 <= i < n - 1 implies #[trigger] x[i] == y[i] by {
                    assert(a[i + 1] == b[i + 1]);
                }
                assert(first_difference(x, y, n - 1));
            }
        }
    }
}

/// Two byte strings agree up to a place, at which the first ends or has the smaller byte.
pub open spec fn first_difference(a: Seq<u8>, b: Seq<u8>, n: int) -> bool {
    &&& 0 <= n <= a.len()
    &&& n < b.len()
    &&& forall|i: int| 0 <= i < n ==> #[trigger] a[i] == b[i]
    &&& n == a.len() || a[n] < b[n]
}

/// Every data key of a region is scanned, and nothing else is: a stored key stands between where
/// the scan of a region begins and where it ends exactly if it is the data prefix before a key that
/// is not before the region's first key, and is before its end key unless there is none.
pub proof fn law_scan_is_the_region(key: Seq<u8>, region: Region)
    ensures
        !lex_less(key, stored_start(region)) && lex_less(key, stored_end(region)) <==> {
            &&& key.len() > 0
            &&& key[0] == 0x7a
            &&& !lex_less(key.skip(1), region.start_key@)
            &&& region.end_key@.len() == 0 || lex_less(key.skip(1), region.end_key@)
        },
{
    let start = stored_start(region);
    let end = stored_end(region);
    assert(start.drop_first() =~= region.start_key@);
    if key.len() > 0 {
        assert(key.skip(1) =~= key.drop_first());
    }
    if region.end_key@.len() > 0 {
        assert(end.drop_first() =~= region.end_key@);
    } else {
        assert(end.drop_first() =~= Seq::<u8>::empty());
        assert(key.len() > 0 ==> !lex_less(key.drop_first(), end.drop_first()));
    }
}

/// The keys that applying accepts are those that a scan of the region gives.
pub proof fn law_accepted_keys_are_scanned(key: Seq<u8>, region: Region)
    ensures
        stored_in_region(key, region) <==> !lex_less(key, stored_start(region)) && lex_less(
            key,
            stored_end(region),
        ),
{
    law_scan_is_the_region(key, region);
    if key.len() > 0 {
        assert(key.skip(1) =~= key.drop_first());
    }
}

/// Storing keys keeps their order, and a stored key gives its key back.
pub proof fn law_storing_keeps_order(a: Seq<u8>, b: Seq<u8>)
    ensures
        stored_key(a).len() == a.len() + 1,
        stored_key(a).skip(1) == a,
        stored_key(a)[0] == 0x7a,
        lex_less(stored_key(a), stored_key(b)) == lex_less(a, b),
{
    assert(stored_key(a).skip(1) =~= a);
    assert(stored_key(a).drop_first() =~= a);
    assert(stored_key(b).drop_first() =~= b);
}

} // verus!
