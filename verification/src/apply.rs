//! Applying the records of a snapshot to a store, in batches.

use crate::codec::{law_stream_determines_records, stream_of};
use crate::error::{Error, SnapResult};
use crate::keys::{check_stored_key, stored_in_region};
use crate::records::{
    cfs_records, law_records_determine_content, lemma_pairs_unique, open_cf_records, pair_records,
    regular, regular_cf, regular_cfs, snapshot_records, snapshot_stream, CfContent, Pairs,
};
use crate::types::Region;
use std::sync::atomic::{AtomicUsize, Ordering};
use vstd::prelude::*;

verus! {

pub const JOB_STATUS_PENDING: usize = 0;

pub const JOB_STATUS_RUNNING: usize = 1;

pub const JOB_STATUS_CANCELLING: usize = 2;

/// What follows from a status: a job that is being cancelled stops, any other goes on.
pub open spec fn status_outcome(status: usize) -> SnapResult<()> {
    if status == JOB_STATUS_CANCELLING {
        Err(Error::Abort)
    } else {
        Ok(())
    }
}

/// Stops a job whose status says that it is being cancelled.
pub fn check_status(status: usize) -> (checked: SnapResult<()>)
    ensures
        checked == status_outcome(status),
{
    if status == JOB_STATUS_CANCELLING {
        return Err(Error::Abort);
    }
    Ok(())
}

/// Stops a job that is being cancelled. Another thread may change the status at any time; the
/// outcome is that of the status which a relaxed load of it gave.
pub fn check_abort(status: &AtomicUsize) -> (checked: SnapResult<()>)
    ensures
        exists|seen: usize|
            #[trigger]
            call_ensures(AtomicUsize::load, (status, Ordering::Relaxed), seen) && checked
                == status_outcome(seen),
{
    check_status(status.load(Ordering::Relaxed))
}

/// How a snapshot is applied.
pub struct ApplyOptions {
    /// The region that the snapshot is for.
    pub region: Region,
    /// How many bytes of keys and values a batch may gather before it is written.
    pub write_batch_size: usize,
}

/// How many bytes keys and values take.
pub open spec fn pairs_size(pairs: Pairs) -> nat
    decreases pairs.len(),
{
    if pairs.len() == 0 {
        0
    } else {
        pairs_size(pairs.drop_last()) + pairs.last().0.len() + pairs.last().1.len()
    }
}

/// The keys and values of batches, in order.
pub open spec fn joined(batches: Seq<Pairs>) -> Pairs
    decreases batches.len(),
{
    if batches.len() == 0 {
        Seq::empty()
    } else {
        joined(batches.drop_last()) + batches.last()
    }
}

/// Which record comes next.
#[derive(Clone, Copy, PartialEq, Eq, Debug, Structural)]
pub enum Want {
    /// The name of a column family, empty if there is none left.
    CfName,
    /// A key, empty if the column family ends.
    Key,
    /// The value of the key before.
    Value,
    /// None: everything is applied.
    Nothing,
}

/// What to do after a record.
pub enum Act {
    /// Find the column family of this name, and start an empty batch.
    OpenCf(Vec<u8>),
    /// Nothing: the key is in order.
    KeyTaken,
    /// Add this key and value to the batch, and if asked, write the batch and start an empty one.
    Put(Vec<u8>, Vec<u8>, bool),
    /// Write the batch: the column family is complete.
    EndCf,
    /// The snapshot is complete.
    End,
}

/// How far records were taken, whatever batches they were put in.
#[verifier::ext_equal]
pub struct Progress {
    /// Which record comes next.
    pub want: Want,
    /// The column families that are complete.
    pub applied: Seq<CfContent>,
    /// The column family that is being applied, or that was applied last.
    pub current: CfContent,
    /// The key whose value comes next, if one does.
    pub key: Seq<u8>,
}

/// Before the first record.
pub open spec fn start_of(single: bool) -> Progress {
    Progress {
        want: if single {
            Want::Key
        } else {
            Want::CfName
        },
        applied: Seq::empty(),
        current: CfContent { name: Seq::empty(), pairs: Seq::empty() },
        key: Seq::empty(),
    }
}

/// After one more record. `None` if it is refused, or none is wanted.
pub open spec fn progress_after(
    before: Progress,
    single: bool,
    region: Region,
    record: Seq<u8>,
) -> Option<Progress> {
    match before.want {
        Want::CfName => if record.len() == 0 {
            Some(Progress { want: Want::Nothing, ..before })
        } else {
            Some(
                Progress {
                    want: Want::Key,
                    current: CfContent { name: record, pairs: Seq::empty() },
                    ..before
                },
            )
        },
        Want::Key => if record.len() == 0 {
            if single {
                Some(Progress { want: Want::Nothing, ..before })
            } else {
                Some(
                    Progress {
                        want: Want::CfName,
                        applied: before.applied.push(before.current),
                        ..before
                    },
                )
            }
        } else if stored_in_region(record, region) {
            Some(Progress { want: Want::Value, key: record, ..before })
        } else {
            None
        },
        Want::Value => Some(
            Progress {
                want: Want::Key,
                current: CfContent {
                    name: before.current.name,
                    pairs: before.current.pairs.push((before.key, record)),
                },
                key: Seq::empty(),
                ..before
            },
        ),
        Want::Nothing => None,
    }
}

/// After some records. `None` if one of them is refused.
pub open spec fn progress_after_all(
    before: Progress,
    single: bool,
    region: Region,
    records: Seq<Seq<u8>>,
) -> Option<Progress>
    decreases records.len(),
{
    if records.len() == 0 {
        Some(before)
    } else {
        match progress_after_all(before, single, region, records.drop_last()) {
            Some(p) => progress_after(p, single, region, records.last()),
            None => None,
        }
    }
}

/// Takes the records of a snapshot one by one, and says what to do with each.
pub struct Applier {
    want: Want,
    single: bool,
    key: Vec<u8>,
    batch_size: u128,
    region: Region,
    limit: usize,
    applied: Ghost<Seq<CfContent>>,
    current: Ghost<CfContent>,
    batches: Ghost<Seq<Pairs>>,
    pending: Ghost<Pairs>,
}

impl Applier {
    /// Which record comes next.
    pub closed spec fn wanted(&self) -> Want {
        self.want
    }

    /// Whether the records are those of one column family, without its name.
    pub closed spec fn single(&self) -> bool {
        self.single
    }

    pub closed spec fn region(&self) -> Region {
        self.region
    }

    pub closed spec fn limit(&self) -> usize {
        self.limit
    }

    /// The key whose value comes next.
    pub closed spec fn key(&self) -> Seq<u8> {
        self.key@
    }

    /// The column families that are complete.
    pub closed spec fn applied(&self) -> Seq<CfContent> {
        self.applied@
    }

    /// The column family that is being applied, or that was applied last.
    pub closed spec fn current(&self) -> CfContent {
        self.current@
    }

    /// The full batches of the column family, which were written.
    pub closed spec fn batches(&self) -> Seq<Pairs> {
        self.batches@
    }

    /// The batch that is being gathered.
    pub closed spec fn pending(&self) -> Pairs {
        self.pending@
    }

    /// How far the records were taken.
    pub open spec fn progress(&self) -> Progress {
        Progress {
            want: self.wanted(),
            applied: self.applied(),
            current: self.current(),
            key: if self.wanted() == Want::Value {
                self.key()
            } else {
                Seq::empty()
            },
        }
    }

    /// The records taken so far.
    pub open spec fn taken(&self) -> Seq<Seq<u8>> {
        let open = if self.single() {
            pair_records(self.current().pairs)
        } else {
            open_cf_records(self.current())
        };
        let done = cfs_records(self.applied());
        match self.wanted() {
            Want::CfName => done,
            Want::Key => done + open,
            Want::Value => (done + open).push(self.key()),
            Want::Nothing => if self.single() {
                open.push(Seq::empty())
            } else {
                done.push(Seq::empty())
            },
        }
    }

    pub closed spec fn wf(&self) -> bool {
        &&& self.batch_size == pairs_size(self.pending@)
        &&& self.pending@.len() > 0 ==> self.batch_size < self.limit
        &&& self.current@.pairs == joined(self.batches@) + self.pending@
        &&& forall|i: int|
            0 <= i < self.batches@.len() ==> full_batch(#[trigger] self.batches@[i], self.limit)
        &&& self.want == Want::Value ==> stored_in_region(self.key@, self.region)
        &&& self.single ==> self.want != Want::CfName && self.applied@.len() == 0
        &&& !self.single ==> self.current@.name.len() > 0 || self.want == Want::CfName || self.want
            == Want::Nothing
        &&& sound(self.current@.pairs, self.region)
        &&& forall|i: int|
            0 <= i < self.applied@.len() ==> sound_cf(#[trigger] self.applied@[i], self.region)
    }

    /// For a snapshot of whole column families.
    pub fn new(options: ApplyOptions) -> (applier: Applier)
        ensures
            applier.wf(),
            !applier.single(),
            applier.wanted() == Want::CfName,
            applier.region() == options.region,
            applier.limit() == options.write_batch_size,
            applier.applied() == Seq::<CfContent>::empty(),
            applier.progress() == start_of(false),
            applier.taken() == Seq::<Seq<u8>>::empty(),
    {
        Applier {
            want: Want::CfName,
            single: false,
            key: Vec::new(),
            batch_size: 0,
            region: options.region,
            limit: options.write_batch_size,
            applied: Ghost(Seq::empty()),
            current: Ghost(CfContent { name: Seq::empty(), pairs: Seq::empty() }),
            batches: Ghost(Seq::empty()),
            pending: Ghost(Seq::empty()),
        }
    }

    /// For the keys and values of one column family.
    pub fn new_for_cf(options: ApplyOptions) -> (applier: Applier)
        ensures
            applier.wf(),
            applier.single(),
            applier.wanted() == Want::Key,
            applier.region() == options.region,
            applier.limit() == options.write_batch_size,
            applier.current().pairs == Seq::<(Seq<u8>, Seq<u8>)>::empty(),
            applier.batches() == Seq::<Pairs>::empty(),
            applier.pending() == Seq::<(Seq<u8>, Seq<u8>)>::empty(),
            applier.progress() == start_of(true),
            applier.taken() == Seq::<Seq<u8>>::empty(),
    {
        Applier {
            want: Want::Key,
            single: true,
            key: Vec::new(),
            batch_size: 0,
            region: options.region,
            limit: options.write_batch_size,
            applied: Ghost(Seq::empty()),
            current: Ghost(CfContent { name: Seq::empty(), pairs: Seq::empty() }),
            batches: Ghost(Seq::empty()),
            pending: Ghost(Seq::empty()),
        }
    }

    /// Which record to read next. The status of the job is looked at before a column family and
    /// before a key, not between a key and its value.
    pub fn next(&self, status: usize) -> (want: SnapResult<Want>)
        ensures
            want == (if status == JOB_STATUS_CANCELLING && (self.wanted() == Want::CfName
                || self.wanted() == Want::Key) {
                SnapResult::<Want>::Err(Error::Abort)
            } else {
                SnapResult::<Want>::Ok(self.wanted())
            }),
    {
        if self.want == Want::CfName || self.want == Want::Key {
            match check_status(status) {
                Ok(()) => {},
                Err(e) => {
                    return Err(e);
                },
            }
        }
        Ok(self.want)
    }

    /// Takes the name of a column family.
    pub fn take_cf(&mut self, name: Vec<u8>) -> (act: Act)
        requires
            old(self).wf(),
            old(self).wanted() == Want::CfName,
        ensures
            final(self).wf(),
            final(self).single() == old(self).single(),
            final(self).region() == old(self).region(),
            final(self).limit() == old(self).limit(),
            final(self).applied() == old(self).applied(),
            final(self).taken() == old(self).taken().push(name@),
            progress_after(old(self).progress(), old(self).single(), old(self).region(), name@)
                == Some(final(self).progress()),
            if name@.len() == 0 {
                &&& act == Act::End
                &&& final(self).wanted() == Want::Nothing
            } else {
                &&& act matches Act::OpenCf(n) && n@ == name@
                &&& final(self).wanted() == Want::Key
                &&& final(self).current() == (CfContent { name: name@, pairs: Seq::empty() })
                &&& final(self).batches() == Seq::<Pairs>::empty()
                &&& final(self).pending() == Seq::<(Seq<u8>, Seq<u8>)>::empty()
            },
    {
        if name.len() == 0 {
            self.want = Want::Nothing;
            assert(name@ =~= Seq::<u8>::empty());
            return Act::End;
        }
        self.want = Want::Key;
        self.batch_size = 0;
        proof {
            self.current@ = CfContent { name: name@, pairs: Seq::empty() };
            self.batches@ = Seq::empty();
            self.pending@ = Seq::empty();
            assert(self.taken() =~= old(self).taken().push(name@));
        }
        Act::OpenCf(name)
    }

    /// Takes a key. Refuses one outside the region.
    pub fn take_key(&mut self, key: Vec<u8>) -> (act: SnapResult<Act>)
        requires
            old(self).wf(),
            old(self).wanted() == Want::Key,
        ensures
            final(self).wf(),
            final(self).single() == old(self).single(),
            final(self).region() == old(self).region(),
            final(self).limit() == old(self).limit(),
            final(self).current() == old(self).current(),
            final(self).batches() == old(self).batches(),
            final(self).pending() == old(self).pending(),
            progress_after(old(self).progress(), old(self).single(), old(self).region(), key@) == (
            if act is Ok {
                Some(final(self).progress())
            } else {
                None
            }),
            match act {
                Ok(Act::EndCf) => {
                    &&& key@.len() == 0
                    &&& final(self).taken() == old(self).taken().push(key@)
                    &&& final(self).wanted() == (if old(self).single() {
                        Want::Nothing
                    } else {
                        Want::CfName
                    })
                    &&& final(self).applied() == (if old(self).single() {
                        old(self).applied()
                    } else {
                        old(self).applied().push(old(self).current())
                    })
                },
                Ok(Act::KeyTaken) => {
                    &&& key@.len() > 0
                    &&& stored_in_region(key@, old(self).region())
                    &&& final(self).taken() == old(self).taken().push(key@)
                    &&& final(self).wanted() == Want::Value
                    &&& final(self).key() == key@
                    &&& final(self).applied() == old(self).applied()
                },
                Ok(_) => false,
                Err(e) => {
                    &&& key@.len() > 0
                    &&& !stored_in_region(key@, old(self).region())
                    &&& e matches Error::Other(crate::error::Failure::KeyNotInRegion(k)) && k@
                        == key@
                    &&& *final(self) == *old(self)
                },
            },
    {
        if key.len() == 0 {
            assert(key@ =~= Seq::<u8>::empty());
            if self.single {
                self.want = Want::Nothing;
                assert(self.taken() =~= old(self).taken().push(key@));
            } else {
                self.want = Want::CfName;
                proof {
                    let applied = self.applied@.push(self.current@);
                    assert(applied.drop_last() =~= self.applied@);
                    self.applied@ = applied;
                    assert(self.taken() =~= old(self).taken().push(key@));
                }
            }
            return Ok(Act::EndCf);
        }
        match check_stored_key(key.as_slice(), &self.region) {
            Ok(()) => {},
            Err(e) => {
                return Err(e);
            },
        }
        self.key = key;
        self.want = Want::Value;
        Ok(Act::KeyTaken)
    }

    /// Takes the value of the key before.
    pub fn take_value(&mut self, value: Vec<u8>) -> (act: Act)
        requires
            old(self).wf(),
            old(self).wanted() == Want::Value,
        ensures
            final(self).wf(),
            final(self).single() == old(self).single(),
            final(self).region() == old(self).region(),
            final(self).limit() == old(self).limit(),
            final(self).applied() == old(self).applied(),
            final(self).wanted() == Want::Key,
            final(self).taken() == old(self).taken().push(value@),
            progress_after(old(self).progress(), old(self).single(), old(self).region(), value@)
                == Some(final(self).progress()),
            final(self).current() == (CfContent {
                name: old(self).current().name,
                pairs: old(self).current().pairs.push((old(self).key(), value@)),
            }),
            ({
                let batch = old(self).pending().push((old(self).key(), value@));
                let full = pairs_size(batch) >= old(self).limit();
                &&& act matches Act::Put(k, v, write) && k@ == old(self).key() && v@ == value@
                    && write == full
                &&& final(self).pending() == if full {
                    Seq::empty()
                } else {
                    batch
                }
                &&& final(self).batches() == if full {
                    old(self).batches().push(batch)
                } else {
                    old(self).batches()
                }
            }),
    {
        let mut key: Vec<u8> = Vec::new();
        std::mem::swap(&mut key, &mut self.key);
        let ghost pair = (key@, value@);
        let ghost batch = self.pending@.push(pair);
        self.want = Want::Key;
        assert(batch.drop_last() =~= self.pending@);
        self.batch_size = self.batch_size + key.len() as u128 + value.len() as u128;
        let full = self.batch_size >= self.limit as u128;
        proof {
            let pairs = self.current@.pairs.push(pair);
            assert(pairs.drop_last() =~= self.current@.pairs);
            self.current@ = CfContent { name: self.current@.name, pairs };
            assert(self.taken() =~= old(self).taken().push(value@));
        }
        if full {
            self.batch_size = 0;
            proof {
                let batches = self.batches@.push(batch);
                assert(batches.drop_last() =~= self.batches@);
                self.batches@ = batches;
                self.pending@ = Seq::empty();
                assert(self.current@.pairs =~= joined(batches) + self.pending@);
            }
        } else {
            proof {
                self.pending@ = batch;
                assert(self.current@.pairs =~= joined(self.batches@) + batch);
            }
        }
        Act::Put(key, value, full)
    }
}

/// A batch that was written because it was full, and only then.
pub open spec fn full_batch(batch: Pairs, limit: usize) -> bool {
    &&& batch.len() > 0
    &&& pairs_size(batch) >= limit
    &&& batch.len() > 1 ==> pairs_size(batch.drop_last()) < limit
}

/// Keys that all belong to a region.
pub open spec fn sound(pairs: Pairs, region: Region) -> bool {
    forall|i: int| 0 <= i < pairs.len() ==> stored_in_region((#[trigger] pairs[i]).0, region)
}

/// A column family with a name, whose keys all belong to a region.
pub open spec fn sound_cf(cf: CfContent, region: Region) -> bool {
    cf.name.len() > 0 && sound(cf.pairs, region)
}

/// The batches of a column family hold its keys and values, each once and in order. A batch is
/// written as soon as it is full, and not before.
pub proof fn law_batches_hold_everything(applier: Applier)
    requires
        applier.wf(),
    ensures
        applier.current().pairs == joined(applier.batches()) + applier.pending(),
        forall|i: int|
            0 <= i < applier.batches().len() ==> full_batch(
                #[trigger] applier.batches()[i],
                applier.limit(),
            ),
        applier.pending().len() > 0 ==> pairs_size(applier.pending()) < applier.limit(),
{
}

/// Nothing outside the region is ever applied.
pub proof fn law_only_keys_of_the_region(applier: Applier)
    requires
        applier.wf(),
    ensures
        sound(applier.current().pairs, applier.region()),
        forall|i: int|
            0 <= i < applier.applied().len() ==> sound_cf(
                #[trigger] applier.applied()[i],
                applier.region(),
            ),
{
}

/// Once the records of a snapshot are taken to the end, what was applied is what the snapshot
/// holds.
pub proof fn law_snapshot_is_applied_whole(applier: Applier, cfs: Seq<CfContent>)
    requires
        applier.wf(),
        !applier.single(),
        applier.wanted() == Want::Nothing,
        applier.taken() == snapshot_records(cfs),
        regular_cfs(cfs),
    ensures
        applier.applied() == cfs,
{
    assert(applier.taken() =~= snapshot_records(applier.applied()));
    assert(regular_cfs(applier.applied())) by {
        assert forall|i: int| 0 <= i < applier.applied().len() implies regular_cf(
            #[trigger] applier.applied()[i],
        ) by {
            assert(sound_cf(applier.applied()[i], applier.region()));
        }
    }
    law_records_determine_content(applier.applied(), cfs);
}

/// Once the keys and values of one column family are taken to the end, what was applied is those
/// keys and values.
pub proof fn law_cf_is_applied_whole(applier: Applier, pairs: Pairs)
    requires
        applier.wf(),
        applier.single(),
        applier.wanted() == Want::Nothing,
        applier.taken() == pair_records(pairs).push(Seq::empty()),
        regular(pairs),
    ensures
        applier.current().pairs == pairs,
{
    let mine = applier.current().pairs;
    assert(regular(mine)) by {
        assert(sound(mine, applier.region()));
    }
    let none = Seq::<Seq<u8>>::empty();
    assert(pair_records(mine).push(Seq::empty()) + none =~= pair_records(mine).push(Seq::empty()));
    assert(pair_records(pairs).push(Seq::empty()) + none =~= pair_records(pairs).push(
        Seq::empty(),
    ));
    lemma_pairs_unique(mine, none, pairs, none);
}

/// What was built is what is applied: when a snapshot is taken to the end from the bytes that
/// building it gave, the store gets the column families that went into it.
pub proof fn law_built_snapshot_is_applied(applier: Applier, cfs: Seq<CfContent>)
    requires
        applier.wf(),
        !applier.single(),
        applier.wanted() == Want::Nothing,
        stream_of(applier.taken()) == snapshot_stream(cfs),
        regular_cfs(cfs),
    ensures
        applier.applied() == cfs,
{
    law_stream_determines_records(applier.taken(), snapshot_records(cfs));
    law_snapshot_is_applied_whole(applier, cfs);
}

/// What was built is what is applied, for a column family that has a file of records.
pub proof fn law_built_cf_is_applied(applier: Applier, pairs: Pairs)
    requires
        applier.wf(),
        applier.single(),
        applier.wanted() == Want::Nothing,
        stream_of(applier.taken()) == stream_of(pair_records(pairs).push(Seq::empty())),
        regular(pairs),
    ensures
        applier.current().pairs == pairs,
{
    law_stream_determines_records(applier.taken(), pair_records(pairs).push(Seq::empty()));
    law_cf_is_applied_whole(applier, pairs);
}

/// The bytes of keys and values add up: those of two runs together are those of both, and those of
/// one pair are the bytes of its key and of its value.
pub proof fn law_sizes_add_up(a: Pairs, b: Pairs, key: Seq<u8>, value: Seq<u8>)
    ensures
        pairs_size(a + b) == pairs_size(a) + pairs_size(b),
        pairs_size(seq![(key, value)]) == key.len() + value.len(),
    decreases b.len(),
{
    let one = seq![(key, value)];
    assert(one.drop_last() =~= Seq::<(Seq<u8>, Seq<u8>)>::empty());
    assert(pairs_size(one.drop_last()) == 0);
    if b.len() == 0 {
        assert(a + b =~= a);
    } else {
        law_sizes_add_up(a, b.drop_last(), key, value);
        assert((a + b).drop_last() =~= a + b.drop_last());
    }
}

/// Joining batches keeps every pair in its order: batches joined are their parts joined, and one
/// batch joined is that batch.
pub proof fn law_joining_keeps_order(a: Seq<Pairs>, b: Seq<Pairs>, batch: Pairs)
    ensures
        joined(a + b) == joined(a) + joined(b),
        joined(seq![batch]) == batch,
    decreases b.len(),
{
    let one = seq![batch];
    assert(one.drop_last() =~= Seq::<Pairs>::empty());
    assert(joined(one.drop_last()) =~= Seq::<(Seq<u8>, Seq<u8>)>::empty());
    assert(joined(one) =~= batch);
    if b.len() == 0 {
        assert(a + b =~= a);
        assert(joined(a) + joined(b) =~= joined(a));
    } else {
        law_joining_keeps_order(a, b.drop_last(), batch);
        assert((a + b).drop_last() =~= a + b.drop_last());
        assert(joined(a + b) =~= joined(a) + joined(b));
    }
}

/// A batch is written as soon as its keys and values take as many bytes as the limit, and no later:
/// without its last pair it was below.
pub proof fn law_full_batches(batch: Pairs, limit: usize)
    requires
        full_batch(batch, limit),
    ensures
        batch.len() > 0,
        pairs_size(batch) >= limit,
        batch.len() > 1 ==> pairs_size(batch.drop_last()) < limit,
{
}

/// Only a job that is being cancelled stops.
pub proof fn law_only_cancelled_jobs_stop(status: usize)
    ensures
        status_outcome(status) is Err <==> status == JOB_STATUS_CANCELLING,
        status_outcome(status) matches Err(e) ==> e is Abort,
{
}

/// What a record does depends on which was wanted: an empty one ends what it stands in, a key
/// outside the region is refused, and a pair is complete with its value.
pub proof fn law_records_are_taken_in_turn(
    before: Progress,
    single: bool,
    region: Region,
    record: Seq<u8>,
)
    ensures
        progress_after(before, single, region, record) is None <==> before.want == Want::Nothing || (
        before.want == Want::Key && record.len() > 0 && !stored_in_region(record, region)),
        progress_after(before, single, region, record) matches Some(after) ==> {
            &&& after.want == Want::Nothing <==> record.len() == 0 && (before.want == Want::CfName
                || (single && before.want == Want::Key))
            &&& after.want == Want::Value <==> before.want == Want::Key && record.len() > 0
            &&& after.want == Want::CfName <==> !single && before.want == Want::Key && record.len()
                == 0
            &&& after.applied.len() == before.applied.len() + if after.want == Want::CfName {
                1int
            } else {
                0int
            }
            &&& after.want == Want::CfName ==> after.applied.last() == before.current
            &&& before.want == Want::Value ==> after.current.pairs.last() == (before.key, record)
                && after.current.pairs.drop_last() == before.current.pairs
            &&& before.want == Want::Key ==> after.current == before.current
            &&& before.want == Want::CfName && record.len() > 0 ==> after.current.name == record
                && after.current.pairs.len() == 0
        },
{
    if before.want == Want::Value {
        let pairs = before.current.pairs.push((before.key, record));
        assert(pairs.drop_last() =~= before.current.pairs);
    }
}

} // verus!
