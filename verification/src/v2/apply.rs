//! Applying a snapshot to a store.

use crate::apply::{check_status, JOB_STATUS_CANCELLING};
use crate::error::{Error, SnapResult};
use crate::text::same_text;
use crate::types::CF_LOCK;
use crate::v2::files::{CfFile, Snap};
use vstd::prelude::*;

verus! {

/// What is done with the file of a column family.
#[derive(Clone, Copy, PartialEq, Eq, Debug, Structural)]
pub enum ApplyStep {
    /// Its records are put into the store.
    Records(usize),
    /// Nothing: an empty file is no table.
    Skip(usize),
    /// The store takes it over as a table.
    Ingest(usize),
    /// There is no such file: everything is applied.
    Done,
}

pub open spec fn apply_step_of(files: Seq<CfFile>, i: usize) -> ApplyStep {
    if i >= files.len() {
        ApplyStep::Done
    } else if files[i as int].cf@ == CF_LOCK@ {
        ApplyStep::Records(i)
    } else if files[i as int].size == 0 {
        ApplyStep::Skip(i)
    } else {
        ApplyStep::Ingest(i)
    }
}

impl Snap {
    /// What to do with a file. The status of the job is looked at first.
    pub fn next_apply(&self, i: usize, status: usize) -> (step: SnapResult<ApplyStep>)
        ensures
            step == (if i < self.cf_files@.len() && status == JOB_STATUS_CANCELLING {
                SnapResult::<ApplyStep>::Err(Error::Abort)
            } else {
                SnapResult::<ApplyStep>::Ok(apply_step_of(self.cf_files@, i))
            }),
    {
        if i >= self.cf_files.len() {
            return Ok(ApplyStep::Done);
        }
        match check_status(status) {
            Ok(()) => {},
            Err(e) => {
                return Err(e);
            },
        }
        let file = &self.cf_files[i];
        if same_text(file.cf, CF_LOCK) {
            Ok(ApplyStep::Records(i))
        } else if file.size == 0 {
            Ok(ApplyStep::Skip(i))
        } else {
            Ok(ApplyStep::Ingest(i))
        }
    }
}

/// The steps for the first files, in order.
pub open spec fn steps_up_to(files: Seq<CfFile>, count: nat) -> Seq<ApplyStep> {
    Seq::new(count, |i: int| apply_step_of(files, i as usize))
}

/// Applies the files of a snapshot, one after the other.
pub struct Applying {
    index: usize,
    steps: Ghost<Seq<ApplyStep>>,
}

impl Applying {
    /// How many files were applied.
    pub closed spec fn index(&self) -> usize {
        self.index
    }

    /// What was done so far.
    pub closed spec fn steps(&self) -> Seq<ApplyStep> {
        self.steps@
    }

    /// Each file before the current one was dealt with once, in order.
    pub open spec fn wf(&self, snap: Snap) -> bool {
        &&& self.index() <= snap.cf_files@.len()
        &&& self.steps() == steps_up_to(snap.cf_files@, self.index() as nat)
    }

    pub fn new(snap: &Snap) -> (applying: Applying)
        ensures
            applying.wf(*snap),
            applying.index() == 0,
    {
        assert(steps_up_to(snap.cf_files@, 0) =~= Seq::empty());
        Applying { index: 0, steps: Ghost(Seq::empty()) }
    }

    /// What to do next. The status of the job is looked at before each file.
    pub fn next(&self, snap: &Snap, status: usize) -> (step: SnapResult<ApplyStep>)
        requires
            self.wf(*snap),
        ensures
            step == (if self.index() < snap.cf_files@.len() && status == JOB_STATUS_CANCELLING {
                SnapResult::<ApplyStep>::Err(Error::Abort)
            } else {
                SnapResult::<ApplyStep>::Ok(apply_step_of(snap.cf_files@, self.index()))
            }),
            step == SnapResult::<ApplyStep>::Ok(ApplyStep::Done) <==> self.index()
                == snap.cf_files@.len(),
    {
        snap.next_apply(self.index, status)
    }

    /// The file was dealt with.
    pub fn done(&mut self, snap: &Snap)
        requires
            old(self).wf(*snap),
            old(self).index() < snap.cf_files@.len(),
        ensures
            final(self).wf(*snap),
            final(self).index() == old(self).index() + 1,
            final(self).steps() == old(self).steps().push(
                apply_step_of(snap.cf_files@, old(self).index()),
            ),
    {
        assert(self.index < snap.cf_files.len());
        proof {
            self.steps@ = self.steps@.push(apply_step_of(snap.cf_files@, self.index));
        }
        self.index = self.index + 1;
        assert(self.steps() =~= steps_up_to(snap.cf_files@, self.index as nat));
    }
}

/// Once there is nothing left to do, every file was dealt with, once and in order.
pub proof fn law_every_file_is_applied(applying: Applying, snap: Snap)
    requires
        applying.wf(snap),
        apply_step_of(snap.cf_files@, applying.index()) == ApplyStep::Done,
    ensures
        applying.steps() == steps_up_to(snap.cf_files@, snap.cf_files@.len()),
{
}

/// The file that a step is about.
pub open spec fn named_file(step: ApplyStep) -> Option<usize> {
    match step {
        ApplyStep::Records(i) => Some(i),
        ApplyStep::Skip(i) => Some(i),
        ApplyStep::Ingest(i) => Some(i),
        ApplyStep::Done => None,
    }
}

/// The step at a place is about the file at that place. Locks are records, another file that is not
/// empty is taken over itself, and only an empty one is skipped.
pub proof fn law_step_is_about_its_file(files: Seq<CfFile>, i: usize)
    ensures
        named_file(apply_step_of(files, i)) == (if i < files.len() {
            Some(i)
        } else {
            None
        }),
        i < files.len() ==> {
            let step = apply_step_of(files, i);
            let file = files[i as int];
            &&& step is Records <==> file.cf@ == "lock"@
            &&& step is Ingest <==> file.cf@ != "lock"@ && file.size > 0
            &&& step is Skip <==> file.cf@ != "lock"@ && file.size == 0
        },
{
}

/// Going through the files takes one step for each, which is about that file: none is left out, and
/// none comes twice.
pub proof fn law_one_step_for_each_file(snap: Snap, count: nat)
    requires
        count <= snap.cf_files@.len(),
    ensures
        ({
            let steps = steps_up_to(snap.cf_files@, count);
            &&& steps.len() == count
            &&& forall|i: int|
                0 <= i < count ==> named_file(#[trigger] steps[i]) == Some(i as usize)
            &&& forall|i: int, j: int|
                0 <= i < j < count ==> named_file(#[trigger] steps[i]) != named_file(
                    #[trigger] steps[j],
                )
        }),
{
    assert(snap.cf_files.len() == snap.cf_files@.len());
    let steps = steps_up_to(snap.cf_files@, count);
    assert forall|i: int| 0 <= i < count implies named_file(#[trigger] steps[i]) == Some(
        i as usize,
    ) by {
        law_step_is_about_its_file(snap.cf_files@, i as usize);
    }
}

} // verus!
