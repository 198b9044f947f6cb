//! The approximate size of all snapshots on disk.

use vstd::prelude::*;

verus! {

/// The sum of the sizes of the snapshots on disk. It is kept within bounds rather than exact.
pub struct SizeTrack {
    pub total: u64,
}

/// The tracked size after a snapshot was saved.
pub open spec fn size_after_save(total: u64, size: u64) -> u64 {
    if total + size <= u64::MAX {
        (total + size) as u64
    } else {
        u64::MAX
    }
}

/// The tracked size after a snapshot was deleted.
pub open spec fn size_after_delete(total: u64, size: u64) -> u64 {
    if size <= total {
        (total - size) as u64
    } else {
        0
    }
}

impl SizeTrack {
    pub fn new() -> (track: SizeTrack)
        ensures
            track.total == 0,
    {
        SizeTrack { total: 0 }
    }

    /// A file of this size was found at start-up.
    pub fn found(&mut self, size: u64)
        requires
            old(self).total + size <= u64::MAX,
        ensures
            final(self).total == old(self).total + size,
    {
        self.total = self.total + size;
    }

    /// A snapshot of this size was saved.
    pub fn saved(&mut self, size: u64)
        ensures
            final(self).total == size_after_save(old(self).total, size),
    {
        self.total = self.total.saturating_add(size);
    }

    /// A snapshot of this size was deleted.
    pub fn deleted(&mut self, size: u64)
        ensures
            final(self).total == size_after_delete(old(self).total, size),
    {
        self.total = self.total.saturating_sub(size);
    }
}

/// Deleting what was saved brings the tracked size back, unless the sum went over its limit.
pub proof fn law_delete_undoes_save(total: u64, size: u64)
    requires
        total + size <= u64::MAX,
    ensures
        size_after_delete(size_after_save(total, size), size) == total,
{
}

/// Two snapshots can be saved in either order.
pub proof fn law_saves_commute(total: u64, one: u64, other: u64)
    ensures
        size_after_save(size_after_save(total, one), other) == size_after_save(
            size_after_save(total, other),
            one,
        ),
{
}

/// The tracked size never passes its limits: saving adds the whole size, or stops at the largest
/// that can be told; deleting takes the whole size away, or stops at nothing.
pub proof fn law_size_stays_within_limits(total: u64, size: u64)
    ensures
        size_after_save(total, size) >= total,
        size_after_save(total, size) >= size,
        size_after_save(total, size) == total + size || (size_after_save(total, size) == u64::MAX
            && total + size > u64::MAX),
        size_after_delete(total, size) <= total,
        size_after_delete(total, size) + size == total || (size_after_delete(total, size) == 0
            && size > total),
{
}

} // verus!
