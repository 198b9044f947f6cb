//! What building a snapshot starts from.

use vstd::prelude::*;

verus! {

/// What building does with what is already there.
#[derive(Clone, Copy, PartialEq, Eq, Debug, Structural)]
pub enum BuildStart {
    /// The snapshot is there and valid: nothing to build.
    Reuse,
    /// The snapshot is there but not valid: delete it, start writing again, then build.
    Rebuild,
    /// There is none: build.
    Fresh,
}

/// Decides what building does. Whether it is valid only matters if it exists.
pub fn start_build(present: bool, valid: bool) -> (start: BuildStart)
    ensures
        start == (if !present {
            BuildStart::Fresh
        } else if valid {
            BuildStart::Reuse
        } else {
            BuildStart::Rebuild
        }),
{
    if !present {
        BuildStart::Fresh
    } else if valid {
        BuildStart::Reuse
    } else {
        BuildStart::Rebuild
    }
}

} // verus!
