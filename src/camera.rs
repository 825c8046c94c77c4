//! How much of an object the camera sees.
use vstd::prelude::*;

verus! {

/// How visible an object is to the camera.
#[derive(Clone, Copy, Debug, PartialEq, Eq, Structural)]
pub enum Visibility {
    /// The object cannot be seen at all.
    Zero,
    /// The object can be partly seen.
    Partial,
    /// The object is completely on camera.
    Full,
}

impl Visibility {
    /// The visibility of an object from the corners tested against the view:
    /// `hit` when at least one was seen, `missed` when at least one was not.
    pub fn from_corners(hit: bool, missed: bool) -> (r: Visibility)
        requires
            hit || missed,
        ensures
            !hit ==> r == Visibility::Zero,
            hit && missed ==> r == Visibility::Partial,
            !missed ==> r == Visibility::Full,
    {
        if !hit {
            Visibility::Zero
        } else if missed {
            Visibility::Partial
        } else {
            Visibility::Full
        }
    }
}

} // verus!
