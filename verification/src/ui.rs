//! Marker for the host-facing view plumbing. The machine never touches view
//! resources itself, so this type owns no data.

use vstd::prelude::*;

verus! {

/// Handle under which a host hangs its view wiring.
#[derive(Clone, Copy, PartialEq, Eq, Structural, Debug)]
pub struct Ui {}

impl Ui {
    /// A fresh, empty handle.
    pub fn new() -> (r: Ui)
        ensures
            r == (Ui {}),
    {
        Ui {}
    }
}

} // verus!
