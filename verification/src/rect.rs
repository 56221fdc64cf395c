use vstd::prelude::*;
use crate::units::Pt;

verus! {

/// A rectangle, specified by two opposite corners: `(x1, y1)` is the
/// lower-left corner and `(x2, y2)` the upper-right corner.
#[derive(Clone, Copy, Debug, PartialEq, Eq, Structural)]
pub struct Rect {
    /// The x-coordinate of the lower-left corner.
    pub x1: Pt,
    /// The y-coordinate of the lower-left corner.
    pub y1: Pt,
    /// The x-coordinate of the upper-right corner.
    pub x2: Pt,
    /// The y-coordinate of the upper-right corner.
    pub y2: Pt,
}

} // verus!
