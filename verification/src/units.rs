use vstd::prelude::*;

verus! {

/// A length in typographic points, held in fixed-point form: `Pt(v)` stands
/// for `v / 1000` points, so one unit is a thousandth of a point.
#[derive(Clone, Copy, Debug, PartialEq, Eq, Structural)]
pub struct Pt(pub i64);

} // verus!
