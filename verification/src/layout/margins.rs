use vstd::prelude::*;
use crate::units::Pt;

verus! {

/// Margins guide layout on a page: they determine the content box of a page
/// and hence where layout functions place text. Nothing prevents content
/// placed by hand from overflowing them.
#[derive(Clone, Copy, Debug, PartialEq, Eq, Structural)]
pub struct Margins {
    pub top: Pt,
    pub right: Pt,
    pub bottom: Pt,
    pub left: Pt,
}

impl Margins {
    /// Create margins by naming each side in clockwise order starting at the
    /// top, as CSS does.
    pub fn trbl(top: Pt, right: Pt, bottom: Pt, left: Pt) -> (m: Margins)
        ensures
            m == (Margins { top, right, bottom, left }),
    {
        Margins { top, right, bottom, left }
    }

    /// Create margins where all four sides are equal.
    pub fn all(value: Pt) -> (m: Margins)
        ensures
            m == (Margins { top: value, right: value, bottom: value, left: value }),
    {
        Margins { top: value, right: value, bottom: value, left: value }
    }

    /// Create margins with one value for the vertical sides (top and bottom)
    /// and another for the horizontal sides (left and right).
    pub fn symmetric(vertical: Pt, horizontal: Pt) -> (m: Margins)
        ensures
            m == (Margins {
                top: vertical,
                right: horizontal,
                bottom: vertical,
                left: horizontal,
            }),
    {
        Margins { top: vertical, right: horizontal, bottom: vertical, left: horizontal }
    }

    /// Create margins where all four sides are zero.
    pub fn empty() -> (m: Margins)
        ensures
            m == (Margins { top: Pt(0), right: Pt(0), bottom: Pt(0), left: Pt(0) }),
    {
        Margins { top: Pt(0), right: Pt(0), bottom: Pt(0), left: Pt(0) }
    }

    /// Add a gutter to the left side, usually for even-numbered pages in
    /// bound documents.
    pub fn with_gutter_left(&self, gutter: Pt) -> (m: Margins)
        requires
            i64::MIN <= self.left.0 + gutter.0 <= i64::MAX,
        ensures
            m.top == self.top,
            m.right == self.right,
            m.bottom == self.bottom,
            m.left.0 == self.left.0 + gutter.0,
    {
        Margins {
            top: self.top,
            right: self.right,
            bottom: self.bottom,
            left: Pt(self.left.0 + gutter.0),
        }
    }

    /// Add a gutter to the right side, usually for odd-numbered pages in
    /// bound documents.
    pub fn with_gutter_right(&self, gutter: Pt) -> (m: Margins)
        requires
            i64::MIN <= self.right.0 + gutter.0 <= i64::MAX,
        ensures
            m.top == self.top,
            m.right.0 == self.right.0 + gutter.0,
            m.bottom == self.bottom,
            m.left == self.left,
    {
        Margins {
            top: self.top,
            right: Pt(self.right.0 + gutter.0),
            bottom: self.bottom,
            left: self.left,
        }
    }

    /// Add a gutter to the left side for even page indices and to the right
    /// side for odd ones.
    pub fn with_gutter(&self, gutter: Pt, page_index: usize) -> (m: Margins)
        requires
            i64::MIN <= self.left.0 + gutter.0 <= i64::MAX,
            i64::MIN <= self.right.0 + gutter.0 <= i64::MAX,
        ensures
            page_index % 2 == 0 ==> m.top == self.top && m.right == self.right && m.bottom
                == self.bottom && m.left.0 == self.left.0 + gutter.0,
            page_index % 2 != 0 ==> m.top == self.top && m.right.0 == self.right.0 + gutter.0
                && m.bottom == self.bottom && m.left == self.left,
    {
        if page_index % 2 == 0 {
            self.with_gutter_left(gutter)
        } else {
            self.with_gutter_right(gutter)
        }
    }
}

} // verus!
