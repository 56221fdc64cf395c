//! A mid-level library for assembling paginated documents: font metrics,
//! glyph-table encoding and text-flow layout, with the behaviour of every
//! function stated in its contract.

use vstd::prelude::*;

mod chars;
mod colour;
mod font;
pub mod glyph_table;
mod info;
pub mod layout;
mod outline;
mod page;
mod rect;
mod units;

pub use colour::Colour;
pub use font::CmapEntry;
pub use font::Font;
pub use font::FontError;
pub use font::FontMetrics;
pub use font::GlyphWidthEntry;
pub use glyph_table::WidthRun;
pub use info::Info;
pub use outline::Outline;
pub use outline::OutlineEntry;
pub use page::ImageLayout;
pub use page::Page;
pub use page::PageContents;
pub use page::SpanFont;
pub use page::SpanLayout;
pub use rect::Rect;
pub use units::Pt;

verus! {

/// A page size is a (width, height) pair in points.
pub type PageSize = (Pt, Pt);

/// Convert page sizes between portrait and landscape orientations.
pub trait PageOrientation where Self: core::marker::Sized {
    /// Returns the size in portrait orientation (width <= height).
    fn portrait(self) -> Self;

    /// Returns the size in landscape orientation (width >= height).
    fn landscape(self) -> Self;
}

impl PageOrientation for PageSize {
    fn portrait(self) -> (r: Self)
        ensures
            r.0.0 <= r.1.0,
            (r == self) || (r == (self.1, self.0)),
    {
        if self.0.0 <= self.1.0 {
            self
        } else {
            (self.1, self.0)
        }
    }

    fn landscape(self) -> (r: Self)
        ensures
            r.0.0 >= r.1.0,
            (r == self) || (r == (self.1, self.0)),
    {
        if self.0.0 >= self.1.0 {
            self
        } else {
            (self.1, self.0)
        }
    }
}

} // verus!
