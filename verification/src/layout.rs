//! Utilities to lay text out on pages: margins, baseline arithmetic and the
//! three line-breaking strategies (naive, natural and spring).

pub mod margins;
pub mod text;

pub use margins::Margins;
pub use text::baseline_start;
pub use text::layout_text_naive;
pub use text::layout_text_natural;
pub use text::layout_text_spring;
pub use text::width_of_text;
