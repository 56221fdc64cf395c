use vstd::prelude::*;
use crate::colour::Colour;
use crate::layout::margins::Margins;
use crate::rect::Rect;
use crate::units::Pt;
use crate::PageSize;

verus! {

/// What font to use for a given span of text.
#[derive(Clone, Copy, Debug, PartialEq, Eq, Structural)]
pub struct SpanFont {
    /// The index of the font within the document's font list.
    pub id: usize,
    /// The size of the text.
    pub size: Pt,
}

/// A section of text to be laid out onto a page.
#[derive(Debug)]
pub struct SpanLayout {
    /// The actual text to print on the page.
    pub text: String,
    /// What font should be used to print the text.
    pub font: SpanFont,
    /// The colour of the span of text.
    pub colour: Colour,
    /// Where the text starts on the page, measured from the bottom-left
    /// corner of the page to the horizontal beginning and baseline of the text.
    pub coords: (Pt, Pt),
}

/// An image to be laid out onto a page.
#[derive(Clone, Debug)]
pub struct ImageLayout {
    /// The index of the image within the document's image list.
    pub image_index: usize,
    /// Where the image goes on the page, relative to the bottom-left corner.
    pub position: Rect,
}

/// The kinds of content that can be placed on a page.
#[derive(Debug)]
pub enum PageContents {
    /// A block of text, broken into spans.
    Text(Vec<SpanLayout>),
    /// An image.
    Image(ImageLayout),
    /// Raw, uncompressed page-description commands.
    RawContent(Vec<u8>),
}

/// A page: a bounded canvas that receives placed runs, images and raw
/// drawing commands in layering order. The page does not serialize itself;
/// a writer outside this library turns its contents into the output format.
#[derive(Debug)]
pub struct Page {
    /// The size of the page.
    pub media_box: Rect,
    /// Where content may live, i.e. the page size inset by the margins.
    pub content_box: Rect,
    /// The contents placed so far, in layering order.
    pub contents: Vec<PageContents>,
}

impl Page {
    /// Create a new page of the given size. The margins, when given,
    /// determine the content box; without them the content box is the
    /// whole page.
    pub fn new(size: PageSize, margins: Option<Margins>) -> (p: Page)
        requires
            i64::MIN <= size.0.0 - margin_or_zero(margins).right.0 <= i64::MAX,
            i64::MIN <= size.1.0 - margin_or_zero(margins).top.0 <= i64::MAX,
        ensures
            p.media_box == (Rect { x1: Pt(0), y1: Pt(0), x2: size.0, y2: size.1 }),
            p.content_box.x1 == margin_or_zero(margins).left,
            p.content_box.y1 == margin_or_zero(margins).bottom,
            p.content_box.x2.0 == size.0.0 - margin_or_zero(margins).right.0,
            p.content_box.y2.0 == size.1.0 - margin_or_zero(margins).top.0,
            p.contents@.len() == 0,
    {
        let (width, height) = size;
        let margins = match margins {
            Some(m) => m,
            None => Margins::empty(),
        };
        Page {
            media_box: Rect { x1: Pt(0), y1: Pt(0), x2: width, y2: height },
            content_box: Rect {
                x1: margins.left,
                y1: margins.bottom,
                x2: Pt(width.0 - margins.right.0),
                y2: Pt(height.0 - margins.top.0),
            },
            contents: Vec::new(),
        }
    }

    /// Add a span of text to the page, in the layering order that it was added.
    pub fn add_span(&mut self, span: SpanLayout)
        ensures
            final(self).media_box == old(self).media_box,
            final(self).content_box == old(self).content_box,
            final(self).contents@.len() == old(self).contents@.len() + 1,
            forall|i: int|
                0 <= i < old(self).contents@.len() ==> final(self).contents@[i]
                    == old(self).contents@[i],
            span_content(final(self).contents@.last(), span),
    {
        let v = vec![span];
        self.contents.push(PageContents::Text(v));
    }

    /// Add an image to the page, in the layering order that it was added.
    pub fn add_image(&mut self, image: ImageLayout)
        ensures
            final(self).media_box == old(self).media_box,
            final(self).content_box == old(self).content_box,
            final(self).contents@.len() == old(self).contents@.len() + 1,
            forall|i: int|
                0 <= i < old(self).contents@.len() ==> final(self).contents@[i]
                    == old(self).contents@[i],
            final(self).contents@.last() matches PageContents::Image(im)
                && im.image_index == image.image_index && im.position == image.position,
    {
        self.contents.push(PageContents::Image(image));
    }

    /// Add raw page-description commands to the page. The bytes must be
    /// uncompressed; the writer compresses the whole content stream at once.
    pub fn add_raw_content(&mut self, content: Vec<u8>)
        ensures
            final(self).media_box == old(self).media_box,
            final(self).content_box == old(self).content_box,
            final(self).contents@.len() == old(self).contents@.len() + 1,
            forall|i: int|
                0 <= i < old(self).contents@.len() ==> final(self).contents@[i]
                    == old(self).contents@[i],
            final(self).contents@.last() matches PageContents::RawContent(b) && b@ == content@,
    {
        self.contents.push(PageContents::RawContent(content));
    }
}

/// The margins used by `Page::new`: the given ones, or zero margins when absent.
pub open spec fn margin_or_zero(margins: Option<Margins>) -> Margins {
    match margins {
        Some(m) => m,
        None => Margins { top: Pt(0), right: Pt(0), bottom: Pt(0), left: Pt(0) },
    }
}

/// Holds when a page-content entry is a text block holding exactly the given span.
pub open spec fn span_content(c: PageContents, span: SpanLayout) -> bool {
    c matches PageContents::Text(v) && v@.len() == 1 && v@[0].text@ == span.text@ && v@[0].font
        == span.font && v@[0].colour == span.colour && v@[0].coords == span.coords
}

} // verus!
