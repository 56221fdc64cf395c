use pdf_gen::layout::layout_text_naive;
use pdf_gen::layout::layout_text_natural;
use pdf_gen::layout::layout_text_spring;
use pdf_gen::layout::Margins;
use pdf_gen::CmapEntry;
use pdf_gen::Colour;
use pdf_gen::FontMetrics;
use pdf_gen::GlyphWidthEntry;
use pdf_gen::Page;
use pdf_gen::PageContents;
use pdf_gen::Pt;
use pdf_gen::Rect;
use pdf_gen::SpanFont;

/// A simple monospaced test font: 1000 units per em, ascender 800,
/// descender -200, no line gap, 500-unit advances for the ASCII printables.
fn mono_font() -> FontMetrics {
    let mut cmap = Vec::new();
    let mut glyphs = Vec::new();
    let mut gid: u16 = 1;
    let mut cp = ' ' as u32;
    while cp <= '~' as u32 {
        let c = char::from_u32(cp).unwrap();
        cmap.push(CmapEntry { cp: c, gid, advance: 500 });
        glyphs.push(GlyphWidthEntry { gid, cp: c, advance: 500, height: 900 });
        gid += 1;
        cp += 1;
    }
    FontMetrics {
        units_per_em: 1000,
        ascender: 800,
        descender: -200,
        line_gap: 0,
        cmap,
        glyphs,
    }
}

fn big_page() -> Page {
    // a tall page whose content box is 6 glyphs (at 10 pt mono) plus a hair wide
    Page::new(
        (Pt(30_001), Pt(1_000_000)),
        Some(Margins::empty()),
    )
}

fn spans_of(page: &Page) -> Vec<(String, i64, i64)> {
    let mut out = Vec::new();
    for c in page.contents.iter() {
        match c {
            PageContents::Text(v) => {
                for s in v.iter() {
                    out.push((s.text.clone(), s.coords.0 .0, s.coords.1 .0));
                }
            }
            _ => panic!("only text content expected"),
        }
    }
    out
}

fn size10() -> Pt {
    Pt(10_000) // 10 pt: each glyph advances 5000
}

#[test]
fn naive_splits_words_at_the_column() {
    let fonts = vec![mono_font()];
    let mut page = big_page();
    let mut text = vec![(
        "aaaa bbbb".to_string(),
        Colour::Grey { g: 0 },
        SpanFont { id: 0, size: size10() },
    )];
    let stop = layout_text_naive(&fonts, &mut page, (Pt(0), Pt(100_000)), &mut text, Pt(0), page_box());
    assert!(text.is_empty());
    let spans = spans_of(&page);
    assert_eq!(spans.len(), 2);
    // the naive breaker splits "bbbb" exactly at the column
    assert_eq!(spans[0], ("aaaa b".to_string(), 0, 100_000));
    assert_eq!(spans[1], ("bbb".to_string(), 0, 90_000)); // one line height (10 pt) down
    assert_eq!(stop, (Pt(15_000), Pt(90_000)));
}

fn page_box() -> Rect {
    Rect { x1: Pt(0), y1: Pt(0), x2: Pt(30_001), y2: Pt(1_000_000) }
}

#[test]
fn natural_keeps_words_whole() {
    let fonts = vec![mono_font()];
    let mut page = big_page();
    let mut text = vec![(
        "aaaa bbbb".to_string(),
        Colour::Grey { g: 0 },
        SpanFont { id: 0, size: size10() },
    )];
    layout_text_natural(&fonts, &mut page, (Pt(0), Pt(100_000)), &mut text, Pt(0), page_box());
    assert!(text.is_empty());
    let spans = spans_of(&page);
    assert_eq!(spans.len(), 2);
    // the look-back rewinds to the space: "bbbb" is never split,
    // unlike the naive breaker on the same input and box
    assert_eq!(spans[0], ("aaaa ".to_string(), 0, 100_000));
    assert_eq!(spans[1], ("bbbb".to_string(), 0, 90_000));
}

#[test]
fn natural_falls_back_to_character_break() {
    let fonts = vec![mono_font()];
    let mut page = big_page();
    let mut text = vec![(
        "aaaaaaaa".to_string(),
        Colour::Grey { g: 0 },
        SpanFont { id: 0, size: size10() },
    )];
    layout_text_natural(&fonts, &mut page, (Pt(0), Pt(100_000)), &mut text, Pt(0), page_box());
    let spans = spans_of(&page);
    // a single token wider than the line is split at the column
    assert_eq!(spans.len(), 2);
    assert_eq!(spans[0].0, "aaaaaa");
    assert_eq!(spans[1].0, "aa");
}

#[test]
fn newline_starts_a_new_line_without_indent() {
    let fonts = vec![mono_font()];
    let mut page = big_page();
    let mut text = vec![(
        "ab\ncd".to_string(),
        Colour::Grey { g: 0 },
        SpanFont { id: 0, size: size10() },
    )];
    layout_text_naive(&fonts, &mut page, (Pt(0), Pt(100_000)), &mut text, Pt(2_000), page_box());
    let spans = spans_of(&page);
    assert_eq!(spans.len(), 2);
    assert_eq!(spans[0], ("ab".to_string(), 0, 100_000));
    // explicit newlines return to the start, ignoring the wrap offset
    assert_eq!(spans[1], ("cd".to_string(), 0, 90_000));
}

#[test]
fn tabs_expand_to_four_spaces() {
    let fonts = vec![mono_font()];
    let mut page = Page::new((Pt(1_000_000), Pt(1_000_000)), None);
    let bbox = Rect { x1: Pt(0), y1: Pt(0), x2: Pt(1_000_000), y2: Pt(1_000_000) };
    let mut text = vec![(
        "a\tb".to_string(),
        Colour::Grey { g: 0 },
        SpanFont { id: 0, size: size10() },
    )];
    layout_text_naive(&fonts, &mut page, (Pt(0), Pt(100_000)), &mut text, Pt(0), bbox);
    let spans = spans_of(&page);
    assert_eq!(spans.len(), 1);
    assert_eq!(spans[0].0, "a    b");
}

#[test]
fn vertical_overflow_returns_leftover() {
    let fonts = vec![mono_font()];
    // room for exactly two lines: baseline starts at 15000; one wrap keeps
    // y = 5000 >= bottom = 0 + (-2000); a second would reach -5000 < -2000
    let mut page = Page::new((Pt(30_001), Pt(20_000)), None);
    let bbox = Rect { x1: Pt(0), y1: Pt(0), x2: Pt(30_001), y2: Pt(20_000) };
    let mut text = vec![(
        "aaaaaa".repeat(3),
        Colour::Grey { g: 0 },
        SpanFont { id: 0, size: size10() },
    )];
    layout_text_naive(&fonts, &mut page, (Pt(0), Pt(15_000)), &mut text, Pt(0), bbox);
    let spans = spans_of(&page);
    assert_eq!(spans.len(), 2);
    assert_eq!(spans[0].0, "aaaaaa");
    assert_eq!(spans[1].0, "aaaaaa");
    // the unconsumed remainder came back in the queue
    assert_eq!(text.len(), 1);
    assert_eq!(text[0].0, "aaaaaa");
}

#[test]
fn relayout_of_leftover_matches_single_run() {
    // lay the text out; when it overflows, lay the leftover out on a fresh
    // page of identical dimensions: the runs carry on at the same character
    let fonts = vec![mono_font()];
    let mut page1 = Page::new((Pt(30_001), Pt(20_000)), None);
    let bbox = Rect { x1: Pt(0), y1: Pt(0), x2: Pt(30_001), y2: Pt(20_000) };
    let whole = "aaaaaabbbbbbccccccdddddd".to_string();
    let mut text = vec![(whole.clone(), Colour::Grey { g: 0 }, SpanFont { id: 0, size: size10() })];
    layout_text_naive(&fonts, &mut page1, (Pt(0), Pt(15_000)), &mut text, Pt(0), bbox);
    let mut page2 = Page::new((Pt(30_001), Pt(20_000)), None);
    layout_text_naive(&fonts, &mut page2, (Pt(0), Pt(15_000)), &mut text, Pt(0), bbox);
    assert!(text.is_empty());
    let all: Vec<String> = spans_of(&page1)
        .into_iter()
        .chain(spans_of(&page2).into_iter())
        .map(|(t, _, _)| t)
        .collect();
    // byte-identical runs, split at the same characters as one long run
    assert_eq!(all, vec!["aaaaaa", "bbbbbb", "cccccc", "dddddd"]);
    assert_eq!(all.concat(), whole);
}

#[test]
fn chunk_boundary_is_a_break_opportunity() {
    let fonts = vec![mono_font()];
    let mut page = big_page();
    // two chunks on one line; the second overflows mid-word, and the
    // natural breaker breaks at the chunk boundary rather than mid-token
    let mut text = vec![
        ("aaa".to_string(), Colour::Grey { g: 0 }, SpanFont { id: 0, size: size10() }),
        ("bbbb".to_string(), Colour::Grey { g: 255 }, SpanFont { id: 0, size: size10() }),
    ];
    layout_text_natural(&fonts, &mut page, (Pt(0), Pt(100_000)), &mut text, Pt(0), page_box());
    let spans = spans_of(&page);
    assert_eq!(spans.len(), 2);
    assert_eq!(spans[0], ("aaa".to_string(), 0, 100_000));
    assert_eq!(spans[1], ("bbbb".to_string(), 0, 90_000));
}

#[test]
fn spring_justifies_lines_exactly() {
    let fonts = vec![mono_font()];
    let mut page = big_page();
    // "aa" and "bb" are 10000 each; the spare 10001 goes into the one gap
    layout_text_spring(&fonts, &mut page, 0, size10(), "aa bb", page_box());
    let spans = spans_of(&page);
    assert_eq!(spans.len(), 2);
    let y = 1_000_000 - 8_000; // top of the box minus the ascent
    assert_eq!(spans[0], ("aa".to_string(), 0, y));
    assert_eq!(spans[1], ("bb".to_string(), 20_001, y));
    // word widths plus the gap reproduce the line width exactly
    assert_eq!(10_000 + 10_001 + 10_000, 30_001);
}

#[test]
fn spring_single_word_line_computes_no_spacing() {
    let fonts = vec![mono_font()];
    let mut page = big_page();
    layout_text_spring(&fonts, &mut page, 0, size10(), "aaaa", page_box());
    let spans = spans_of(&page);
    assert_eq!(spans.len(), 1);
    // flush left, no spacing term, no division by zero
    assert_eq!(spans[0], ("aaaa".to_string(), 0, 1_000_000 - 8_000));
}

#[test]
fn spring_emits_an_overwide_word_alone() {
    let fonts = vec![mono_font()];
    let mut page = big_page();
    layout_text_spring(&fonts, &mut page, 0, size10(), "aaaaaaaa bb", page_box());
    let spans = spans_of(&page);
    assert_eq!(spans.len(), 2);
    assert_eq!(spans[0], ("aaaaaaaa".to_string(), 0, 992_000));
    assert_eq!(spans[1], ("bb".to_string(), 0, 984_000));
}

#[test]
fn spring_squeezes_spaces_down_to_four_fifths() {
    let fonts = vec![mono_font()];
    let mut page = Page::new((Pt(24_500), Pt(1_000_000)), None);
    let bbox = Rect { x1: Pt(0), y1: Pt(0), x2: Pt(24_500), y2: Pt(1_000_000) };
    // "aa bb" wants 10000 + 5000 + 10000 = 25000 > 24500, but squeezing the
    // space to 4000 gives 24000 <= 24500, so both words stay on the line
    layout_text_spring(&fonts, &mut page, 0, size10(), "aa bb", bbox);
    let spans = spans_of(&page);
    assert_eq!(spans.len(), 2);
    assert_eq!(spans[0].0, "aa");
    assert_eq!(spans[1].0, "bb");
    assert_eq!(spans[0].2, spans[1].2); // same line
    assert_eq!(spans[1].1, 10_000 + 4_500); // gap is the leftover width
}
