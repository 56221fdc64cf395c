use pdf_gen::CmapEntry;
use pdf_gen::FontMetrics;
use pdf_gen::GlyphWidthEntry;
use pdf_gen::Pt;

/// A simple monospaced test font: 1000 units per em, ascender 800,
/// descender -200, no line gap; maps the ASCII printables to glyphs with a
/// 500-unit advance.
fn mono_font() -> FontMetrics {
    let mut cmap = Vec::new();
    let mut glyphs = Vec::new();
    let mut gid: u16 = 1;
    let mut cp = ' ' as u32;
    while cp <= '~' as u32 {
        let c = char::from_u32(cp).unwrap();
        cmap.push(CmapEntry { cp: c, gid, advance: 500 });
        glyphs.push(GlyphWidthEntry { gid, cp: c, advance: 500, height: 900 });
        gid += 1;
        cp += 1;
    }
    FontMetrics {
        units_per_em: 1000,
        ascender: 800,
        descender: -200,
        line_gap: 0,
        cmap,
        glyphs,
    }
}

#[test]
fn end_to_end_metrics_at_16pt() {
    let font = mono_font();
    let size = Pt(16_000); // 16 pt in thousandths
    assert_eq!(font.baseline_offset(size), Pt(-12_800)); // -12.8 pt
    assert_eq!(font.line_height(size), Pt(16_000)); // 16.0 pt
    assert_eq!(font.ascent(size), Pt(12_800));
    assert_eq!(font.descent(size), Pt(-3_200));
    assert_eq!(font.leading(size), Pt(0));
}

#[test]
fn glyph_lookup_and_fallback() {
    let font = mono_font();
    assert_eq!(font.glyph_id('!'), Some(2));
    assert_eq!(font.glyph_id('\u{20AC}'), None);
    // the euro sign is unmapped; drawing falls back to the question mark,
    // since this font has no replacement character either
    let e = font.draw_entry('\u{20AC}').unwrap();
    assert_eq!(e.cp, '?');
    // a mapped character resolves to itself
    let e = font.draw_entry('a').unwrap();
    assert_eq!(e.cp, 'a');
}

#[test]
fn width_skips_unmapped_characters() {
    let font = mono_font();
    let size = Pt(10_000); // 10 pt; each mapped glyph advances 5000
    assert_eq!(pdf_gen::layout::text::width_of_text("abc", &font, size), Pt(15_000));
    // the unmapped euro sign contributes nothing, and is not substituted
    assert_eq!(pdf_gen::layout::text::width_of_text("a\u{20AC}b", &font, size), Pt(10_000));
    assert_eq!(pdf_gen::layout::text::width_of_text("", &font, size), Pt(0));
}

#[test]
fn width_is_additive() {
    let font = mono_font();
    let size = Pt(13_000);
    let t1 = "hello";
    let t2 = " world!";
    let whole = format!("{}{}", t1, t2);
    let w1 = pdf_gen::layout::text::width_of_text(t1, &font, size);
    let w2 = pdf_gen::layout::text::width_of_text(t2, &font, size);
    let w = pdf_gen::layout::text::width_of_text(&whole, &font, size);
    assert_eq!(w.0, w1.0 + w2.0);
    assert!(w.0 >= 0);
}

#[test]
fn scaling_truncates_toward_zero() {
    let font = FontMetrics {
        units_per_em: 1000,
        ascender: 333,
        descender: -333,
        line_gap: 1,
        cmap: Vec::new(),
        glyphs: Vec::new(),
    };
    let size = Pt(10); // tiny size forces truncation
    assert_eq!(font.ascent(size), Pt(3)); // 10*333/1000 = 3.33 -> 3
    assert_eq!(font.descent(size), Pt(-3)); // toward zero, not floor
    assert_eq!(font.leading(size), Pt(0));
}

#[test]
fn unparsable_bytes_are_rejected() {
    let r = pdf_gen::Font::load(vec![1, 2, 3, 4]);
    assert!(matches!(r, Err(pdf_gen::FontError::UnreadableFont)));
}
