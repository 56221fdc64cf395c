use pdf_gen::glyph_table::compress_widths;
use pdf_gen::glyph_table::to_unicode_blocks;
use pdf_gen::glyph_table::to_unicode_cmap;
use pdf_gen::glyph_table::to_unicode_table;
use pdf_gen::CmapEntry;
use pdf_gen::FontMetrics;
use pdf_gen::GlyphWidthEntry;
use pdf_gen::WidthRun;

fn font_with_glyphs(glyphs: Vec<GlyphWidthEntry>) -> FontMetrics {
    let cmap: Vec<CmapEntry> = glyphs
        .iter()
        .map(|g| CmapEntry { cp: g.cp, gid: g.gid, advance: g.advance })
        .collect();
    FontMetrics {
        units_per_em: 1000,
        ascender: 800,
        descender: -200,
        line_gap: 0,
        cmap,
        glyphs,
    }
}

fn entry(gid: u16, cp: char, advance: u16) -> GlyphWidthEntry {
    GlyphWidthEntry { gid, cp, advance, height: 900 }
}

/// Recover the width of each glyph from the compressed runs, falling back
/// to the default width for ids the runs do not list.
fn recover(runs: &[WidthRun], default_width: i64, gid: u16) -> i64 {
    for run in runs {
        let start = run.start as usize;
        let g = gid as usize;
        if g >= start && g < start + run.widths.len() {
            return run.widths[g - start];
        }
    }
    default_width
}

#[test]
fn width_runs_compress_consecutive_ids() {
    let font = font_with_glyphs(vec![
        entry(1, 'a', 500),
        entry(2, 'b', 600),
        entry(3, 'c', 500),
        entry(10, 'z', 700),
    ]);
    let (default_width, runs) = compress_widths(&font);
    // the mode of {500, 600, 500, 700} is 500
    assert_eq!(default_width, 500);
    assert_eq!(runs.len(), 2);
    assert_eq!(runs[0].start, 1);
    assert_eq!(runs[0].widths, vec![500, 600, 500]);
    assert_eq!(runs[1].start, 10);
    assert_eq!(runs[1].widths, vec![700]);
}

#[test]
fn width_table_round_trips_every_glyph() {
    let font = font_with_glyphs(vec![
        entry(2, 'a', 480),
        entry(3, 'b', 520),
        entry(7, 'c', 480),
        entry(8, 'd', 990),
        entry(9, 'e', 480),
    ]);
    let (default_width, runs) = compress_widths(&font);
    for g in font.glyphs.iter() {
        // every listed glyph recovers its own scaled advance
        let scaled = g.advance as i64 * 1000 / 1000;
        assert_eq!(recover(&runs, default_width, g.gid), scaled);
    }
    // an unlisted glyph falls back to the default width
    assert_eq!(recover(&runs, default_width, 100), 480);
}

#[test]
fn width_scaling_uses_a_thousand_unit_em() {
    let mut font = font_with_glyphs(vec![entry(1, 'a', 1000), entry(2, 'b', 123)]);
    font.units_per_em = 2048;
    let (_, runs) = compress_widths(&font);
    assert_eq!(runs[0].widths, vec![1000 * 1000 / 2048, 123 * 1000 / 2048]);
}

#[test]
fn mode_prefers_the_smallest_on_a_tie() {
    let font = font_with_glyphs(vec![entry(1, 'a', 700), entry(2, 'b', 300)]);
    let (default_width, _) = compress_widths(&font);
    assert_eq!(default_width, 300);
}

#[test]
fn blocks_stay_under_one_hundred_entries() {
    let mut glyphs = Vec::new();
    for i in 0..150u16 {
        let c = char::from_u32('a' as u32 + (i as u32 % 26)).unwrap();
        glyphs.push(entry(i + 1, c, 500));
    }
    let font = font_with_glyphs(glyphs);
    let blocks = to_unicode_blocks(&font);
    let mut total: usize = 0;
    for b in blocks.iter() {
        assert!(1 <= b.len() && b.len() <= 100);
        let hb = b[0].0 >> 8;
        for (gid, _) in b.iter() {
            assert_eq!(gid >> 8, hb);
        }
        total += b.len();
    }
    assert_eq!(total, 150);
    // ids 1..=151 share one high byte, so the only cuts are the length cap
    assert_eq!(blocks.len(), 2);
    assert_eq!(blocks[0].len(), 100);
    assert_eq!(blocks[1].len(), 50);
}

#[test]
fn blocks_split_at_high_byte_boundaries() {
    let font = font_with_glyphs(vec![
        entry(254, 'a', 500),
        entry(255, 'b', 500),
        entry(256, 'c', 500),
        entry(600, 'd', 500),
    ]);
    let blocks = to_unicode_blocks(&font);
    assert_eq!(blocks.len(), 3);
    assert_eq!(blocks[0], vec![(254, 'a'), (255, 'b')]);
    assert_eq!(blocks[1], vec![(256, 'c')]);
    assert_eq!(blocks[2], vec![(600, 'd')]);
}

#[test]
fn cmap_text_lists_each_pair_in_hex() {
    let font = font_with_glyphs(vec![entry(1, 'a', 500), entry(2, '\u{1F600}', 500)]);
    let blocks = to_unicode_blocks(&font);
    let text = to_unicode_cmap(&blocks);
    let expected = "/CIDInit /ProcSet findresource begin\n12 dict begin\nbegincmap\n/CIDSystemInfo\n<< /Registry (Adobe)\n/Ordering (UCS) /Supplement 0 >> def\n/CMapName /Adobe-Identity-UCS def\n/CMapType 2 def\n1 begincodespacerange\n<0000> <FFFF>\nendcodespacerange\n2 beginbfchar\n<0001> <0061>\n<0002> <1f600>\nendbfchar\nendcmap CMapName currentdict /CMap defineresource pop end end\n";
    assert_eq!(text, expected);
}

#[test]
fn embedded_table_is_the_compressed_cmap_text() {
    let font = font_with_glyphs(vec![entry(1, 'a', 500), entry(2, 'b', 600)]);
    let (blocks, compressed) = to_unicode_table(&font);
    let text = to_unicode_cmap(&blocks);
    // the stream is really compressed, and inflates back to the exact text
    assert_ne!(compressed, text.as_bytes().to_vec());
    let inflated = miniz_oxide::inflate::decompress_to_vec_zlib(&compressed).unwrap();
    assert_eq!(inflated, text.as_bytes().to_vec());
}
