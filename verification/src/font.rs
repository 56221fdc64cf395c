use vstd::prelude::*;
use owned_ttf_parser::AsFaceRef;
use crate::units::Pt;

verus! {

/// The largest font size, in thousandths of a point, that the layout and
/// metrics functions accept. Keeping sizes under this bound keeps every
/// scaled advance, line height and running coordinate well inside `i64`.
pub const MAX_FONT_SIZE: i64 = 10_000_000;

/// The largest magnitude, in thousandths of a point, that the layout
/// functions accept for a coordinate, an offset or a box edge.
pub const MAX_COORD: i64 = 1_000_000_000_000;

/// One entry of the character map: a codepoint, the glyph it maps to and
/// that glyph's horizontal advance in font units.
#[derive(Clone, Copy, Debug)]
pub struct CmapEntry {
    /// The mapped character.
    pub cp: char,
    /// The glyph id; never zero, as zero is the missing-glyph sentinel.
    pub gid: u16,
    /// The glyph's horizontal advance in font units.
    pub advance: u16,
}

/// One entry of the glyph table: a reachable glyph, the first character that
/// reaches it, its advance and its bounding-box height, all in font units.
#[derive(Clone, Copy, Debug)]
pub struct GlyphWidthEntry {
    /// The glyph id; never zero.
    pub gid: u16,
    /// The first character, in character-map order, that maps to this glyph.
    pub cp: char,
    /// The glyph's horizontal advance in font units.
    pub advance: u16,
    /// The glyph's bounding-box height above the descender, in font units.
    pub height: i32,
}

/// The plain-value model of one parsed outline font: the vertical metrics
/// and the character map, all in font units. Derived once when a font is
/// loaded and never mutated afterwards.
#[derive(Clone, Debug)]
pub struct FontMetrics {
    /// Font units per em; always at least 1 (a parsed font guarantees 16..=16384).
    pub units_per_em: u16,
    /// Distance from the baseline to the top of the font, in font units.
    pub ascender: i16,
    /// Distance from the baseline to the bottom of the font, in font units;
    /// usually negative.
    pub descender: i16,
    /// Extra space between lines, in font units.
    pub line_gap: i16,
    /// The character map: one entry per mapped codepoint, sorted strictly by
    /// codepoint.
    pub cmap: Vec<CmapEntry>,
    /// The glyph table: one entry per reachable glyph, sorted strictly by
    /// glyph id.
    pub glyphs: Vec<GlyphWidthEntry>,
}

impl FontMetrics {
    /// Well-formedness: a positive em size, a character map sorted strictly
    /// by codepoint, a glyph table sorted strictly by glyph id, and no entry
    /// for the missing-glyph id zero.
    pub open spec fn wf(self) -> bool {
        &&& self.units_per_em >= 1
        &&& forall|i: int, j: int|
            0 <= i < j < self.cmap@.len() ==> (#[trigger] self.cmap@[i]).cp
                < (#[trigger] self.cmap@[j]).cp
        &&& forall|i: int| 0 <= i < self.cmap@.len() ==> (#[trigger] self.cmap@[i]).gid >= 1
        &&& forall|i: int, j: int|
            0 <= i < j < self.glyphs@.len() ==> (#[trigger] self.glyphs@[i]).gid
                < (#[trigger] self.glyphs@[j]).gid
        &&& forall|i: int| 0 <= i < self.glyphs@.len() ==> (#[trigger] self.glyphs@[i]).gid >= 1
    }

    /// The character-map entry for `c`, if the font maps `c` to a glyph.
    pub open spec fn entry_of(self, c: char) -> Option<CmapEntry> {
        cmap_find(self.cmap@, c)
    }

    /// Whether the font maps `c` to a glyph.
    pub open spec fn maps(self, c: char) -> bool {
        self.entry_of(c) is Some
    }

    /// The character-map entry used to draw `c`: the entry for `c` itself,
    /// else for the replacement character, else for a question mark.
    pub open spec fn fallback_entry_of(self, c: char) -> Option<CmapEntry> {
        if self.entry_of(c) is Some {
            self.entry_of(c)
        } else if self.entry_of('\u{FFFD}') is Some {
            self.entry_of('\u{FFFD}')
        } else {
            self.entry_of('?')
        }
    }

    /// Whether `c` can be drawn at all, through the fallback chain.
    pub open spec fn resolves(self, c: char) -> bool {
        self.fallback_entry_of(c) is Some
    }

    /// The scaled advance, in thousandths of a point, that drawing `c` at
    /// `size` adds to the cursor: the fallback entry's advance, scaled.
    pub open spec fn draw_advance(self, c: char, size: int) -> int
        recommends
            self.resolves(c),
    {
        scaled(size, self.fallback_entry_of(c)->Some_0.advance as int, self.units_per_em as int)
    }

    /// Look up the character-map entry for `c`.
    pub fn lookup(&self, c: char) -> (r: Option<CmapEntry>)
        requires
            self.wf(),
        ensures
            r == self.entry_of(c),
    {
        let ghost s = self.cmap@;
        let mut i: usize = 0;
        while i < self.cmap.len()
            invariant
                0 <= i <= s.len(),
                s == self.cmap@,
                forall|j: int| 0 <= j < i ==> (#[trigger] s[j]).cp != c,
            decreases s.len() - i,
        {
            if self.cmap[i].cp == c {
                proof {
                    lemma_cmap_find_hit(s, c, i as int);
                }
                return Some(self.cmap[i]);
            }
            i = i + 1;
        }
        proof {
            lemma_cmap_find_miss(s, c);
        }
        None
    }

    /// The character-map entry used to draw `c`, through the fallback chain:
    /// `c` itself, else the replacement character, else a question mark.
    pub fn draw_entry(&self, c: char) -> (r: Option<CmapEntry>)
        requires
            self.wf(),
        ensures
            r == self.fallback_entry_of(c),
    {
        match self.lookup(c) {
            Some(e) => Some(e),
            None => match self.lookup('\u{FFFD}') {
                Some(e) => Some(e),
                None => self.lookup('?'),
            },
        }
    }

    /// The glyph id that `c` maps to, if any.
    pub fn glyph_id(&self, c: char) -> (r: Option<u16>)
        requires
            self.wf(),
        ensures
            r matches Some(g) ==> self.entry_of(c) matches Some(e) && e.gid == g,
            r is None <==> self.entry_of(c) is None,
    {
        match self.lookup(c) {
            Some(e) => Some(e.gid),
            None => None,
        }
    }

    /// The ascent at `size`: the distance from the baseline to the top of
    /// the font, scaled to thousandths of a point.
    pub fn ascent(&self, size: Pt) -> (r: Pt)
        requires
            self.wf(),
            0 <= size.0 <= MAX_FONT_SIZE,
        ensures
            r.0 == scaled(size.0 as int, self.ascender as int, self.units_per_em as int),
            -MAX_SCALED <= r.0 <= MAX_SCALED,
    {
        Pt(scale_metric(size.0, self.ascender as i64, self.units_per_em))
    }

    /// The descent at `size`: the distance from the baseline to the bottom
    /// of the font, scaled to thousandths of a point; usually negative.
    pub fn descent(&self, size: Pt) -> (r: Pt)
        requires
            self.wf(),
            0 <= size.0 <= MAX_FONT_SIZE,
        ensures
            r.0 == scaled(size.0 as int, self.descender as int, self.units_per_em as int),
            -MAX_SCALED <= r.0 <= MAX_SCALED,
    {
        Pt(scale_metric(size.0, self.descender as i64, self.units_per_em))
    }

    /// The leading at `size`: the extra space between lines, scaled to
    /// thousandths of a point.
    pub fn leading(&self, size: Pt) -> (r: Pt)
        requires
            self.wf(),
            0 <= size.0 <= MAX_FONT_SIZE,
        ensures
            r.0 == scaled(size.0 as int, self.line_gap as int, self.units_per_em as int),
            -MAX_SCALED <= r.0 <= MAX_SCALED,
    {
        Pt(scale_metric(size.0, self.line_gap as i64, self.units_per_em))
    }

    /// The default line height at `size`: how far to move down from one
    /// baseline to the next, `leading + ascent - descent`.
    pub fn line_height(&self, size: Pt) -> (r: Pt)
        requires
            self.wf(),
            0 <= size.0 <= MAX_FONT_SIZE,
        ensures
            r.0 == line_height_of(*self, size.0 as int),
            -3 * MAX_SCALED <= r.0 <= 3 * MAX_SCALED,
    {
        let leading = self.leading(size);
        let ascent = self.ascent(size);
        let descent = self.descent(size);
        Pt(leading.0 + ascent.0 - descent.0)
    }

    /// The signed vertical delta from a top-reference coordinate to the text
    /// baseline at `size`: the negated ascent.
    pub fn baseline_offset(&self, size: Pt) -> (r: Pt)
        requires
            self.wf(),
            0 <= size.0 <= MAX_FONT_SIZE,
        ensures
            r.0 == -scaled(size.0 as int, self.ascender as int, self.units_per_em as int),
            -MAX_SCALED <= r.0 <= MAX_SCALED,
    {
        let ascent = self.ascent(size);
        Pt(0 - ascent.0)
    }
}

/// The first character-map entry for `c`, scanning left to right. With a
/// well-formed (strictly sorted) map this is the only entry for `c`.
pub open spec fn cmap_find(s: Seq<CmapEntry>, c: char) -> Option<CmapEntry>
    decreases s.len(),
{
    if s.len() == 0 {
        None
    } else if s[0].cp == c {
        Some(s[0])
    } else {
        cmap_find(s.skip(1), c)
    }
}

proof fn lemma_cmap_find_hit(s: Seq<CmapEntry>, c: char, i: int)
    requires
        0 <= i < s.len(),
        s[i].cp == c,
        forall|j: int| 0 <= j < i ==> (#[trigger] s[j]).cp != c,
    ensures
        cmap_find(s, c) == Some(s[i]),
    decreases i,
{
    if i == 0 {
    } else {
        lemma_cmap_find_hit(s.skip(1), c, i - 1);
        assert(s.skip(1)[i - 1] == s[i]);
        assert(forall|j: int| 0 <= j < i - 1 ==> (#[trigger] s.skip(1)[j]).cp != c);
    }
}

proof fn lemma_cmap_find_miss(s: Seq<CmapEntry>, c: char)
    requires
        forall|j: int| 0 <= j < s.len() ==> (#[trigger] s[j]).cp != c,
    ensures
        cmap_find(s, c) is None,
    decreases s.len(),
{
    if s.len() > 0 {
        lemma_cmap_find_miss(s.skip(1), c);
    }
}

/// A font-unit metric `m` scaled to size `size`: `size * m / upm`, with the
/// division truncating toward zero as the executable division does.
pub open spec fn scaled(size: int, m: int, upm: int) -> int
    recommends
        size >= 0,
        upm >= 1,
{
    if m >= 0 {
        (size * m) / upm
    } else {
        -((size * (-m)) / upm)
    }
}

/// The line height at `size`: leading plus ascent minus descent.
pub open spec fn line_height_of(m: FontMetrics, size: int) -> int {
    scaled(size, m.line_gap as int, m.units_per_em as int) + scaled(
        size,
        m.ascender as int,
        m.units_per_em as int,
    ) - scaled(size, m.descender as int, m.units_per_em as int)
}

/// The largest magnitude a scaled metric can take: `MAX_FONT_SIZE * 65536`.
pub const MAX_SCALED: i64 = 655_360_000_000;

/// Scale the font-unit metric `m` to size `size`, in executable code.
pub fn scale_metric(size: i64, m: i64, upm: u16) -> (r: i64)
    requires
        0 <= size <= MAX_FONT_SIZE,
        -65536 <= m <= 65536,
        upm >= 1,
    ensures
        r == scaled(size as int, m as int, upm as int),
        -MAX_SCALED <= r <= MAX_SCALED,
        m >= 0 ==> r >= 0,
        m < 0 ==> r <= 0,
{
    proof {
        assert(0 <= size * (if m >= 0 { m as int } else { -m as int }) <= MAX_SCALED)
            by (nonlinear_arith)
            requires
                0 <= size <= MAX_FONT_SIZE,
                -65536 <= m <= 65536,
        ;
    }
    if m >= 0 {
        proof {
            vstd::arithmetic::div_mod::lemma_div_nonincreasing(size * m, upm as int);
            vstd::arithmetic::div_mod::lemma_div_pos_is_pos(size * m, upm as int);
        }
        (size * m) / (upm as i64)
    } else {
        proof {
            vstd::arithmetic::div_mod::lemma_div_nonincreasing(size * (-m), upm as int);
            vstd::arithmetic::div_mod::lemma_div_pos_is_pos(size * (-m), upm as int);
        }
        -((size * (-m)) / (upm as i64))
    }
}

/// A character's codepoint is a Unicode scalar value, so it fits in 21 bits.
pub proof fn lemma_char_bound(c: char)
    ensures
        0 <= c as int <= 0x10FFFF,
{
}

/// Why a font could not be loaded.
#[derive(Clone, Copy, Debug, PartialEq, Eq, Structural)]
pub enum FontError {
    /// The bytes could not be parsed as an outline font.
    UnreadableFont,
    /// The font has no Unicode character-map subtable, so no character
    /// could ever be encoded with it.
    NoUnicodeCmap,
}

/// The parsed outline font of the outside font parser. The verifier treats
/// it as opaque; everything the library reads from it goes through the
/// trusted wrappers below, once, when the font is loaded.
#[verifier::external_type_specification]
#[verifier::external_body]
pub struct ExOwnedFace(owned_ttf_parser::OwnedFace);

/// The outside font parser's parse error, carried only to be mapped to
/// `FontError`.
#[verifier::external_type_specification]
#[verifier::external_body]
pub struct ExFaceParsingError(owned_ttf_parser::FaceParsingError);

/// Whether the outside parser accepts these bytes as an outline font: the
/// outcome of parsing is a function of the bytes alone.
pub uninterp spec fn parse_ok(bytes: Seq<u8>) -> bool;

/// Whether the font these bytes parse to has a Unicode character-map
/// subtable. The parsed tables are a function of the bytes alone;
/// `parse_face` ties this name to the face it returns.
pub uninterp spec fn unicode_cmap_ok(bytes: Seq<u8>) -> bool;

/// The units per em a parsed face reports; a face is immutable once
/// parsed, so each of these per-face readings is a function of the face.
pub uninterp spec fn upm_of(face: owned_ttf_parser::OwnedFace) -> u16;

/// The ascender a parsed face reports, in font units.
pub uninterp spec fn ascender_of(face: owned_ttf_parser::OwnedFace) -> i16;

/// The descender a parsed face reports, in font units.
pub uninterp spec fn descender_of(face: owned_ttf_parser::OwnedFace) -> i16;

/// The line gap a parsed face reports, in font units.
pub uninterp spec fn line_gap_of(face: owned_ttf_parser::OwnedFace) -> i16;

/// How many character-map subtables a parsed face holds.
pub uninterp spec fn subtable_count_of(face: owned_ttf_parser::OwnedFace) -> u16;

/// Whether the given character-map subtable uses a Unicode encoding.
pub uninterp spec fn subtable_is_unicode(face: owned_ttf_parser::OwnedFace, idx: u16) -> bool;

/// The codepoints the given character-map subtable maps, in its own order.
pub uninterp spec fn subtable_codepoints_of(face: owned_ttf_parser::OwnedFace, idx: u16) -> Seq<
    u32,
>;

/// The glyph the given character-map subtable maps a codepoint to.
pub uninterp spec fn subtable_glyph_of(
    face: owned_ttf_parser::OwnedFace,
    idx: u16,
    cp: u32,
) -> Option<u16>;

/// The horizontal advance a parsed face reports for a glyph, in font units.
pub uninterp spec fn advance_of(face: owned_ttf_parser::OwnedFace, gid: u16) -> Option<u16>;

/// The lowest and highest y coordinate of a glyph's bounding box, in font
/// units, when the face reports one.
pub uninterp spec fn bbox_y_of(face: owned_ttf_parser::OwnedFace, gid: u16) -> Option<(i16, i16)>;

/// Whether a parsed face has any Unicode character-map subtable.
pub open spec fn has_unicode_subtable(face: owned_ttf_parser::OwnedFace) -> bool {
    exists|idx: u16| idx < subtable_count_of(face) && #[trigger] subtable_is_unicode(face, idx)
}

/// Relies on `owned_ttf_parser::OwnedFace::from_vec`: parses the bytes as
/// an outline font (face index 0) or says why they cannot be parsed.
/// Success is a function of the bytes alone, and whether the parsed face
/// has a Unicode character-map subtable is too.
#[verifier::external_body]
fn parse_face(bytes: Vec<u8>) -> (r: Result<
    owned_ttf_parser::OwnedFace,
    owned_ttf_parser::FaceParsingError,
>)
    ensures
        (r is Ok) <==> parse_ok(bytes@),
        r matches Ok(face) ==> (has_unicode_subtable(face) <==> unicode_cmap_ok(bytes@)),
{
    owned_ttf_parser::OwnedFace::from_vec(bytes, 0)
}

/// Relies on `ttf_parser::Face::units_per_em`, whose value the parser
/// validates into the range 16..=16384 when it reads the font header.
#[verifier::external_body]
fn face_units_per_em(face: &owned_ttf_parser::OwnedFace) -> (r: u16)
    ensures
        r == upm_of(*face),
        16 <= r <= 16384,
{
    face.as_face_ref().units_per_em()
}

/// Relies on `ttf_parser::Face::ascender`: the ascender from the horizontal
/// header table, in font units.
#[verifier::external_body]
fn face_ascender(face: &owned_ttf_parser::OwnedFace) -> (r: i16)
    ensures
        r == ascender_of(*face),
{
    face.as_face_ref().ascender()
}

/// Relies on `ttf_parser::Face::descender`: the descender from the
/// horizontal header table, in font units; usually negative.
#[verifier::external_body]
fn face_descender(face: &owned_ttf_parser::OwnedFace) -> (r: i16)
    ensures
        r == descender_of(*face),
{
    face.as_face_ref().descender()
}

/// Relies on `ttf_parser::Face::line_gap`: the line gap from the horizontal
/// header table, in font units.
#[verifier::external_body]
fn face_line_gap(face: &owned_ttf_parser::OwnedFace) -> (r: i16)
    ensures
        r == line_gap_of(*face),
{
    face.as_face_ref().line_gap()
}

/// Relies on `ttf_parser`'s character-map table: how many subtables the
/// font's character map holds (zero when it has none).
#[verifier::external_body]
fn cmap_subtable_count(face: &owned_ttf_parser::OwnedFace) -> (r: u16)
    ensures
        r == subtable_count_of(*face),
{
    match face.as_face_ref().tables().cmap {
        Some(cmap) => cmap.subtables.len(),
        None => 0,
    }
}

/// Relies on `ttf_parser::cmap::Subtable::is_unicode`: whether the given
/// character-map subtable uses a Unicode encoding.
#[verifier::external_body]
fn cmap_subtable_is_unicode(face: &owned_ttf_parser::OwnedFace, idx: u16) -> (r: bool)
    ensures
        r == subtable_is_unicode(*face, idx),
{
    match face.as_face_ref().tables().cmap.and_then(|cmap| cmap.subtables.get(idx)) {
        Some(subtable) => subtable.is_unicode(),
        None => false,
    }
}

/// Relies on `ttf_parser::cmap::Subtable::codepoints`: every codepoint the
/// given subtable maps, in the subtable's own order.
#[verifier::external_body]
fn cmap_subtable_codepoints(face: &owned_ttf_parser::OwnedFace, idx: u16) -> (r: Vec<u32>)
    ensures
        r@ == subtable_codepoints_of(*face, idx),
{
    let mut out: Vec<u32> = Vec::new();
    if let Some(subtable) = face.as_face_ref().tables().cmap.and_then(|cmap| cmap.subtables.get(idx)) {
        subtable.codepoints(|cp| out.push(cp));
    }
    out
}

/// Relies on `ttf_parser::cmap::Subtable::glyph_index`: the glyph the given
/// subtable maps a codepoint to. Nothing more is assumed of the returned
/// id; the caller drops the missing-glyph id zero itself.
#[verifier::external_body]
fn cmap_subtable_glyph_index(face: &owned_ttf_parser::OwnedFace, idx: u16, cp: u32) -> (r: Option<
    u16,
>)
    ensures
        r == subtable_glyph_of(*face, idx, cp),
{
    face.as_face_ref().tables().cmap.and_then(|cmap| cmap.subtables.get(idx)).and_then(
        |subtable| subtable.glyph_index(cp),
    ).map(|g| g.0)
}

/// Relies on `ttf_parser::Face::glyph_hor_advance`: the glyph's horizontal
/// advance in font units, when the font reports one.
#[verifier::external_body]
fn face_glyph_hor_advance(face: &owned_ttf_parser::OwnedFace, gid: u16) -> (r: Option<u16>)
    ensures
        r == advance_of(*face, gid),
{
    face.as_face_ref().glyph_hor_advance(owned_ttf_parser::GlyphId(gid))
}

/// Relies on `ttf_parser::Face::glyph_bounding_box`: the glyph's lowest and
/// highest y coordinate in font units, when the font reports a bounding box.
#[verifier::external_body]
fn face_glyph_bbox_y(face: &owned_ttf_parser::OwnedFace, gid: u16) -> (r: Option<(i16, i16)>)
    ensures
        r == bbox_y_of(*face, gid),
{
    face.as_face_ref().glyph_bounding_box(owned_ttf_parser::GlyphId(gid)).map(
        |b| (b.y_min, b.y_max),
    )
}

/// Relies on `char::from_u32`: it returns the character of the codepoint
/// exactly when the codepoint is a Unicode scalar value (not a surrogate
/// and at most the largest codepoint).
#[verifier::external_body]
fn char_from_u32(cp: u32) -> (r: Option<char>)
    ensures
        (r is Some) <==> is_scalar(cp),
        r matches Some(c) ==> c as int == cp as int,
{
    char::from_u32(cp)
}

/// Whether a codepoint is a Unicode scalar value: anything but a surrogate
/// up to the largest codepoint.
pub open spec fn is_scalar(cp: u32) -> bool {
    cp < 0xD800 || (0xE000 <= cp && cp <= 0x10FFFF)
}

/// The (codepoint, glyph) pairs one Unicode subtable contributes, from its
/// codepoint at position `j` on: each codepoint paired with the glyph the
/// subtable maps it to, the missing-glyph id zero dropped.
pub open spec fn subtable_pairs_from(face: owned_ttf_parser::OwnedFace, idx: u16, j: int) -> Seq<
    (u32, u16),
>
    decreases subtable_codepoints_of(face, idx).len() - j,
{
    let cps = subtable_codepoints_of(face, idx);
    if j < 0 || j >= cps.len() {
        Seq::empty()
    } else {
        (match subtable_glyph_of(face, idx, cps[j]) {
            Some(g) => if g >= 1 {
                seq![(cps[j], g)]
            } else {
                Seq::empty()
            },
            None => Seq::empty(),
        }) + subtable_pairs_from(face, idx, j + 1)
    }
}

/// The raw (codepoint, glyph) pairs of a face's Unicode character-map
/// subtables, in subtable order, from subtable `idx` on; other subtables
/// contribute nothing.
pub open spec fn face_pairs_from(face: owned_ttf_parser::OwnedFace, idx: int) -> Seq<(u32, u16)>
    decreases subtable_count_of(face) - idx,
{
    if idx < 0 || idx >= subtable_count_of(face) {
        Seq::empty()
    } else {
        (if subtable_is_unicode(face, idx as u16) {
            subtable_pairs_from(face, idx as u16, 0)
        } else {
            Seq::empty()
        }) + face_pairs_from(face, idx + 1)
    }
}

/// Every raw (codepoint, glyph) pair of a face's Unicode character-map
/// subtables, in subtable order.
pub open spec fn face_raw_pairs(face: owned_ttf_parser::OwnedFace) -> Seq<(u32, u16)> {
    face_pairs_from(face, 0)
}

/// The advance a face reports for a glyph, or zero when it reports none.
pub open spec fn advance_or_zero(face: owned_ttf_parser::OwnedFace, gid: u16) -> u16 {
    match advance_of(face, gid) {
        Some(a) => a,
        None => 0,
    }
}

/// The bounding-box height a glyph table entry records: the box's span
/// above the descender, or a nominal 1000 when the face reports no box.
pub open spec fn glyph_height_of(face: owned_ttf_parser::OwnedFace, gid: u16) -> int {
    match bbox_y_of(face, gid) {
        Some(p) => p.1 - p.0 - descender_of(face),
        None => 1000,
    }
}

/// What loading promises of the model it returns, over the kept face: the
/// vertical metrics are the face's; the character map holds exactly the
/// Unicode-scalar codepoints the face's Unicode subtables map, each with
/// the first glyph those subtables give it and that glyph's advance (or
/// zero); and the glyph table holds exactly the reachable glyphs whose
/// advance the face reports, each with the first scalar codepoint that
/// reaches it, its advance, and its bounding-box height.
pub open spec fn metrics_from_face(m: FontMetrics, face: owned_ttf_parser::OwnedFace) -> bool {
    let pairs = face_raw_pairs(face);
    &&& m.units_per_em == upm_of(face)
    &&& m.ascender == ascender_of(face)
    &&& m.descender == descender_of(face)
    &&& m.line_gap == line_gap_of(face)
    &&& forall|k: int|
        0 <= k < m.cmap@.len() ==> {
            let e = #[trigger] m.cmap@[k];
            &&& first_gid_for(pairs, e.cp as u32) == Some(e.gid)
            &&& e.advance == advance_or_zero(face, e.gid)
        }
    &&& forall|j: int|
        0 <= j < pairs.len() && is_scalar((#[trigger] pairs[j]).0) ==> exists|k: int|
            0 <= k < m.cmap@.len() && (#[trigger] m.cmap@[k]).cp as u32 == pairs[j].0
    &&& forall|k: int|
        0 <= k < m.glyphs@.len() ==> {
            let e = #[trigger] m.glyphs@[k];
            &&& first_cp_for(pairs, e.gid) == Some(e.cp as u32)
            &&& advance_of(face, e.gid) == Some(e.advance)
            &&& e.height == glyph_height_of(face, e.gid)
        }
    &&& forall|j: int|
        0 <= j < pairs.len() && is_scalar((#[trigger] pairs[j]).0) && advance_of(
            face,
            pairs[j].1,
        ) is Some ==> exists|k: int|
            0 <= k < m.glyphs@.len() && (#[trigger] m.glyphs@[k]).gid == pairs[j].1
}

/// The glyph the character map's subtables give a codepoint, in subtable
/// order: the first pair that names the codepoint.
pub open spec fn first_gid_for(pairs: Seq<(u32, u16)>, cp: u32) -> Option<u16>
    decreases pairs.len(),
{
    if pairs.len() == 0 {
        None
    } else if pairs[0].0 == cp {
        Some(pairs[0].1)
    } else {
        first_gid_for(pairs.skip(1), cp)
    }
}

/// The first scalar codepoint that reaches a glyph, in subtable order.
pub open spec fn first_cp_for(pairs: Seq<(u32, u16)>, gid: u16) -> Option<u32>
    decreases pairs.len(),
{
    if pairs.len() == 0 {
        None
    } else if pairs[0].1 == gid && is_scalar(pairs[0].0) {
        Some(pairs[0].0)
    } else {
        first_cp_for(pairs.skip(1), gid)
    }
}

/// Seeing one more pair extends the first-glyph map only where it was
/// undefined.
proof fn lemma_first_gid_snoc(pairs: Seq<(u32, u16)>, p: (u32, u16), cp: u32)
    ensures
        first_gid_for(pairs.push(p), cp) == (if first_gid_for(pairs, cp) is Some {
            first_gid_for(pairs, cp)
        } else if p.0 == cp {
            Some(p.1)
        } else {
            None
        }),
    decreases pairs.len(),
{
    if pairs.len() == 0 {
        assert(pairs.push(p)[0] == p);
        assert(pairs.push(p).skip(1) =~= Seq::<(u32, u16)>::empty());
        assert(first_gid_for(Seq::<(u32, u16)>::empty(), cp) is None);
        assert(pairs.push(p)[0].0 != cp ==> first_gid_for(pairs.push(p), cp) == first_gid_for(
            pairs.push(p).skip(1),
            cp,
        ));
    } else {
        assert(pairs.push(p)[0] == pairs[0]);
        assert(pairs.push(p).skip(1) =~= pairs.skip(1).push(p));
        lemma_first_gid_snoc(pairs.skip(1), p, cp);
        assert(pairs.push(p)[0].0 != cp ==> first_gid_for(pairs.push(p), cp) == first_gid_for(
            pairs.push(p).skip(1),
            cp,
        ));
    }
}

/// Seeing one more pair extends the first-codepoint map only where it was
/// undefined.
proof fn lemma_first_cp_snoc(pairs: Seq<(u32, u16)>, p: (u32, u16), gid: u16)
    ensures
        first_cp_for(pairs.push(p), gid) == (if first_cp_for(pairs, gid) is Some {
            first_cp_for(pairs, gid)
        } else if p.1 == gid && is_scalar(p.0) {
            Some(p.0)
        } else {
            None
        }),
    decreases pairs.len(),
{
    if pairs.len() == 0 {
        assert(pairs.push(p)[0] == p);
        assert(pairs.push(p).skip(1) =~= Seq::<(u32, u16)>::empty());
        assert(first_cp_for(Seq::<(u32, u16)>::empty(), gid) is None);
        assert(!(pairs.push(p)[0].1 == gid && is_scalar(pairs.push(p)[0].0))
            ==> first_cp_for(pairs.push(p), gid) == first_cp_for(pairs.push(p).skip(1), gid));
    } else {
        assert(pairs.push(p)[0] == pairs[0]);
        assert(pairs.push(p).skip(1) =~= pairs.skip(1).push(p));
        lemma_first_cp_snoc(pairs.skip(1), p, gid);
        assert(!(pairs.push(p)[0].1 == gid && is_scalar(pairs.push(p)[0].0))
            ==> first_cp_for(pairs.push(p), gid) == first_cp_for(pairs.push(p).skip(1), gid));
    }
}

/// A defined first glyph comes from some pair.
proof fn lemma_first_gid_exists(pairs: Seq<(u32, u16)>, cp: u32)
    requires
        first_gid_for(pairs, cp) is Some,
    ensures
        exists|j: int| 0 <= j < pairs.len() && (#[trigger] pairs[j]).0 == cp,
    decreases pairs.len(),
{
    if pairs.len() > 0 && pairs[0].0 != cp {
        lemma_first_gid_exists(pairs.skip(1), cp);
        let j = choose|j: int|
            0 <= j < pairs.skip(1).len() && (#[trigger] pairs.skip(1)[j]).0 == cp;
        assert(pairs[j + 1] == pairs.skip(1)[j]);
    }
}

/// A defined first codepoint comes from some scalar pair.
proof fn lemma_first_cp_exists(pairs: Seq<(u32, u16)>, gid: u16)
    requires
        first_cp_for(pairs, gid) is Some,
    ensures
        exists|j: int|
            0 <= j < pairs.len() && (#[trigger] pairs[j]).1 == gid && is_scalar(pairs[j].0),
    decreases pairs.len(),
{
    if pairs.len() > 0 && !(pairs[0].1 == gid && is_scalar(pairs[0].0)) {
        lemma_first_cp_exists(pairs.skip(1), gid);
        let j = choose|j: int|
            0 <= j < pairs.skip(1).len() && (#[trigger] pairs.skip(1)[j]).1 == gid && is_scalar(
                pairs.skip(1)[j].0,
            );
        assert(pairs[j + 1] == pairs.skip(1)[j]);
    }
}

/// Decide whether a codepoint is a Unicode scalar value.
fn is_scalar_exec(cp: u32) -> (r: bool)
    ensures
        r == is_scalar(cp),
{
    cp < 0xD800 || (0xE000 <= cp && cp <= 0x10FFFF)
}

/// Turn the raw (codepoint, glyph) pairs of the Unicode subtables into a
/// codepoint-keyed map: codepoints that are not Unicode scalar values are
/// dropped, the first glyph seen for a codepoint wins, and the result is
/// sorted strictly by codepoint.
#[verifier::loop_isolation(false)]
#[verifier::spinoff_prover]
fn dedupe_sort_by_cp(pairs: &Vec<(u32, u16)>) -> (r: Vec<(u32, u16)>)
    requires
        forall|j: int| 0 <= j < pairs@.len() ==> (#[trigger] pairs@[j]).1 >= 1,
    ensures
        forall|a: int, b: int| 0 <= a < b < r@.len() ==> (#[trigger] r@[a]).0 < (#[trigger] r@[b]).0,
        forall|k: int|
            0 <= k < r@.len() ==> first_gid_for(pairs@, (#[trigger] r@[k]).0) == Some(r@[k].1)
                && r@[k].1 >= 1 && is_scalar(r@[k].0),
        forall|j: int|
            0 <= j < pairs@.len() && is_scalar((#[trigger] pairs@[j]).0) ==> exists|k: int|
                0 <= k < r@.len() && (#[trigger] r@[k]).0 == pairs@[j].0,
{
    let mut out: Vec<(u32, u16)> = Vec::new();
    let mut i: usize = 0;
    proof {
        assert(pairs@.take(0) =~= Seq::<(u32, u16)>::empty());
    }
    while i < pairs.len()
        invariant
            0 <= i <= pairs@.len(),
            forall|a: int, b: int|
                0 <= a < b < out@.len() ==> (#[trigger] out@[a]).0 < (#[trigger] out@[b]).0,
            forall|k: int|
                0 <= k < out@.len() ==> first_gid_for(
                    pairs@.take(i as int),
                    (#[trigger] out@[k]).0,
                ) == Some(out@[k].1) && out@[k].1 >= 1 && is_scalar(out@[k].0),
            forall|j: int|
                0 <= j < i && is_scalar((#[trigger] pairs@[j]).0) ==> exists|k: int|
                    0 <= k < out@.len() && (#[trigger] out@[k]).0 == pairs@[j].0,
        decreases pairs@.len() - i,
    {
        let (cp, gid) = pairs[i];
        let ghost prefix = pairs@.take(i as int);
        proof {
            assert(pairs@.take(i + 1) =~= prefix.push(pairs@[i as int]));
            assert forall|c2: u32|
                first_gid_for(pairs@.take(i + 1), c2) == (if first_gid_for(prefix, c2) is Some {
                    first_gid_for(prefix, c2)
                } else if pairs@[i as int].0 == c2 {
                    Some(pairs@[i as int].1)
                } else {
                    None
                }) by {
                lemma_first_gid_snoc(prefix, pairs@[i as int], c2);
            }
        }
        if is_scalar_exec(cp) {
            let mut found = false;
            let mut pos: usize = 0;
            while pos < out.len() && !found
                invariant
                    0 <= pos <= out@.len(),
                    found ==> pos < out@.len() && out@[pos as int].0 == cp,
                    !found ==> forall|k: int| 0 <= k < pos ==> (#[trigger] out@[k]).0 != cp,
                decreases out@.len() - pos + (if found {
                    0int
                } else {
                    1int
                }),
            {
                if out[pos].0 == cp {
                    found = true;
                } else {
                    pos = pos + 1;
                }
            }
            if !found {
                proof {
                    if first_gid_for(prefix, cp) is Some {
                        lemma_first_gid_exists(prefix, cp);
                        let j = choose|j: int|
                            0 <= j < prefix.len() && (#[trigger] prefix[j]).0 == cp;
                        assert(pairs@[j] == prefix[j]);
                        assert(is_scalar(pairs@[j].0));
                        let k0 = choose|k0: int|
                            0 <= k0 < out@.len() && (#[trigger] out@[k0]).0 == pairs@[j].0;
                        assert(false);
                    }
                }
                let mut p: usize = 0;
                while p < out.len() && out[p].0 < cp
                    invariant
                        0 <= p <= out@.len(),
                        forall|k: int| 0 <= k < p ==> (#[trigger] out@[k]).0 < cp,
                    decreases out@.len() - p,
                {
                    p = p + 1;
                }
                let ghost out_old = out@;
                out.insert(p, (cp, gid));
                proof {
                    assert(out@ == out_old.insert(p as int, (cp, gid)));
                    assert forall|j: int|
                        0 <= j < i + 1 && is_scalar((#[trigger] pairs@[j]).0) implies exists|
                        k: int,
                    |
                        0 <= k < out@.len() && (#[trigger] out@[k]).0 == pairs@[j].0 by {
                        if j < i {
                            let k0 = choose|k0: int|
                                0 <= k0 < out_old.len() && (#[trigger] out_old[k0]).0
                                    == pairs@[j].0;
                            if k0 < p {
                                assert(out@[k0] == out_old[k0]);
                            } else {
                                assert(out@[k0 + 1] == out_old[k0]);
                            }
                        } else {
                            assert(out@[p as int].0 == pairs@[j].0);
                        }
                    }
                }
            } else {
                proof {
                    assert forall|j: int|
                        0 <= j < i + 1 && is_scalar((#[trigger] pairs@[j]).0) implies exists|
                        k: int,
                    |
                        0 <= k < out@.len() && (#[trigger] out@[k]).0 == pairs@[j].0 by {
                        if j == i {
                            assert(out@[pos as int].0 == pairs@[j].0);
                        }
                    }
                }
            }
        }
        i = i + 1;
    }
    proof {
        assert(pairs@.take(pairs@.len() as int) =~= pairs@);
    }
    out
}

/// Turn the raw (codepoint, glyph) pairs of the Unicode subtables into a
/// glyph-keyed map: the first Unicode-scalar codepoint seen for a glyph
/// wins, and the result is sorted strictly by glyph id.
#[verifier::loop_isolation(false)]
#[verifier::spinoff_prover]
fn dedupe_sort_by_gid(pairs: &Vec<(u32, u16)>) -> (r: Vec<(u16, u32)>)
    requires
        forall|j: int| 0 <= j < pairs@.len() ==> (#[trigger] pairs@[j]).1 >= 1,
    ensures
        forall|a: int, b: int| 0 <= a < b < r@.len() ==> (#[trigger] r@[a]).0 < (#[trigger] r@[b]).0,
        forall|k: int|
            0 <= k < r@.len() ==> first_cp_for(pairs@, (#[trigger] r@[k]).0) == Some(r@[k].1)
                && r@[k].0 >= 1 && is_scalar(r@[k].1),
        forall|j: int|
            0 <= j < pairs@.len() && is_scalar((#[trigger] pairs@[j]).0) ==> exists|k: int|
                0 <= k < r@.len() && (#[trigger] r@[k]).0 == pairs@[j].1,
{
    let mut out: Vec<(u16, u32)> = Vec::new();
    let mut i: usize = 0;
    proof {
        assert(pairs@.take(0) =~= Seq::<(u32, u16)>::empty());
    }
    while i < pairs.len()
        invariant
            0 <= i <= pairs@.len(),
            forall|a: int, b: int|
                0 <= a < b < out@.len() ==> (#[trigger] out@[a]).0 < (#[trigger] out@[b]).0,
            forall|k: int|
                0 <= k < out@.len() ==> first_cp_for(
                    pairs@.take(i as int),
                    (#[trigger] out@[k]).0,
                ) == Some(out@[k].1) && out@[k].0 >= 1 && is_scalar(out@[k].1),
            forall|j: int|
                0 <= j < i && is_scalar((#[trigger] pairs@[j]).0) ==> exists|k: int|
                    0 <= k < out@.len() && (#[trigger] out@[k]).0 == pairs@[j].1,
        decreases pairs@.len() - i,
    {
        let (cp, gid) = pairs[i];
        let ghost prefix = pairs@.take(i as int);
        proof {
            assert(pairs@.take(i + 1) =~= prefix.push(pairs@[i as int]));
            assert forall|g2: u16|
                first_cp_for(pairs@.take(i + 1), g2) == (if first_cp_for(prefix, g2) is Some {
                    first_cp_for(prefix, g2)
                } else if pairs@[i as int].1 == g2 && is_scalar(pairs@[i as int].0) {
                    Some(pairs@[i as int].0)
                } else {
                    None
                }) by {
                lemma_first_cp_snoc(prefix, pairs@[i as int], g2);
            }
        }
        if is_scalar_exec(cp) {
            let mut found = false;
            let mut pos: usize = 0;
            while pos < out.len() && !found
                invariant
                    0 <= pos <= out@.len(),
                    found ==> pos < out@.len() && out@[pos as int].0 == gid,
                    !found ==> forall|k: int| 0 <= k < pos ==> (#[trigger] out@[k]).0 != gid,
                decreases out@.len() - pos + (if found {
                    0int
                } else {
                    1int
                }),
            {
                if out[pos].0 == gid {
                    found = true;
                } else {
                    pos = pos + 1;
                }
            }
            if !found {
                proof {
                    if first_cp_for(prefix, gid) is Some {
                        lemma_first_cp_exists(prefix, gid);
                        let j = choose|j: int|
                            0 <= j < prefix.len() && (#[trigger] prefix[j]).1 == gid && is_scalar(
                                prefix[j].0,
                            );
                        assert(pairs@[j] == prefix[j]);
                        let k0 = choose|k0: int|
                            0 <= k0 < out@.len() && (#[trigger] out@[k0]).0 == pairs@[j].1;
                        assert(false);
                    }
                }
                let mut p: usize = 0;
                while p < out.len() && out[p].0 < gid
                    invariant
                        0 <= p <= out@.len(),
                        forall|k: int| 0 <= k < p ==> (#[trigger] out@[k]).0 < gid,
                    decreases out@.len() - p,
                {
                    p = p + 1;
                }
                let ghost out_old = out@;
                out.insert(p, (gid, cp));
                proof {
                    assert(out@ == out_old.insert(p as int, (gid, cp)));
                    assert forall|j: int|
                        0 <= j < i + 1 && is_scalar((#[trigger] pairs@[j]).0) implies exists|
                        k: int,
                    |
                        0 <= k < out@.len() && (#[trigger] out@[k]).0 == pairs@[j].1 by {
                        if j < i {
                            let k0 = choose|k0: int|
                                0 <= k0 < out_old.len() && (#[trigger] out_old[k0]).0
                                    == pairs@[j].1;
                            if k0 < p {
                                assert(out@[k0] == out_old[k0]);
                            } else {
                                assert(out@[k0 + 1] == out_old[k0]);
                            }
                        } else {
                            assert(out@[p as int].0 == pairs@[j].1);
                        }
                    }
                }
            } else {
                proof {
                    assert forall|j: int|
                        0 <= j < i + 1 && is_scalar((#[trigger] pairs@[j]).0) implies exists|
                        k: int,
                    |
                        0 <= k < out@.len() && (#[trigger] out@[k]).0 == pairs@[j].1 by {
                        if j == i {
                            assert(out@[pos as int].0 == pairs@[j].1);
                        }
                    }
                }
            }
        }
        i = i + 1;
    }
    proof {
        assert(pairs@.take(pairs@.len() as int) =~= pairs@);
    }
    out
}

/// Attach each mapped codepoint's character and advance, read from the face
/// once, to the codepoint-keyed map.
#[verifier::spinoff_prover]
fn augment_cmap(face: &owned_ttf_parser::OwnedFace, by_cp: &Vec<(u32, u16)>) -> (r: Vec<
    CmapEntry,
>)
    requires
        forall|a: int, b: int|
            0 <= a < b < by_cp@.len() ==> (#[trigger] by_cp@[a]).0 < (#[trigger] by_cp@[b]).0,
        forall|k: int|
            0 <= k < by_cp@.len() ==> (#[trigger] by_cp@[k]).1 >= 1 && is_scalar(by_cp@[k].0),
    ensures
        r@.len() == by_cp@.len(),
        forall|k: int|
            0 <= k < r@.len() ==> (#[trigger] r@[k]).cp as int == by_cp@[k].0 as int && r@[k].gid
                == by_cp@[k].1 && r@[k].advance == advance_or_zero(*face, by_cp@[k].1),
{
    let mut cmap: Vec<CmapEntry> = Vec::new();
    let mut i: usize = 0;
    while i < by_cp.len()
        invariant
            0 <= i <= by_cp@.len(),
            cmap@.len() == i,
            forall|k: int|
                0 <= k < i ==> (#[trigger] cmap@[k]).cp as int == by_cp@[k].0 as int
                    && cmap@[k].gid == by_cp@[k].1 && cmap@[k].advance == advance_or_zero(
                    *face,
                    by_cp@[k].1,
                ),
            forall|k: int|
                0 <= k < by_cp@.len() ==> (#[trigger] by_cp@[k]).1 >= 1 && is_scalar(
                    by_cp@[k].0,
                ),
        decreases by_cp@.len() - i,
    {
        let cp = by_cp[i].0;
        let g = by_cp[i].1;
        let c = match char_from_u32(cp) {
            Some(c) => c,
            None => {
                proof {
                    assert(is_scalar(by_cp@[i as int].0));
                    assert(false);
                }
                'x'
            },
        };
        let advance = match face_glyph_hor_advance(face, g) {
            Some(a) => a,
            None => 0,
        };
        cmap.push(CmapEntry { cp: c, gid: g, advance });
        i = i + 1;
    }
    cmap
}

/// Build the glyph table: for each reachable glyph, in glyph-id order, its
/// first character, its advance and its bounding-box height above the
/// descender, read from the face once. A glyph whose advance the font does
/// not report is dropped, and a glyph without a bounding box gets a nominal
/// height of 1000.
#[verifier::rlimit(80)]
#[verifier::spinoff_prover]
fn build_glyph_entries(
    face: &owned_ttf_parser::OwnedFace,
    by_gid: &Vec<(u16, u32)>,
    descender: i16,
) -> (r: Vec<GlyphWidthEntry>)
    requires
        descender == descender_of(*face),
        forall|a: int, b: int|
            0 <= a < b < by_gid@.len() ==> (#[trigger] by_gid@[a]).0 < (#[trigger] by_gid@[b]).0,
        forall|a: int|
            0 <= a < by_gid@.len() ==> (#[trigger] by_gid@[a]).0 >= 1 && is_scalar(by_gid@[a].1),
    ensures
        forall|a: int, b: int|
            0 <= a < b < r@.len() ==> (#[trigger] r@[a]).gid < (#[trigger] r@[b]).gid,
        forall|a: int| 0 <= a < r@.len() ==> (#[trigger] r@[a]).gid >= 1,
        forall|a: int|
            0 <= a < r@.len() ==> exists|j: int|
                0 <= j < by_gid@.len() && (#[trigger] r@[a]).gid == by_gid@[j].0 && r@[a].cp as int
                    == by_gid@[j].1 as int,
        forall|a: int|
            0 <= a < r@.len() ==> advance_of(*face, (#[trigger] r@[a]).gid) == Some(r@[a].advance)
                && r@[a].height as int == glyph_height_of(*face, r@[a].gid),
        forall|j: int|
            0 <= j < by_gid@.len() && advance_of(*face, (#[trigger] by_gid@[j]).0) is Some
                ==> exists|a: int| 0 <= a < r@.len() && (#[trigger] r@[a]).gid == by_gid@[j].0,
{
    let mut glyphs: Vec<GlyphWidthEntry> = Vec::new();
    let mut k: usize = 0;
    while k < by_gid.len()
        invariant
            0 <= k <= by_gid@.len(),
            descender == descender_of(*face),
            forall|a: int, b: int|
                0 <= a < b < by_gid@.len() ==> (#[trigger] by_gid@[a]).0 < (
                #[trigger] by_gid@[b]).0,
            forall|a: int|
                0 <= a < by_gid@.len() ==> (#[trigger] by_gid@[a]).0 >= 1 && is_scalar(
                    by_gid@[a].1,
                ),
            forall|a: int, b: int|
                0 <= a < b < glyphs@.len() ==> (#[trigger] glyphs@[a]).gid < (
                #[trigger] glyphs@[b]).gid,
            forall|a: int| 0 <= a < glyphs@.len() ==> (#[trigger] glyphs@[a]).gid >= 1,
            glyphs@.len() >= 1 ==> k >= 1 && glyphs@.last().gid <= by_gid@[k - 1].0,
            forall|a: int|
                0 <= a < glyphs@.len() ==> exists|j: int|
                    0 <= j < by_gid@.len() && (#[trigger] glyphs@[a]).gid == by_gid@[j].0
                        && glyphs@[a].cp as int == by_gid@[j].1 as int,
            forall|a: int|
                0 <= a < glyphs@.len() ==> advance_of(*face, (#[trigger] glyphs@[a]).gid) == Some(
                    glyphs@[a].advance,
                ) && glyphs@[a].height as int == glyph_height_of(*face, glyphs@[a].gid),
            forall|j: int|
                0 <= j < k && advance_of(*face, (#[trigger] by_gid@[j]).0) is Some ==> exists|
                    a: int,
                | 0 <= a < glyphs@.len() && (#[trigger] glyphs@[a]).gid == by_gid@[j].0,
        decreases by_gid@.len() - k,
    {
        let g = by_gid[k].0;
        let cp = by_gid[k].1;
        let c = match char_from_u32(cp) {
            Some(c) => c,
            None => {
                proof {
                    assert(is_scalar(by_gid@[k as int].1));
                    assert(false);
                }
                'x'
            },
        };
        match face_glyph_hor_advance(face, g) {
            Some(advance) => {
                let height: i32 = match face_glyph_bbox_y(face, g) {
                    Some(p) => {
                        let h = p.1 as i32 - p.0 as i32 - descender as i32;
                        proof {
                            assert(h as int == glyph_height_of(*face, g));
                        }
                        h
                    },
                    None => {
                        proof {
                            assert(1000int == glyph_height_of(*face, g));
                        }
                        1000
                    },
                };
                let ghost old_glyphs = glyphs@;
                glyphs.push(GlyphWidthEntry { gid: g, cp: c, advance, height });
                proof {
                    assert(glyphs@.last().gid == by_gid@[k as int].0);
                    assert forall|a: int|
                        0 <= a < glyphs@.len() implies exists|j: int|
                        0 <= j < by_gid@.len() && (#[trigger] glyphs@[a]).gid == by_gid@[j].0
                            && glyphs@[a].cp as int == by_gid@[j].1 as int by {
                        if a < old_glyphs.len() {
                            assert(glyphs@[a] == old_glyphs[a]);
                        } else {
                            assert(glyphs@[a].gid == by_gid@[k as int].0 && glyphs@[a].cp as int
                                == by_gid@[k as int].1 as int);
                        }
                    }
                    assert forall|a: int| 0 <= a < glyphs@.len() implies advance_of(
                        *face,
                        (#[trigger] glyphs@[a]).gid,
                    ) == Some(glyphs@[a].advance) && glyphs@[a].height as int == glyph_height_of(
                        *face,
                        glyphs@[a].gid,
                    ) by {
                        if a < old_glyphs.len() {
                            assert(glyphs@[a] == old_glyphs[a]);
                        } else {
                            assert(glyphs@[a].gid == g && glyphs@[a].advance == advance
                                && glyphs@[a].height == height);
                            assert(advance_of(*face, g) == Some(advance));
                        }
                    }
                    assert forall|j: int|
                        0 <= j < k + 1 && advance_of(
                            *face,
                            (#[trigger] by_gid@[j]).0,
                        ) is Some implies exists|a: int|
                        0 <= a < glyphs@.len() && (#[trigger] glyphs@[a]).gid == by_gid@[j].0 by {
                        if j < k {
                            let a0 = choose|a0: int|
                                0 <= a0 < old_glyphs.len() && (#[trigger] old_glyphs[a0]).gid
                                    == by_gid@[j].0;
                            assert(glyphs@[a0] == old_glyphs[a0]);
                        } else {
                            assert(glyphs@[glyphs@.len() - 1].gid == by_gid@[j].0);
                        }
                    }
                }
            },
            None => {
            },
        }
        k = k + 1;
    }
    glyphs
}

/// A parsed font: the opaque face of the outside parser, kept so that a
/// writer can embed the font's bytes and query what only the parser knows,
/// and the plain-value metrics model everything verified works on.
pub struct Font {
    /// The parsed face.
    pub face: owned_ttf_parser::OwnedFace,
    /// The metrics and character map derived from the face, once, at load.
    pub metrics: FontMetrics,
}

/// Walk a face's character-map subtables once and collect every
/// (codepoint, glyph) pair its Unicode subtables hold, in subtable order,
/// dropping the missing-glyph id zero; also report whether the face has a
/// Unicode subtable at all.
#[verifier::spinoff_prover]
fn collect_raw_pairs(face: &owned_ttf_parser::OwnedFace) -> (r: (Vec<(u32, u16)>, bool))
    ensures
        r.0@ == face_raw_pairs(*face),
        r.1 == has_unicode_subtable(*face),
        forall|j: int| 0 <= j < r.0@.len() ==> (#[trigger] r.0@[j]).1 >= 1,
{
    let n = cmap_subtable_count(face);
    let mut pairs: Vec<(u32, u16)> = Vec::new();
    let mut saw_unicode = false;
    let mut idx: u16 = 0;
    proof {
        assert(pairs@ + face_pairs_from(*face, 0) =~= face_pairs_from(*face, 0));
    }
    while idx < n
        invariant
            0 <= idx <= n,
            n == subtable_count_of(*face),
            pairs@ + face_pairs_from(*face, idx as int) == face_raw_pairs(*face),
            saw_unicode <==> exists|t: u16|
                t < idx && #[trigger] subtable_is_unicode(*face, t),
            forall|j: int| 0 <= j < pairs@.len() ==> (#[trigger] pairs@[j]).1 >= 1,
        decreases n - idx,
    {
        let ghost saw_before = saw_unicode;
        if cmap_subtable_is_unicode(face, idx) {
            saw_unicode = true;
            let cps = cmap_subtable_codepoints(face, idx);
            let mut ci: usize = 0;
            proof {
                assert(face_pairs_from(*face, idx as int) == subtable_pairs_from(*face, idx, 0)
                    + face_pairs_from(*face, idx as int + 1));
                assert(pairs@ + subtable_pairs_from(*face, idx, 0) + face_pairs_from(
                    *face,
                    idx as int + 1,
                ) =~= face_raw_pairs(*face));
            }
            while ci < cps.len()
                invariant
                    0 <= ci <= cps@.len(),
                    n == subtable_count_of(*face),
                    idx < n,
                    cps@ == subtable_codepoints_of(*face, idx),
                    pairs@ + subtable_pairs_from(*face, idx, ci as int) + face_pairs_from(
                        *face,
                        idx as int + 1,
                    ) == face_raw_pairs(*face),
                    forall|j: int| 0 <= j < pairs@.len() ==> (#[trigger] pairs@[j]).1 >= 1,
                decreases cps@.len() - ci,
            {
                let cp = cps[ci];
                match cmap_subtable_glyph_index(face, idx, cp) {
                    Some(g) => {
                        if g >= 1 {
                            pairs.push((cp, g));
                            proof {
                                assert(subtable_pairs_from(*face, idx, ci as int) == seq![
                                    (cp, g),
                                ] + subtable_pairs_from(*face, idx, ci + 1));
                                assert(pairs@ + subtable_pairs_from(*face, idx, ci + 1)
                                    + face_pairs_from(*face, idx as int + 1) =~= face_raw_pairs(
                                    *face,
                                ));
                            }
                        } else {
                            proof {
                                assert(subtable_pairs_from(*face, idx, ci as int)
                                    == Seq::<(u32, u16)>::empty() + subtable_pairs_from(
                                    *face,
                                    idx,
                                    ci + 1,
                                ));
                                assert(pairs@ + subtable_pairs_from(*face, idx, ci + 1)
                                    + face_pairs_from(*face, idx as int + 1) =~= face_raw_pairs(
                                    *face,
                                ));
                            }
                        }
                    },
                    None => {
                        proof {
                            assert(subtable_pairs_from(*face, idx, ci as int) == Seq::<
                                (u32, u16),
                            >::empty() + subtable_pairs_from(*face, idx, ci + 1));
                            assert(pairs@ + subtable_pairs_from(*face, idx, ci + 1)
                                + face_pairs_from(*face, idx as int + 1) =~= face_raw_pairs(
                                *face,
                            ));
                        }
                    },
                }
                ci = ci + 1;
            }
            proof {
                assert(subtable_pairs_from(*face, idx, cps@.len() as int) =~= Seq::<
                    (u32, u16),
                >::empty());
                assert(pairs@ + face_pairs_from(*face, idx as int + 1) =~= face_raw_pairs(
                    *face,
                ));
                assert(subtable_is_unicode(*face, idx));
            }
        } else {
            proof {
                assert(face_pairs_from(*face, idx as int) == Seq::<(u32, u16)>::empty()
                    + face_pairs_from(*face, idx as int + 1));
                assert(pairs@ + face_pairs_from(*face, idx as int + 1) =~= face_raw_pairs(
                    *face,
                ));
                assert forall|t: u16| t < idx + 1 && #[trigger] subtable_is_unicode(
                    *face,
                    t,
                ) implies exists|t2: u16| t2 < idx && #[trigger] subtable_is_unicode(
                    *face,
                    t2,
                ) by {
                    assert(t != idx);
                    assert(t < idx && subtable_is_unicode(*face, t));
                }
            }
        }
        idx = idx + 1;
    }
    proof {
        assert(face_pairs_from(*face, n as int) =~= Seq::<(u32, u16)>::empty());
        assert(pairs@ =~= face_raw_pairs(*face));
    }
    (pairs, saw_unicode)
}

impl Font {
    /// Load a font from raw bytes: parse it, walk its Unicode character-map
    /// subtables once, and derive the metrics model. Succeeds exactly when
    /// the bytes parse as an outline font that has a Unicode character-map
    /// subtable; a font without one could never encode a character, so
    /// loading fails fast instead. On success the model is well formed and
    /// is the stated derivation from the kept face: its vertical metrics,
    /// its character map (first glyph per codepoint, glyph id zero dropped)
    /// and its glyph table (first scalar codepoint per reachable glyph with
    /// a reported advance, with its bounding-box height).
    #[verifier::rlimit(80)]
    #[verifier::spinoff_prover]
    pub fn load(bytes: Vec<u8>) -> (r: Result<Font, FontError>)
        ensures
            (r is Ok) <==> (parse_ok(bytes@) && unicode_cmap_ok(bytes@)),
            (r == Err::<Font, FontError>(FontError::UnreadableFont)) <==> !parse_ok(bytes@),
            (r == Err::<Font, FontError>(FontError::NoUnicodeCmap)) <==> (parse_ok(bytes@)
                && !unicode_cmap_ok(bytes@)),
            r matches Ok(f) ==> f.metrics.wf() && f.metrics.units_per_em >= 16
                && metrics_from_face(f.metrics, f.face),
    {
        let face = match parse_face(bytes) {
            Ok(face) => face,
            Err(_) => {
                return Err(FontError::UnreadableFont);
            },
        };

        let collected = collect_raw_pairs(&face);
        let pairs = collected.0;
        if !collected.1 {
            return Err(FontError::NoUnicodeCmap);
        }

        let units_per_em = face_units_per_em(&face);
        let ascender = face_ascender(&face);
        let descender = face_descender(&face);
        let line_gap = face_line_gap(&face);

        let by_cp = dedupe_sort_by_cp(&pairs);
        let cmap = augment_cmap(&face, &by_cp);

        let by_gid = dedupe_sort_by_gid(&pairs);
        let glyphs = build_glyph_entries(&face, &by_gid, descender);

        let metrics = FontMetrics { units_per_em, ascender, descender, line_gap, cmap, glyphs };
        proof {
            let fc = face;
            let ps = face_raw_pairs(fc);
            assert(pairs@ == ps);
            assert forall|k: int| 0 <= k < metrics.cmap@.len() implies {
                let e = #[trigger] metrics.cmap@[k];
                &&& first_gid_for(ps, e.cp as u32) == Some(e.gid)
                &&& e.advance == advance_or_zero(fc, e.gid)
            } by {
                let e = metrics.cmap@[k];
                lemma_char_bound(e.cp);
                assert(e.cp as int == by_cp@[k].0 as int);
                assert(e.cp as u32 == by_cp@[k].0);
                assert(first_gid_for(ps, by_cp@[k].0) == Some(by_cp@[k].1));
            }
            assert forall|j: int|
                0 <= j < ps.len() && is_scalar((#[trigger] ps[j]).0) implies exists|k: int|
                0 <= k < metrics.cmap@.len() && (#[trigger] metrics.cmap@[k]).cp as u32
                    == ps[j].0 by {
                let k = choose|k: int|
                    0 <= k < by_cp@.len() && (#[trigger] by_cp@[k]).0 == pairs@[j].0;
                lemma_char_bound(metrics.cmap@[k].cp);
                assert(metrics.cmap@[k].cp as int == by_cp@[k].0 as int);
                assert(metrics.cmap@[k].cp as u32 == ps[j].0);
            }
            assert forall|k: int| 0 <= k < metrics.glyphs@.len() implies {
                let e = #[trigger] metrics.glyphs@[k];
                &&& first_cp_for(ps, e.gid) == Some(e.cp as u32)
                &&& advance_of(fc, e.gid) == Some(e.advance)
                &&& e.height == glyph_height_of(fc, e.gid)
            } by {
                let e = metrics.glyphs@[k];
                lemma_char_bound(e.cp);
                let j = choose|j: int|
                    0 <= j < by_gid@.len() && (#[trigger] e.gid) == by_gid@[j].0 && e.cp as int
                        == by_gid@[j].1 as int;
                assert(first_cp_for(ps, by_gid@[j].0) == Some(by_gid@[j].1));
                assert(e.cp as u32 == by_gid@[j].1);
            }
            assert forall|j: int|
                0 <= j < ps.len() && is_scalar((#[trigger] ps[j]).0) && advance_of(
                    fc,
                    ps[j].1,
                ) is Some implies exists|k: int|
                0 <= k < metrics.glyphs@.len() && (#[trigger] metrics.glyphs@[k]).gid
                    == ps[j].1 by {
                let k0 = choose|k0: int|
                    0 <= k0 < by_gid@.len() && (#[trigger] by_gid@[k0]).0 == pairs@[j].1;
                assert(advance_of(fc, by_gid@[k0].0) is Some);
                let a0 = choose|a0: int|
                    0 <= a0 < glyphs@.len() && (#[trigger] glyphs@[a0]).gid == by_gid@[k0].0;
                assert(metrics.glyphs@[a0].gid == ps[j].1);
            }
            assert(metrics_from_face(metrics, fc));
        }
        Ok(Font { face, metrics })
    }

    /// The glyph id the font maps a character to, if any.
    pub fn glyph_id(&self, c: char) -> (r: Option<u16>)
        requires
            self.metrics.wf(),
        ensures
            r matches Some(g) ==> self.metrics.entry_of(c) matches Some(e) && e.gid == g,
            r is None <==> self.metrics.entry_of(c) is None,
    {
        self.metrics.glyph_id(c)
    }

    /// The glyph id of the replacement character, if the font maps it.
    pub fn replacement_glyph_id(&self) -> (r: Option<u16>)
        requires
            self.metrics.wf(),
        ensures
            r matches Some(g) ==> self.metrics.entry_of('\u{FFFD}') matches Some(e) && e.gid == g,
            r is None <==> self.metrics.entry_of('\u{FFFD}') is None,
    {
        self.metrics.glyph_id('\u{FFFD}')
    }

    /// The ascent at `size`; see `FontMetrics::ascent`.
    pub fn ascent(&self, size: Pt) -> (r: Pt)
        requires
            self.metrics.wf(),
            0 <= size.0 <= MAX_FONT_SIZE,
        ensures
            r.0 == scaled(size.0 as int, self.metrics.ascender as int, self.metrics.units_per_em as int),
    {
        self.metrics.ascent(size)
    }

    /// The descent at `size`; see `FontMetrics::descent`.
    pub fn descent(&self, size: Pt) -> (r: Pt)
        requires
            self.metrics.wf(),
            0 <= size.0 <= MAX_FONT_SIZE,
        ensures
            r.0 == scaled(size.0 as int, self.metrics.descender as int, self.metrics.units_per_em as int),
    {
        self.metrics.descent(size)
    }

    /// The leading at `size`; see `FontMetrics::leading`.
    pub fn leading(&self, size: Pt) -> (r: Pt)
        requires
            self.metrics.wf(),
            0 <= size.0 <= MAX_FONT_SIZE,
        ensures
            r.0 == scaled(size.0 as int, self.metrics.line_gap as int, self.metrics.units_per_em as int),
    {
        self.metrics.leading(size)
    }

    /// The line height at `size`; see `FontMetrics::line_height`.
    pub fn line_height(&self, size: Pt) -> (r: Pt)
        requires
            self.metrics.wf(),
            0 <= size.0 <= MAX_FONT_SIZE,
        ensures
            r.0 == line_height_of(self.metrics, size.0 as int),
    {
        self.metrics.line_height(size)
    }
}

} // verus!
