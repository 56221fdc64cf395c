use vstd::prelude::*;
use crate::chars::chars_to_string;
use crate::chars::is_whitespace_char;
use crate::chars::is_ws;
use crate::chars::normalize;
use crate::chars::normalize_text;
use crate::chars::str_chars;
use crate::colour::Colour;
use crate::font::line_height_of;
use crate::font::scaled;
use crate::font::FontMetrics;
use crate::font::MAX_COORD;
use crate::font::MAX_FONT_SIZE;
use crate::font::MAX_SCALED;
use crate::page::Page;
use crate::page::PageContents;
use crate::page::SpanFont;
use crate::page::SpanLayout;
use crate::rect::Rect;
use crate::units::Pt;

verus! {

/// The longest text, in characters, that one measurement or layout call
/// accepts; it keeps every running width sum well inside `i64`.
pub const MAX_TEXT_LEN: usize = 1_000_000;

/// The measured width of one character: its scaled advance when the font
/// maps it directly, and nothing otherwise. Measurement never substitutes
/// a replacement glyph.
pub open spec fn char_width(m: FontMetrics, size: int, c: char) -> int {
    match m.entry_of(c) {
        Some(e) => scaled(size, e.advance as int, m.units_per_em as int),
        None => 0,
    }
}

/// The measured width of a text: the sum of the measured widths of its
/// characters.
pub open spec fn text_width(m: FontMetrics, size: int, s: Seq<char>) -> int
    decreases s.len(),
{
    if s.len() == 0 {
        0
    } else {
        char_width(m, size, s[0]) + text_width(m, size, s.skip(1))
    }
}

/// One character's measured width lies between 0 and `MAX_SCALED`.
pub proof fn lemma_char_width_bounds(m: FontMetrics, size: int, c: char)
    requires
        0 <= size <= MAX_FONT_SIZE,
        1 <= m.units_per_em,
    ensures
        0 <= char_width(m, size, c) <= MAX_SCALED,
{
    match m.entry_of(c) {
        Some(e) => {
            lemma_scaled_adv_bounds(size, e.advance as int, m.units_per_em as int);
        },
        None => {},
    }
}

/// A directly mapped advance, scaled, lies between 0 and `MAX_SCALED`.
pub proof fn lemma_scaled_adv_bounds(size: int, adv: int, upm: int)
    requires
        0 <= size <= MAX_FONT_SIZE,
        0 <= adv <= 65536,
        1 <= upm,
    ensures
        0 <= scaled(size, adv, upm) <= MAX_SCALED,
{
    assert(0 <= size * adv <= MAX_SCALED) by (nonlinear_arith)
        requires
            0 <= size <= MAX_FONT_SIZE,
            0 <= adv <= 65536,
    ;
    vstd::arithmetic::div_mod::lemma_div_pos_is_pos(size * adv, upm);
    vstd::arithmetic::div_mod::lemma_div_nonincreasing(size * adv, upm);
}

/// Measured widths are never negative and grow by at most `MAX_SCALED` per
/// character.
pub proof fn lemma_text_width_bounds(m: FontMetrics, size: int, s: Seq<char>)
    requires
        m.wf(),
        0 <= size <= MAX_FONT_SIZE,
    ensures
        0 <= text_width(m, size, s) <= s.len() * MAX_SCALED,
    decreases s.len(),
{
    if s.len() == 0 {
    } else {
        lemma_char_width_bounds(m, size, s[0]);
        lemma_text_width_bounds(m, size, s.skip(1));
        assert(s.len() * MAX_SCALED == (s.len() - 1) * MAX_SCALED + MAX_SCALED)
            by (nonlinear_arith);
    }
}

/// Measuring one more character on the right adds that character's advance.
pub proof fn lemma_text_width_snoc(m: FontMetrics, size: int, s: Seq<char>, c: char)
    ensures
        text_width(m, size, s.push(c)) == text_width(m, size, s) + char_width(m, size, c),
    decreases s.len(),
{
    if s.len() == 0 {
        assert(s.push(c)[0] == c);
        assert(s.push(c).skip(1) =~= Seq::<char>::empty());
        assert(text_width(m, size, Seq::<char>::empty()) == 0);
        assert(text_width(m, size, s.push(c)) == char_width(m, size, c) + text_width(
            m,
            size,
            s.push(c).skip(1),
        ));
    } else {
        assert(s.push(c)[0] == s[0]);
        assert(s.push(c).skip(1) =~= s.skip(1).push(c));
        lemma_text_width_snoc(m, size, s.skip(1), c);
        assert(text_width(m, size, s.push(c)) == char_width(m, size, s[0]) + text_width(
            m,
            size,
            s.push(c).skip(1),
        ));
    }
}

/// Width is additive over concatenation: measuring two texts one after the
/// other gives the sum of their widths, since no shaping crosses the seam.
pub proof fn lemma_text_width_concat(m: FontMetrics, size: int, a: Seq<char>, b: Seq<char>)
    ensures
        text_width(m, size, a + b) == text_width(m, size, a) + text_width(m, size, b),
    decreases a.len(),
{
    if a.len() == 0 {
        assert(a + b =~= b);
    } else {
        assert((a + b)[0] == a[0]);
        assert((a + b).skip(1) =~= a.skip(1) + b);
        lemma_text_width_concat(m, size, a.skip(1), b);
    }
}

/// Measure the width of `text` in `font` at `size`: the sum of the scaled
/// advances of every character the font maps; unmapped characters are
/// skipped and contribute nothing.
pub fn width_of_text(text: &str, font: &FontMetrics, size: Pt) -> (r: Pt)
    requires
        font.wf(),
        0 <= size.0 <= MAX_FONT_SIZE,
        text@.len() <= MAX_TEXT_LEN,
    ensures
        r.0 == text_width(*font, size.0 as int, text@),
        r.0 >= 0,
{
    let cs = str_chars(text);
    let w = width_of_chars(&cs, font, size.0);
    Pt(w)
}

/// Measure the width of a character sequence, as `width_of_text` does.
pub fn width_of_chars(cs: &Vec<char>, font: &FontMetrics, size: i64) -> (r: i64)
    requires
        font.wf(),
        0 <= size <= MAX_FONT_SIZE,
        cs@.len() <= MAX_TEXT_LEN,
    ensures
        r == text_width(*font, size as int, cs@),
        0 <= r <= cs@.len() * MAX_SCALED,
{
    let ghost s = cs@;
    let mut sum: i64 = 0;
    let mut i: usize = 0;
    proof {
        assert(s.take(0) =~= Seq::<char>::empty());
    }
    while i < cs.len()
        invariant
            cs@ == s,
            font.wf(),
            0 <= size <= MAX_FONT_SIZE,
            s.len() <= MAX_TEXT_LEN,
            0 <= i <= s.len(),
            sum == text_width(*font, size as int, s.take(i as int)),
            0 <= sum <= i * MAX_SCALED,
        decreases s.len() - i,
    {
        let c = cs[i];
        let adv: i64 = match font.lookup(c) {
            Some(e) => crate::font::scale_metric(size, e.advance as i64, font.units_per_em),
            None => 0,
        };
        proof {
            lemma_char_width_bounds(*font, size as int, c);
            lemma_text_width_snoc(*font, size as int, s.take(i as int), c);
            assert(s.take(i + 1) =~= s.take(i as int).push(s[i as int]));
            assert((i + 1) * MAX_SCALED == i * MAX_SCALED + MAX_SCALED) by (nonlinear_arith);
        }
        sum = sum + adv;
        i = i + 1;
    }
    proof {
        assert(s.take(s.len() as int) =~= s);
        lemma_text_width_bounds(*font, size as int, s);
    }
    sum
}

/// The coordinates where text can start on a page so that its first line
/// sits just inside the top-left corner of the content box: the left edge,
/// and the top edge moved down by the font's ascent.
pub fn baseline_start(page: &Page, font: &FontMetrics, size: Pt) -> (r: (Pt, Pt))
    requires
        font.wf(),
        0 <= size.0 <= MAX_FONT_SIZE,
        -crate::font::MAX_COORD <= page.content_box.y2.0 <= crate::font::MAX_COORD,
    ensures
        r.0 == page.content_box.x1,
        r.1.0 == page.content_box.y2.0 - scaled(
            size.0 as int,
            font.ascender as int,
            font.units_per_em as int,
        ),
{
    let ascent = font.ascent(size);
    (page.content_box.x1, Pt(page.content_box.y2.0 - ascent.0))
}

/// One positioned run in the layout model: the characters it holds, the
/// font and colour it is drawn with, and the page coordinates of its start.
pub ghost struct RunM {
    pub text: Seq<char>,
    pub font: SpanFont,
    pub colour: Colour,
    pub x: int,
    pub y: int,
}

/// The per-chunk layout environment: the font model, the chunk's font
/// reference and colour, and the line geometry, all in thousandths of a
/// point.
pub ghost struct LineEnvM {
    pub m: FontMetrics,
    pub font: SpanFont,
    pub colour: Colour,
    /// Where a line after an explicit newline starts.
    pub start_x: int,
    /// The extra indent of a line started by a wrap.
    pub wrap: int,
    /// The right edge of the bounding box.
    pub x2: int,
    /// The lowest baseline that still fits: the box bottom plus the
    /// (negative) scaled descent.
    pub bottom: int,
    /// How far down each new line moves: leading + ascent - descent.
    pub line_gap: int,
}

impl LineEnvM {
    /// The scaled advance drawing `c` adds, through the fallback chain.
    pub open spec fn adv(self, c: char) -> int {
        self.m.draw_advance(c, self.font.size.0 as int)
    }

    /// Environment well-formedness: a well-formed font model and bounded
    /// geometry.
    pub open spec fn wf(self) -> bool {
        &&& self.m.wf()
        &&& 0 <= self.font.size.0 <= MAX_FONT_SIZE
        &&& -MAX_COORD <= self.start_x <= MAX_COORD
        &&& -MAX_COORD <= self.wrap <= MAX_COORD
        &&& -MAX_COORD <= self.x2 <= MAX_COORD
        &&& -MAX_COORD - MAX_SCALED <= self.bottom <= MAX_COORD + MAX_SCALED
        &&& -3 * MAX_SCALED <= self.line_gap <= 3 * MAX_SCALED
    }
}

/// The layout environment for one chunk: geometry from the call's start
/// coordinate, wrap offset and bounding box, metrics from the chunk's font.
pub open spec fn env_of(
    m: FontMetrics,
    font: SpanFont,
    colour: Colour,
    start_x: int,
    wrap: int,
    bbox: Rect,
) -> LineEnvM {
    LineEnvM {
        m,
        font,
        colour,
        start_x,
        wrap,
        x2: bbox.x2.0 as int,
        bottom: bbox.y1.0 + scaled(font.size.0 as int, m.descender as int, m.units_per_em as int),
        line_gap: line_height_of(m, font.size.0 as int),
    }
}

/// What laying one chunk out produces: the runs it emitted, the coordinates
/// where it stopped, and—when the page ran out of room—the characters of
/// the chunk that were not consumed.
pub ghost struct ChunkOutM {
    pub runs: Seq<RunM>,
    pub x: int,
    pub y: int,
    pub stop: Option<Seq<char>>,
}

/// Append a run to the accumulator if it holds any characters; empty runs
/// are never emitted.
pub open spec fn push_if(acc: Seq<RunM>, r: RunM) -> Seq<RunM> {
    if r.text.len() > 0 {
        acc.push(r)
    } else {
        acc
    }
}

/// An empty run starting at `(x, y)` in the environment's font and colour.
pub open spec fn fresh_run(env: LineEnvM, x: int, y: int) -> RunM {
    RunM { text: Seq::empty(), font: env.font, colour: env.colour, x, y }
}

/// Whether every drawable character of a normalized chunk resolves to some
/// glyph through the fallback chain; newlines are consumed by the breaker
/// and need no glyph.
pub open spec fn chunk_resolvable(m: FontMetrics, s: Seq<char>) -> bool {
    forall|i: int| 0 <= i < s.len() && s[i] != '\n' ==> m.resolves(#[trigger] s[i])
}

/// The naive (character) breaker on one chunk, from character `i` with
/// cursor `(x, y)`, an open run `cur` and already-emitted runs `acc`:
/// characters accumulate into `cur` while they fit before the right edge;
/// an overflowing character flushes `cur` and starts an indented new line
/// holding that character; a newline flushes `cur` and starts a new
/// unindented line. Before using any new line the breaker checks vertical
/// room and, when none is left, stops and reports the unconsumed suffix.
pub open spec fn naive_chunk(
    env: LineEnvM,
    chars: Seq<char>,
    i: int,
    x: int,
    y: int,
    cur: RunM,
    acc: Seq<RunM>,
) -> ChunkOutM
    decreases chars.len() - i,
{
    if i < 0 || i >= chars.len() {
        ChunkOutM { runs: push_if(acc, cur), x, y, stop: None }
    } else {
        let c = chars[i];
        if c == '\n' {
            let xn = env.start_x;
            let yn = y - env.line_gap;
            if yn < env.bottom {
                ChunkOutM { runs: push_if(acc, cur), x: xn, y: yn, stop: Some(chars.skip(i)) }
            } else {
                naive_chunk(env, chars, i + 1, xn, yn, fresh_run(env, xn, yn), push_if(acc, cur))
            }
        } else {
            let adv = env.adv(c);
            if x + adv >= env.x2 {
                let xn = env.start_x + env.wrap;
                let yn = y - env.line_gap;
                if yn < env.bottom {
                    ChunkOutM { runs: push_if(acc, cur), x: xn, y: yn, stop: Some(chars.skip(i)) }
                } else {
                    let started = RunM {
                        text: seq![c],
                        font: env.font,
                        colour: env.colour,
                        x: xn,
                        y: yn,
                    };
                    naive_chunk(env, chars, i + 1, xn + adv, yn, started, push_if(acc, cur))
                }
            } else {
                let cur2 = RunM { text: cur.text.push(c), ..cur };
                naive_chunk(env, chars, i + 1, x + adv, y, cur2, acc)
            }
        }
    }
}

/// A chunk of queued text in the layout model: its characters, colour and
/// font reference.
pub type ChunkM = (Seq<char>, Colour, SpanFont);

/// The model view of an input queue: each chunk's text as a character
/// sequence, with its colour and font reference.
pub open spec fn chunks_view(s: Seq<(String, Colour, SpanFont)>) -> Seq<ChunkM> {
    s.map_values(|t: (String, Colour, SpanFont)| (t.0@, t.1, t.2))
}

/// What a whole layout call produces: the emitted runs, the stopping
/// coordinates, and the queue of unconsumed text.
pub ghost struct LayoutOutM {
    pub runs: Seq<RunM>,
    pub x: int,
    pub y: int,
    pub leftover: Seq<ChunkM>,
}

/// The naive breaker over the whole queue, chunk by chunk from index `k`.
/// Each chunk is normalized and laid out from the cursor where the previous
/// chunk stopped; when a chunk runs out of vertical room, its unconsumed
/// suffix (if any) followed by the untouched chunks becomes the leftover
/// queue.
pub open spec fn naive_queue(
    fonts: Seq<FontMetrics>,
    start_x: int,
    wrap: int,
    bbox: Rect,
    chunks: Seq<ChunkM>,
    k: int,
    x: int,
    y: int,
    acc: Seq<RunM>,
) -> LayoutOutM
    decreases chunks.len() - k,
{
    if k < 0 || k >= chunks.len() {
        LayoutOutM { runs: acc, x, y, leftover: Seq::empty() }
    } else {
        let (txt, colour, font) = chunks[k];
        let env = env_of(fonts[font.id as int], font, colour, start_x, wrap, bbox);
        let chars = normalize(txt);
        let out = naive_chunk(env, chars, 0, x, y, fresh_run(env, x, y), Seq::empty());
        match out.stop {
            None => naive_queue(fonts, start_x, wrap, bbox, chunks, k + 1, out.x, out.y, acc + out.runs),
            Some(rem) => LayoutOutM {
                runs: acc + out.runs,
                x: out.x,
                y: out.y,
                leftover: (if rem.len() > 0 {
                    seq![(rem, colour, font)]
                } else {
                    Seq::empty()
                }) + chunks.skip(k + 1),
            },
        }
    }
}

/// Whether a queue of chunks may be laid out: every chunk names a
/// well-formed font of the list, keeps its size and length in bounds, and
/// every drawable character it holds resolves to some glyph.
pub open spec fn chunks_wf(fonts: Seq<FontMetrics>, chunks: Seq<ChunkM>) -> bool {
    forall|k: int|
        0 <= k < chunks.len() ==> {
            let (txt, colour, font) = #[trigger] chunks[k];
            &&& font.id < fonts.len()
            &&& fonts[font.id as int].wf()
            &&& 0 <= font.size.0 <= MAX_FONT_SIZE
            &&& txt.len() <= MAX_CHUNK_LEN
            &&& chunk_resolvable(fonts[font.id as int], normalize(txt))
            &&& line_height_of(fonts[font.id as int], font.size.0 as int) >= 0
        }
}

/// The longest chunk, in characters, that one layout call accepts.
pub const MAX_CHUNK_LEN: usize = 250_000;

/// Whether a layout call's geometry is in bounds.
pub open spec fn geometry_wf(start: (Pt, Pt), wrap: Pt, bbox: Rect) -> bool {
    &&& -MAX_COORD <= start.0.0 <= MAX_COORD
    &&& -MAX_COORD <= start.1.0 <= MAX_COORD
    &&& -MAX_COORD <= wrap.0 <= MAX_COORD
    &&& -MAX_COORD <= bbox.x1.0 <= MAX_COORD
    &&& -MAX_COORD <= bbox.y1.0 <= MAX_COORD
    &&& -MAX_COORD <= bbox.x2.0 <= MAX_COORD
    &&& -MAX_COORD <= bbox.y2.0 <= MAX_COORD
}

/// Whether an executable span equals a model run.
pub open spec fn span_matches_run(s: SpanLayout, r: RunM) -> bool {
    &&& s.text@ == r.text
    &&& s.font == r.font
    &&& s.colour == r.colour
    &&& s.coords.0.0 == r.x
    &&& s.coords.1.0 == r.y
}

/// Whether a page-content entry is a text block holding exactly the given
/// model run.
pub open spec fn content_matches_run(c: PageContents, r: RunM) -> bool {
    c matches PageContents::Text(v) && v@.len() == 1 && span_matches_run(v@[0], r)
}

/// Copy the tail of a character vector, from `from` to the end.
fn tail_chars(cs: &Vec<char>, from: usize) -> (r: Vec<char>)
    requires
        from <= cs@.len(),
    ensures
        r@ == cs@.skip(from as int),
{
    let mut out: Vec<char> = Vec::new();
    let mut i: usize = from;
    while i < cs.len()
        invariant
            from <= i <= cs@.len(),
            out@ == cs@.subrange(from as int, i as int),
        decreases cs@.len() - i,
    {
        out.push(cs[i]);
        proof {
            assert(cs@.subrange(from as int, i + 1) =~= cs@.subrange(from as int, i as int).push(
                cs@[i as int],
            ));
        }
        i = i + 1;
    }
    proof {
        assert(cs@.subrange(from as int, cs@.len() as int) =~= cs@.skip(from as int));
    }
    out
}

/// Normalizing a text at most quadruples its length (a tab becomes four
/// spaces; everything else maps one to one or shrinks).
pub proof fn lemma_normalize_len(s: Seq<char>)
    ensures
        normalize(s).len() <= 4 * s.len(),
    decreases s.len(),
{
    if s.len() != 0 {
        if s[0] == '\t' {
            lemma_normalize_len(s.skip(1));
        } else if s[0] == '\r' {
            if s.len() >= 2 && s[1] == '\n' {
                lemma_normalize_len(s.skip(2));
            } else {
                lemma_normalize_len(s.skip(1));
            }
        } else {
            lemma_normalize_len(s.skip(1));
        }
    }
}

/// Lay one normalized chunk out with the naive breaker, pushing each
/// emitted run onto the page, and return the stopping cursor and, when the
/// page ran out of room, the unconsumed suffix of the chunk.
#[verifier::loop_isolation(false)]
fn naive_chunk_exec(
    font: &FontMetrics,
    sf: SpanFont,
    colour: Colour,
    chars: &Vec<char>,
    start_x: i64,
    wrap: i64,
    bbox: Rect,
    x0: i64,
    y0: i64,
    page: &mut Page,
) -> (res: (i64, i64, Option<Vec<char>>))
    requires
        font.wf(),
        0 <= sf.size.0 <= MAX_FONT_SIZE,
        -MAX_COORD <= start_x <= MAX_COORD,
        -MAX_COORD <= wrap <= MAX_COORD,
        -MAX_COORD <= bbox.x1.0 <= MAX_COORD,
        -MAX_COORD <= bbox.y1.0 <= MAX_COORD,
        -MAX_COORD <= bbox.x2.0 <= MAX_COORD,
        -MAX_COORD <= bbox.y2.0 <= MAX_COORD,
        chars@.len() <= MAX_TEXT_LEN,
        chunk_resolvable(*font, chars@),
        line_height_of(*font, sf.size.0 as int) >= 0,
        -2 * MAX_COORD <= x0 <= 2 * MAX_COORD + MAX_SCALED,
        -MAX_COORD - MAX_SCALED <= y0 <= MAX_COORD,
    ensures
        ({
            let env = env_of(*font, sf, colour, start_x as int, wrap as int, bbox);
            let out = naive_chunk(
                env,
                chars@,
                0,
                x0 as int,
                y0 as int,
                fresh_run(env, x0 as int, y0 as int),
                Seq::empty(),
            );
            &&& final(page).media_box == old(page).media_box
            &&& final(page).content_box == old(page).content_box
            &&& final(page).contents@.len() == old(page).contents@.len() + out.runs.len()
            &&& forall|j: int|
                0 <= j < old(page).contents@.len() ==> final(page).contents@[j] == old(
                    page,
                ).contents@[j]
            &&& forall|j: int|
                0 <= j < out.runs.len() ==> content_matches_run(
                    #[trigger] final(page).contents@[old(page).contents@.len() + j],
                    out.runs[j],
                )
            &&& res.0 == out.x
            &&& res.1 == out.y
            &&& (res.2 is Some) <==> (out.stop is Some)
            &&& (res.2 matches Some(v) ==> out.stop matches Some(l) && v@ == l)
            &&& -2 * MAX_COORD <= res.0 <= 2 * MAX_COORD + MAX_SCALED
            &&& (out.stop is None ==> -MAX_COORD - MAX_SCALED <= res.1 <= MAX_COORD)
            &&& -MAX_COORD - 4 * MAX_SCALED <= res.1 <= MAX_COORD
        }),
{
    let ghost env = env_of(*font, sf, colour, start_x as int, wrap as int, bbox);
    let ghost out0 = naive_chunk(
        env,
        chars@,
        0,
        x0 as int,
        y0 as int,
        fresh_run(env, x0 as int, y0 as int),
        Seq::empty(),
    );
    let size = sf.size.0;
    let descent = crate::font::scale_metric(size, font.descender as i64, font.units_per_em);
    let bottom = bbox.y1.0 + descent;
    let line_gap = {
        let leading = crate::font::scale_metric(size, font.line_gap as i64, font.units_per_em);
        let ascent = crate::font::scale_metric(size, font.ascender as i64, font.units_per_em);
        leading + ascent - descent
    };
    proof {
        assert(bottom == env.bottom);
        assert(line_gap == env.line_gap);
    }

    let mut i: usize = 0;
    let mut x = x0;
    let mut y = y0;
    let mut cur: Vec<char> = Vec::new();
    let mut cur_x = x0;
    let mut cur_y = y0;
    let ghost mut acc: Seq<RunM> = Seq::empty();

    while i < chars.len()
        invariant
            0 <= i <= chars@.len(),
            -2 * MAX_COORD <= x <= 2 * MAX_COORD + MAX_SCALED,
            -MAX_COORD - MAX_SCALED <= y <= MAX_COORD,
            page.media_box == old(page).media_box,
            page.content_box == old(page).content_box,
            page.contents@.len() == old(page).contents@.len() + acc.len(),
            forall|j: int|
                0 <= j < old(page).contents@.len() ==> page.contents@[j] == old(
                    page,
                ).contents@[j],
            forall|j: int|
                0 <= j < acc.len() ==> content_matches_run(
                    #[trigger] page.contents@[old(page).contents@.len() + j],
                    acc[j],
                ),
            naive_chunk(
                env,
                chars@,
                i as int,
                x as int,
                y as int,
                RunM { text: cur@, font: sf, colour, x: cur_x as int, y: cur_y as int },
                acc,
            ) == out0,
        decreases chars@.len() - i,
    {
        let ghost cur_run = RunM {
            text: cur@,
            font: sf,
            colour,
            x: cur_x as int,
            y: cur_y as int,
        };
        let c = chars[i];
        if c == '\n' {
            let yn = y - line_gap;
            if yn < bottom {
                if cur.len() > 0 {
                    let t = chars_to_string(&cur);
                    page.add_span(
                        SpanLayout { text: t, font: sf, colour, coords: (Pt(cur_x), Pt(cur_y)) },
                    );
                }
                proof {
                    acc = push_if(acc, cur_run);
                    assert(out0 == ChunkOutM {
                        runs: acc,
                        x: env.start_x,
                        y: y - env.line_gap,
                        stop: Some(chars@.skip(i as int)),
                    });
                }
                let rem = tail_chars(chars, i);
                return (start_x, yn, Some(rem));
            } else {
                if cur.len() > 0 {
                    let t = chars_to_string(&cur);
                    page.add_span(
                        SpanLayout { text: t, font: sf, colour, coords: (Pt(cur_x), Pt(cur_y)) },
                    );
                }
                proof {
                    acc = push_if(acc, cur_run);
                }
                x = start_x;
                y = yn;
                cur = Vec::new();
                cur_x = x;
                cur_y = y;
                i = i + 1;
            }
        } else {
            let adv: i64 = match font.draw_entry(c) {
                Some(e) => crate::font::scale_metric(size, e.advance as i64, font.units_per_em),
                None => {
                    proof {
                        assert(chars@[i as int] != '\n');
                        assert(font.resolves(c));
                        assert(false);
                    }
                    0
                },
            };
            proof {
                assert(adv == env.adv(c));
                assert(0 <= adv <= MAX_SCALED);
            }
            if x + adv >= bbox.x2.0 {
                let xn = start_x + wrap;
                let yn = y - line_gap;
                if yn < bottom {
                    if cur.len() > 0 {
                        let t = chars_to_string(&cur);
                        page.add_span(
                            SpanLayout {
                                text: t,
                                font: sf,
                                colour,
                                coords: (Pt(cur_x), Pt(cur_y)),
                            },
                        );
                    }
                    proof {
                        acc = push_if(acc, cur_run);
                        assert(out0 == ChunkOutM {
                            runs: acc,
                            x: env.start_x + env.wrap,
                            y: y - env.line_gap,
                            stop: Some(chars@.skip(i as int)),
                        });
                    }
                    let rem = tail_chars(chars, i);
                    return (xn, yn, Some(rem));
                } else {
                    if cur.len() > 0 {
                        let t = chars_to_string(&cur);
                        page.add_span(
                            SpanLayout {
                                text: t,
                                font: sf,
                                colour,
                                coords: (Pt(cur_x), Pt(cur_y)),
                            },
                        );
                    }
                    proof {
                        acc = push_if(acc, cur_run);
                    }
                    cur = Vec::new();
                    cur.push(c);
                    cur_x = xn;
                    cur_y = yn;
                    x = xn + adv;
                    y = yn;
                    i = i + 1;
                    proof {
                        assert(cur@ =~= seq![c]);
                    }
                }
            } else {
                cur.push(c);
                x = x + adv;
                i = i + 1;
                proof {
                    assert(cur@ =~= cur_run.text.push(c));
                }
            }
        }
    }
    if cur.len() > 0 {
        let t = chars_to_string(&cur);
        page.add_span(SpanLayout { text: t, font: sf, colour, coords: (Pt(cur_x), Pt(cur_y)) });
    }
    proof {
        acc = push_if(
            acc,
            RunM { text: cur@, font: sf, colour, x: cur_x as int, y: cur_y as int },
        );
    }
    (x, y, None)
}

/// Lay queued text out with the naive (character) breaker: words may be
/// split at the exact column where the line fills. The queue is consumed
/// destructively; whatever remains in it afterwards is exactly the text
/// that did not fit in the bounding box, ready for the next page. Returns
/// the coordinates where layout stopped.
#[verifier::loop_isolation(false)]
pub fn layout_text_naive(
    fonts: &Vec<FontMetrics>,
    page: &mut Page,
    start: (Pt, Pt),
    text: &mut Vec<(String, Colour, SpanFont)>,
    wrap_offset: Pt,
    bounding_box: Rect,
) -> (r: (Pt, Pt))
    requires
        chunks_wf(fonts@, chunks_view(old(text)@)),
        geometry_wf(start, wrap_offset, bounding_box),
    ensures
        ({
            let q = naive_queue(
                fonts@,
                start.0.0 as int,
                wrap_offset.0 as int,
                bounding_box,
                chunks_view(old(text)@),
                0,
                start.0.0 as int,
                start.1.0 as int,
                Seq::empty(),
            );
            &&& chunks_view(final(text)@) == q.leftover
            &&& final(page).media_box == old(page).media_box
            &&& final(page).content_box == old(page).content_box
            &&& final(page).contents@.len() == old(page).contents@.len() + q.runs.len()
            &&& forall|j: int|
                0 <= j < old(page).contents@.len() ==> final(page).contents@[j] == old(
                    page,
                ).contents@[j]
            &&& forall|j: int|
                0 <= j < q.runs.len() ==> content_matches_run(
                    #[trigger] final(page).contents@[old(page).contents@.len() + j],
                    q.runs[j],
                )
            &&& r.0.0 == q.x
            &&& r.1.0 == q.y
        }),
{
    let ghost chunksm = chunks_view(text@);
    let ghost q0 = naive_queue(
        fonts@,
        start.0.0 as int,
        wrap_offset.0 as int,
        bounding_box,
        chunksm,
        0,
        start.0.0 as int,
        start.1.0 as int,
        Seq::empty(),
    );
    let mut x = start.0.0;
    let mut y = start.1.0;
    let mut k: usize = 0;
    let ghost mut acc: Seq<RunM> = Seq::empty();
    proof {
        assert(Seq::<RunM>::empty() + Seq::<RunM>::empty() =~= Seq::<RunM>::empty());
    }
    while k < text.len()
        invariant
            0 <= k <= text@.len(),
            text@ == old(text)@,
            -2 * MAX_COORD <= x <= 2 * MAX_COORD + MAX_SCALED,
            -MAX_COORD - MAX_SCALED <= y <= MAX_COORD,
            page.media_box == old(page).media_box,
            page.content_box == old(page).content_box,
            page.contents@.len() == old(page).contents@.len() + acc.len(),
            forall|j: int|
                0 <= j < old(page).contents@.len() ==> page.contents@[j] == old(
                    page,
                ).contents@[j],
            forall|j: int|
                0 <= j < acc.len() ==> content_matches_run(
                    #[trigger] page.contents@[old(page).contents@.len() + j],
                    acc[j],
                ),
            naive_queue(
                fonts@,
                start.0.0 as int,
                wrap_offset.0 as int,
                bounding_box,
                chunksm,
                k as int,
                x as int,
                y as int,
                acc,
            ) == q0,
        decreases text@.len() - k,
    {
        let chunk_text: String;
        let colour: Colour;
        let sf: SpanFont;
        {
            let chunk = &text[k];
            chunk_text = chunk.0.clone();
            colour = chunk.1;
            sf = chunk.2;
        }
        proof {
            assert(chunksm[k as int] == (text@[k as int].0@, text@[k as int].1, text@[k as int].2));
        }
        let cs = normalize_text(chunk_text.as_str());
        proof {
            lemma_normalize_len(chunk_text@);
        }
        let fm = &fonts[sf.id];
        let ghost page_before = *page;
        let res = naive_chunk_exec(
            fm,
            sf,
            colour,
            &cs,
            start.0.0,
            wrap_offset.0,
            bounding_box,
            x,
            y,
            page,
        );
        let ghost env = env_of(
            fonts@[sf.id as int],
            sf,
            colour,
            start.0.0 as int,
            wrap_offset.0 as int,
            bounding_box,
        );
        let ghost out = naive_chunk(
            env,
            cs@,
            0,
            x as int,
            y as int,
            fresh_run(env, x as int, y as int),
            Seq::empty(),
        );
        x = res.0;
        y = res.1;
        let ghost acc_old = acc;
        let ghost old_len = old(page).contents@.len() as int;
        proof {
            acc = acc + out.runs;
            assert forall|j2: int| 0 <= j2 < acc.len() implies content_matches_run(
                #[trigger] page.contents@[old_len + j2],
                acc[j2],
            ) by {
                if j2 < acc_old.len() {
                    assert(page.contents@[old_len + j2] == page_before.contents@[old_len + j2]);
                    assert(acc[j2] == acc_old[j2]);
                } else {
                    assert(acc[j2] == out.runs[j2 - acc_old.len()]);
                    assert(old_len + j2 == page_before.contents@.len() + (j2 - acc_old.len()));
                }
            }
        }
        match res.2 {
            None => {
                k = k + 1;
            },
            Some(rem) => {
                proof {
                    assert(q0 == LayoutOutM {
                        runs: acc,
                        x: out.x,
                        y: out.y,
                        leftover: (if out.stop->Some_0.len() > 0 {
                            seq![(out.stop->Some_0, colour, sf)]
                        } else {
                            Seq::<ChunkM>::empty()
                        }) + chunksm.skip(k + 1),
                    });
                }
                let mut nt: Vec<(String, Colour, SpanFont)> = Vec::new();
                if rem.len() > 0 {
                    let rs = chars_to_string(&rem);
                    nt.push((rs, colour, sf));
                }
                let mut j: usize = k + 1;
                let ghost base = chunks_view(nt@);
                proof {
                    assert(chunksm.subrange(k + 1, k + 1) =~= Seq::<ChunkM>::empty());
                    assert(chunks_view(nt@) =~~= base + chunksm.subrange(k + 1, k + 1));
                }
                while j < text.len()
                    invariant
                        k < j <= text@.len(),
                        chunks_view(nt@) == base + chunksm.subrange(k + 1, j as int),
                    decreases text@.len() - j,
                {
                    let c = &text[j];
                    let cloned = (c.0.clone(), c.1, c.2);
                    proof {
                        assert(cloned.0@ == text@[j as int].0@);
                        assert(cloned.1 == text@[j as int].1);
                        assert(cloned.2 == text@[j as int].2);
                    }
                    nt.push(cloned);
                    proof {
                        let n = nt@.len() as int;
                        assert(nt@[n - 1] == cloned);
                        assert(chunks_view(nt@)[n - 1] == (cloned.0@, cloned.1, cloned.2));
                        assert(chunksm[j as int] == (
                            text@[j as int].0@,
                            text@[j as int].1,
                            text@[j as int].2,
                        ));
                        assert forall|i: int| 0 <= i < n - 1 implies chunks_view(nt@)[i]
                            == (base + chunksm.subrange(k + 1, j as int))[i] by {
                            assert(chunks_view(nt@)[i] == (nt@[i].0@, nt@[i].1, nt@[i].2));
                        }
                        assert(chunks_view(nt@) =~~= base + chunksm.subrange(k + 1, j + 1));
                    }
                    j = j + 1;
                }
                proof {
                    assert(chunksm.subrange(k + 1, chunksm.len() as int) =~~= chunksm.skip(
                        k + 1,
                    ));
                    assert(chunks_view(nt@) =~~= q0.leftover);
                }
                *text = nt;
                return (Pt(x), Pt(y));
            },
        }
    }
    proof {
        assert(q0 == LayoutOutM { runs: acc, x: x as int, y: y as int, leftover: Seq::empty() });
    }
    let nt: Vec<(String, Colour, SpanFont)> = Vec::new();
    *text = nt;
    proof {
        assert(chunks_view(final(text)@) =~~= Seq::<ChunkM>::empty());
    }
    (Pt(x), Pt(y))
}

/// The first index at or after `j` that does not hold non-newline white
/// space: where the natural breaker resumes after a rewind, so that no line
/// starts with a leading space.
pub open spec fn skip_ws(chars: Seq<char>, j: int) -> int
    decreases chars.len() - j,
{
    if 0 <= j < chars.len() && is_ws(chars[j]) && chars[j] != '\n' {
        skip_ws(chars, j + 1)
    } else {
        j
    }
}

/// Skipping white space never moves backwards nor past the end.
pub proof fn lemma_skip_ws_bounds(chars: Seq<char>, j: int)
    requires
        0 <= j <= chars.len(),
    ensures
        j <= skip_ws(chars, j) <= chars.len(),
    decreases chars.len() - j,
{
    if j < chars.len() && is_ws(chars[j]) && chars[j] != '\n' {
        lemma_skip_ws_bounds(chars, j + 1);
    }
}

/// What laying one chunk out with the natural breaker produces: the runs,
/// the stopping cursor, whether the current line already holds an emitted
/// run (a later chunk starting on that line may then treat its own start as
/// a break opportunity), and the unconsumed suffix when room ran out.
pub ghost struct NatChunkOutM {
    pub runs: Seq<RunM>,
    pub x: int,
    pub y: int,
    pub line_prior: bool,
    pub stop: Option<Seq<char>>,
}

/// The natural (token-aware) breaker on one chunk. It extends the naive
/// breaker with a one-line look-back: a white-space character placed away
/// from the line start records a break point `(keep, resume)` — keep that
/// many characters of the open run, resume input there. On horizontal
/// overflow with a break point, the open run is truncated to the break
/// point and emitted, and input resumes after the break, skipping further
/// non-newline white space; without one, the breaker falls back to the
/// naive character break. Break points never survive a line.
pub open spec fn nat_chunk(
    env: LineEnvM,
    chars: Seq<char>,
    i: int,
    x: int,
    y: int,
    cur: RunM,
    acc: Seq<RunM>,
    bp: Option<(int, int)>,
    line_prior: bool,
) -> NatChunkOutM
    decreases
            chars.len() - (if bp is Some {
                bp->Some_0.1
            } else {
                i
            }),
            (if bp is Some {
                1int
            } else {
                0int
            }),
            chars.len() - i,
        when 0 <= i <= chars.len() && (bp matches Some(p) ==> 0 <= p.1 <= i)
        via nat_chunk_dec
{
    if i >= chars.len() {
        NatChunkOutM {
            runs: push_if(acc, cur),
            x,
            y,
            line_prior: line_prior || cur.text.len() > 0,
            stop: None,
        }
    } else {
        let c = chars[i];
        if c == '\n' {
            let xn = env.start_x;
            let yn = y - env.line_gap;
            if yn < env.bottom {
                NatChunkOutM {
                    runs: push_if(acc, cur),
                    x: xn,
                    y: yn,
                    line_prior: false,
                    stop: Some(chars.skip(i)),
                }
            } else {
                nat_chunk(
                    env,
                    chars,
                    i + 1,
                    xn,
                    yn,
                    fresh_run(env, xn, yn),
                    push_if(acc, cur),
                    None,
                    false,
                )
            }
        } else {
            let adv = env.adv(c);
            if x + adv >= env.x2 {
                if bp is Some {
                    let keep = bp->Some_0.0;
                    let resume = bp->Some_0.1;
                    let kept = RunM { text: cur.text.take(keep), ..cur };
                    let acc2 = push_if(acc, kept);
                    let xn = env.start_x + env.wrap;
                    let yn = y - env.line_gap;
                    if yn < env.bottom {
                        NatChunkOutM {
                            runs: acc2,
                            x: xn,
                            y: yn,
                            line_prior: false,
                            stop: Some(chars.skip(resume)),
                        }
                    } else {
                        nat_chunk(
                            env,
                            chars,
                            skip_ws(chars, resume),
                            xn,
                            yn,
                            fresh_run(env, xn, yn),
                            acc2,
                            None,
                            false,
                        )
                    }
                } else {
                    let acc2 = push_if(acc, cur);
                    let xn = env.start_x + env.wrap;
                    let yn = y - env.line_gap;
                    if yn < env.bottom {
                        NatChunkOutM {
                            runs: acc2,
                            x: xn,
                            y: yn,
                            line_prior: false,
                            stop: Some(chars.skip(i)),
                        }
                    } else {
                        let started = RunM {
                            text: seq![c],
                            font: env.font,
                            colour: env.colour,
                            x: xn,
                            y: yn,
                        };
                        nat_chunk(env, chars, i + 1, xn + adv, yn, started, acc2, None, false)
                    }
                }
            } else {
                let cur2 = RunM { text: cur.text.push(c), ..cur };
                let bp2 = if is_ws(c) && (cur.text.len() > 0 || line_prior) {
                    Some((cur.text.len() as int + 1, i + 1))
                } else {
                    bp
                };
                nat_chunk(env, chars, i + 1, x + adv, y, cur2, acc, bp2, line_prior)
            }
        }
    }
}

#[via_fn]
proof fn nat_chunk_dec(
    env: LineEnvM,
    chars: Seq<char>,
    i: int,
    x: int,
    y: int,
    cur: RunM,
    acc: Seq<RunM>,
    bp: Option<(int, int)>,
    line_prior: bool,
) {
    if bp is Some {
        lemma_skip_ws_bounds(chars, bp->Some_0.1);
    }
}

/// The natural breaker over the whole queue, chunk by chunk from index `k`.
/// A chunk that starts while the current line already holds an emitted run
/// begins with a break point at its own start, so the line may be broken
/// between chunks.
pub open spec fn nat_queue(
    fonts: Seq<FontMetrics>,
    start_x: int,
    wrap: int,
    bbox: Rect,
    chunks: Seq<ChunkM>,
    k: int,
    x: int,
    y: int,
    line_prior: bool,
    acc: Seq<RunM>,
) -> LayoutOutM
    decreases chunks.len() - k,
{
    if k < 0 || k >= chunks.len() {
        LayoutOutM { runs: acc, x, y, leftover: Seq::empty() }
    } else {
        let (txt, colour, font) = chunks[k];
        let env = env_of(fonts[font.id as int], font, colour, start_x, wrap, bbox);
        let chars = normalize(txt);
        let bp0: Option<(int, int)> = if line_prior {
            Some((0, 0))
        } else {
            None
        };
        let out = nat_chunk(env, chars, 0, x, y, fresh_run(env, x, y), Seq::empty(), bp0, line_prior);
        match out.stop {
            None => nat_queue(
                fonts,
                start_x,
                wrap,
                bbox,
                chunks,
                k + 1,
                out.x,
                out.y,
                out.line_prior,
                acc + out.runs,
            ),
            Some(rem) => LayoutOutM {
                runs: acc + out.runs,
                x: out.x,
                y: out.y,
                leftover: (if rem.len() > 0 {
                    seq![(rem, colour, font)]
                } else {
                    Seq::empty()
                }) + chunks.skip(k + 1),
            },
        }
    }
}

/// The model view of an executable break point.
pub open spec fn bp_view(bp: Option<(usize, usize)>) -> Option<(int, int)> {
    match bp {
        Some(p) => Some((p.0 as int, p.1 as int)),
        None => None,
    }
}

/// Advance past non-newline white space, as the natural breaker does when
/// it resumes after a rewind.
fn skip_ws_exec(chars: &Vec<char>, from: usize) -> (r: usize)
    requires
        from <= chars@.len(),
    ensures
        r as int == skip_ws(chars@, from as int),
        from <= r <= chars@.len(),
{
    let mut j = from;
    while j < chars.len() && is_whitespace_char(chars[j]) && chars[j] != '\n'
        invariant
            from <= j <= chars@.len(),
            skip_ws(chars@, from as int) == skip_ws(chars@, j as int),
        decreases chars@.len() - j,
    {
        j = j + 1;
    }
    j
}

/// Lay one normalized chunk out with the natural breaker, pushing each
/// emitted run onto the page, and return the stopping cursor, whether the
/// current line holds a run, and the unconsumed suffix when room ran out.
#[verifier::loop_isolation(false)]
fn nat_chunk_exec(
    font: &FontMetrics,
    sf: SpanFont,
    colour: Colour,
    chars: &Vec<char>,
    start_x: i64,
    wrap: i64,
    bbox: Rect,
    x0: i64,
    y0: i64,
    line_prior0: bool,
    page: &mut Page,
) -> (res: (i64, i64, bool, Option<Vec<char>>))
    requires
        font.wf(),
        0 <= sf.size.0 <= MAX_FONT_SIZE,
        -MAX_COORD <= start_x <= MAX_COORD,
        -MAX_COORD <= wrap <= MAX_COORD,
        -MAX_COORD <= bbox.x1.0 <= MAX_COORD,
        -MAX_COORD <= bbox.y1.0 <= MAX_COORD,
        -MAX_COORD <= bbox.x2.0 <= MAX_COORD,
        -MAX_COORD <= bbox.y2.0 <= MAX_COORD,
        chars@.len() <= MAX_TEXT_LEN,
        chunk_resolvable(*font, chars@),
        line_height_of(*font, sf.size.0 as int) >= 0,
        -2 * MAX_COORD <= x0 <= 2 * MAX_COORD + MAX_SCALED,
        -MAX_COORD - MAX_SCALED <= y0 <= MAX_COORD,
    ensures
        ({
            let env = env_of(*font, sf, colour, start_x as int, wrap as int, bbox);
            let bp0: Option<(int, int)> = if line_prior0 {
                Some((0int, 0int))
            } else {
                None
            };
            let out = nat_chunk(
                env,
                chars@,
                0,
                x0 as int,
                y0 as int,
                fresh_run(env, x0 as int, y0 as int),
                Seq::empty(),
                bp0,
                line_prior0,
            );
            &&& final(page).media_box == old(page).media_box
            &&& final(page).content_box == old(page).content_box
            &&& final(page).contents@.len() == old(page).contents@.len() + out.runs.len()
            &&& forall|j: int|
                0 <= j < old(page).contents@.len() ==> final(page).contents@[j] == old(
                    page,
                ).contents@[j]
            &&& forall|j: int|
                0 <= j < out.runs.len() ==> content_matches_run(
                    #[trigger] final(page).contents@[old(page).contents@.len() + j],
                    out.runs[j],
                )
            &&& res.0 == out.x
            &&& res.1 == out.y
            &&& res.2 == out.line_prior
            &&& (res.3 is Some) <==> (out.stop is Some)
            &&& (res.3 matches Some(v) ==> out.stop matches Some(l) && v@ == l)
            &&& -2 * MAX_COORD <= res.0 <= 2 * MAX_COORD + MAX_SCALED
            &&& (out.stop is None ==> -MAX_COORD - MAX_SCALED <= res.1 <= MAX_COORD)
            &&& -MAX_COORD - 4 * MAX_SCALED <= res.1 <= MAX_COORD
        }),
{
    let ghost env = env_of(*font, sf, colour, start_x as int, wrap as int, bbox);
    let ghost out0 = nat_chunk(
        env,
        chars@,
        0,
        x0 as int,
        y0 as int,
        fresh_run(env, x0 as int, y0 as int),
        Seq::empty(),
        (if line_prior0 {
            Some((0int, 0int))
        } else {
            None
        }),
        line_prior0,
    );
    let size = sf.size.0;
    let descent = crate::font::scale_metric(size, font.descender as i64, font.units_per_em);
    let bottom = bbox.y1.0 + descent;
    let line_gap = {
        let leading = crate::font::scale_metric(size, font.line_gap as i64, font.units_per_em);
        let ascent = crate::font::scale_metric(size, font.ascender as i64, font.units_per_em);
        leading + ascent - descent
    };
    proof {
        assert(bottom == env.bottom);
        assert(line_gap == env.line_gap);
    }

    let mut i: usize = 0;
    let mut x = x0;
    let mut y = y0;
    let mut cur: Vec<char> = Vec::new();
    let mut cur_x = x0;
    let mut cur_y = y0;
    let mut bp: Option<(usize, usize)> = if line_prior0 {
        Some((0, 0))
    } else {
        None
    };
    let mut line_prior = line_prior0;
    let ghost mut acc: Seq<RunM> = Seq::empty();

    while i < chars.len()
        invariant
            0 <= i <= chars@.len(),
            -2 * MAX_COORD <= x <= 2 * MAX_COORD + MAX_SCALED,
            -MAX_COORD - MAX_SCALED <= y <= MAX_COORD,
            bp matches Some(p) ==> p.1 <= i && p.0 <= cur@.len(),
            page.media_box == old(page).media_box,
            page.content_box == old(page).content_box,
            page.contents@.len() == old(page).contents@.len() + acc.len(),
            forall|j: int|
                0 <= j < old(page).contents@.len() ==> page.contents@[j] == old(
                    page,
                ).contents@[j],
            forall|j: int|
                0 <= j < acc.len() ==> content_matches_run(
                    #[trigger] page.contents@[old(page).contents@.len() + j],
                    acc[j],
                ),
            nat_chunk(
                env,
                chars@,
                i as int,
                x as int,
                y as int,
                RunM { text: cur@, font: sf, colour, x: cur_x as int, y: cur_y as int },
                acc,
                bp_view(bp),
                line_prior,
            ) == out0,
        decreases
                chars@.len() - (if bp is Some {
                    bp->Some_0.1 as int
                } else {
                    i as int
                }),
                (if bp is Some {
                    1int
                } else {
                    0int
                }),
                chars@.len() - i,
    {
        let ghost cur_run = RunM {
            text: cur@,
            font: sf,
            colour,
            x: cur_x as int,
            y: cur_y as int,
        };
        let c = chars[i];
        if c == '\n' {
            let yn = y - line_gap;
            if yn < bottom {
                if cur.len() > 0 {
                    let t = chars_to_string(&cur);
                    page.add_span(
                        SpanLayout { text: t, font: sf, colour, coords: (Pt(cur_x), Pt(cur_y)) },
                    );
                }
                proof {
                    acc = push_if(acc, cur_run);
                    assert(out0 == NatChunkOutM {
                        runs: acc,
                        x: env.start_x,
                        y: y - env.line_gap,
                        line_prior: false,
                        stop: Some(chars@.skip(i as int)),
                    });
                }
                let rem = tail_chars(chars, i);
                return (start_x, yn, false, Some(rem));
            } else {
                if cur.len() > 0 {
                    let t = chars_to_string(&cur);
                    page.add_span(
                        SpanLayout { text: t, font: sf, colour, coords: (Pt(cur_x), Pt(cur_y)) },
                    );
                }
                proof {
                    acc = push_if(acc, cur_run);
                }
                x = start_x;
                y = yn;
                cur = Vec::new();
                cur_x = x;
                cur_y = y;
                bp = None;
                line_prior = false;
                i = i + 1;
            }
        } else {
            let adv: i64 = match font.draw_entry(c) {
                Some(e) => crate::font::scale_metric(size, e.advance as i64, font.units_per_em),
                None => {
                    proof {
                        assert(chars@[i as int] != '\n');
                        assert(font.resolves(c));
                        assert(false);
                    }
                    0
                },
            };
            proof {
                assert(adv == env.adv(c));
                assert(0 <= adv <= MAX_SCALED);
            }
            if x + adv >= bbox.x2.0 {
                match bp {
                    Some(p) => {
                        let (keep, resume) = p;
                        cur.truncate(keep);
                        proof {
                            assert(cur@ == cur_run.text.take(keep as int));
                        }
                        if cur.len() > 0 {
                            let t = chars_to_string(&cur);
                            page.add_span(
                                SpanLayout {
                                    text: t,
                                    font: sf,
                                    colour,
                                    coords: (Pt(cur_x), Pt(cur_y)),
                                },
                            );
                        }
                        proof {
                            acc = push_if(acc, RunM { text: cur@, ..cur_run });
                        }
                        let xn = start_x + wrap;
                        let yn = y - line_gap;
                        if yn < bottom {
                            proof {
                                assert(out0 == NatChunkOutM {
                                    runs: acc,
                                    x: env.start_x + env.wrap,
                                    y: y - env.line_gap,
                                    line_prior: false,
                                    stop: Some(chars@.skip(resume as int)),
                                });
                            }
                            let rem = tail_chars(chars, resume);
                            return (xn, yn, false, Some(rem));
                        } else {
                            let i2 = skip_ws_exec(chars, resume);
                            i = i2;
                            x = xn;
                            y = yn;
                            cur = Vec::new();
                            cur_x = xn;
                            cur_y = yn;
                            bp = None;
                            line_prior = false;
                        }
                    },
                    None => {
                        if cur.len() > 0 {
                            let t = chars_to_string(&cur);
                            page.add_span(
                                SpanLayout {
                                    text: t,
                                    font: sf,
                                    colour,
                                    coords: (Pt(cur_x), Pt(cur_y)),
                                },
                            );
                        }
                        proof {
                            acc = push_if(acc, cur_run);
                        }
                        let xn = start_x + wrap;
                        let yn = y - line_gap;
                        if yn < bottom {
                            proof {
                                assert(out0 == NatChunkOutM {
                                    runs: acc,
                                    x: env.start_x + env.wrap,
                                    y: y - env.line_gap,
                                    line_prior: false,
                                    stop: Some(chars@.skip(i as int)),
                                });
                            }
                            let rem = tail_chars(chars, i);
                            return (xn, yn, false, Some(rem));
                        } else {
                            cur = Vec::new();
                            cur.push(c);
                            cur_x = xn;
                            cur_y = yn;
                            x = xn + adv;
                            y = yn;
                            bp = None;
                            line_prior = false;
                            i = i + 1;
                            proof {
                                assert(cur@ =~= seq![c]);
                            }
                        }
                    },
                }
            } else {
                let at_line_start = cur.len() == 0 && !line_prior;
                cur.push(c);
                if is_whitespace_char(c) && !at_line_start {
                    bp = Some((cur.len(), i + 1));
                }
                x = x + adv;
                i = i + 1;
                proof {
                    assert(cur@ =~= cur_run.text.push(c));
                }
            }
        }
    }
    if cur.len() > 0 {
        let t = chars_to_string(&cur);
        page.add_span(SpanLayout { text: t, font: sf, colour, coords: (Pt(cur_x), Pt(cur_y)) });
    }
    let out_line_prior = line_prior || cur.len() > 0;
    proof {
        acc = push_if(
            acc,
            RunM { text: cur@, font: sf, colour, x: cur_x as int, y: cur_y as int },
        );
    }
    (x, y, out_line_prior, None)
}

/// Lay queued text out with the natural (token-aware) breaker: lines break
/// at the most recent white-space break point of the current line when one
/// exists, and fall back to the exact character break otherwise, so words
/// stay whole whenever the line offers a place to break. The queue is
/// consumed destructively; whatever remains in it afterwards is exactly
/// the text that did not fit in the bounding box. Returns the coordinates
/// where layout stopped.
#[verifier::loop_isolation(false)]
pub fn layout_text_natural(
    fonts: &Vec<FontMetrics>,
    page: &mut Page,
    start: (Pt, Pt),
    text: &mut Vec<(String, Colour, SpanFont)>,
    wrap_offset: Pt,
    bounding_box: Rect,
) -> (r: (Pt, Pt))
    requires
        chunks_wf(fonts@, chunks_view(old(text)@)),
        geometry_wf(start, wrap_offset, bounding_box),
    ensures
        ({
            let q = nat_queue(
                fonts@,
                start.0.0 as int,
                wrap_offset.0 as int,
                bounding_box,
                chunks_view(old(text)@),
                0,
                start.0.0 as int,
                start.1.0 as int,
                false,
                Seq::empty(),
            );
            &&& chunks_view(final(text)@) == q.leftover
            &&& final(page).media_box == old(page).media_box
            &&& final(page).content_box == old(page).content_box
            &&& final(page).contents@.len() == old(page).contents@.len() + q.runs.len()
            &&& forall|j: int|
                0 <= j < old(page).contents@.len() ==> final(page).contents@[j] == old(
                    page,
                ).contents@[j]
            &&& forall|j: int|
                0 <= j < q.runs.len() ==> content_matches_run(
                    #[trigger] final(page).contents@[old(page).contents@.len() + j],
                    q.runs[j],
                )
            &&& r.0.0 == q.x
            &&& r.1.0 == q.y
        }),
{
    let ghost chunksm = chunks_view(text@);
    let ghost q0 = nat_queue(
        fonts@,
        start.0.0 as int,
        wrap_offset.0 as int,
        bounding_box,
        chunksm,
        0,
        start.0.0 as int,
        start.1.0 as int,
        false,
        Seq::empty(),
    );
    let mut x = start.0.0;
    let mut y = start.1.0;
    let mut line_prior = false;
    let mut k: usize = 0;
    let ghost mut acc: Seq<RunM> = Seq::empty();
    proof {
        assert(Seq::<RunM>::empty() + Seq::<RunM>::empty() =~= Seq::<RunM>::empty());
    }
    while k < text.len()
        invariant
            0 <= k <= text@.len(),
            text@ == old(text)@,
            -2 * MAX_COORD <= x <= 2 * MAX_COORD + MAX_SCALED,
            -MAX_COORD - MAX_SCALED <= y <= MAX_COORD,
            page.media_box == old(page).media_box,
            page.content_box == old(page).content_box,
            page.contents@.len() == old(page).contents@.len() + acc.len(),
            forall|j: int|
                0 <= j < old(page).contents@.len() ==> page.contents@[j] == old(
                    page,
                ).contents@[j],
            forall|j: int|
                0 <= j < acc.len() ==> content_matches_run(
                    #[trigger] page.contents@[old(page).contents@.len() + j],
                    acc[j],
                ),
            nat_queue(
                fonts@,
                start.0.0 as int,
                wrap_offset.0 as int,
                bounding_box,
                chunksm,
                k as int,
                x as int,
                y as int,
                line_prior,
                acc,
            ) == q0,
        decreases text@.len() - k,
    {
        let chunk_text: String;
        let colour: Colour;
        let sf: SpanFont;
        {
            let chunk = &text[k];
            chunk_text = chunk.0.clone();
            colour = chunk.1;
            sf = chunk.2;
        }
        proof {
            assert(chunksm[k as int] == (text@[k as int].0@, text@[k as int].1, text@[k as int].2));
        }
        let cs = normalize_text(chunk_text.as_str());
        proof {
            lemma_normalize_len(chunk_text@);
        }
        let fm = &fonts[sf.id];
        let ghost page_before = *page;
        let res = nat_chunk_exec(
            fm,
            sf,
            colour,
            &cs,
            start.0.0,
            wrap_offset.0,
            bounding_box,
            x,
            y,
            line_prior,
            page,
        );
        let ghost env = env_of(
            fonts@[sf.id as int],
            sf,
            colour,
            start.0.0 as int,
            wrap_offset.0 as int,
            bounding_box,
        );
        let ghost out = nat_chunk(
            env,
            cs@,
            0,
            x as int,
            y as int,
            fresh_run(env, x as int, y as int),
            Seq::empty(),
            (if line_prior {
                Some((0int, 0int))
            } else {
                None
            }),
            line_prior,
        );
        x = res.0;
        y = res.1;
        line_prior = res.2;
        let ghost acc_old = acc;
        let ghost old_len = old(page).contents@.len() as int;
        proof {
            acc = acc + out.runs;
            assert forall|j2: int| 0 <= j2 < acc.len() implies content_matches_run(
                #[trigger] page.contents@[old_len + j2],
                acc[j2],
            ) by {
                if j2 < acc_old.len() {
                    assert(page.contents@[old_len + j2] == page_before.contents@[old_len + j2]);
                    assert(acc[j2] == acc_old[j2]);
                } else {
                    assert(acc[j2] == out.runs[j2 - acc_old.len()]);
                    assert(old_len + j2 == page_before.contents@.len() + (j2 - acc_old.len()));
                }
            }
        }
        match res.3 {
            None => {
                k = k + 1;
            },
            Some(rem) => {
                proof {
                    assert(q0 == LayoutOutM {
                        runs: acc,
                        x: out.x,
                        y: out.y,
                        leftover: (if out.stop->Some_0.len() > 0 {
                            seq![(out.stop->Some_0, colour, sf)]
                        } else {
                            Seq::<ChunkM>::empty()
                        }) + chunksm.skip(k + 1),
                    });
                }
                let mut nt: Vec<(String, Colour, SpanFont)> = Vec::new();
                if rem.len() > 0 {
                    let rs = chars_to_string(&rem);
                    nt.push((rs, colour, sf));
                }
                let mut j: usize = k + 1;
                let ghost base = chunks_view(nt@);
                proof {
                    assert(chunksm.subrange(k + 1, k + 1) =~= Seq::<ChunkM>::empty());
                    assert(chunks_view(nt@) =~~= base + chunksm.subrange(k + 1, k + 1));
                }
                while j < text.len()
                    invariant
                        k < j <= text@.len(),
                        chunks_view(nt@) == base + chunksm.subrange(k + 1, j as int),
                    decreases text@.len() - j,
                {
                    let c = &text[j];
                    let cloned = (c.0.clone(), c.1, c.2);
                    proof {
                        assert(cloned.0@ == text@[j as int].0@);
                        assert(cloned.1 == text@[j as int].1);
                        assert(cloned.2 == text@[j as int].2);
                    }
                    nt.push(cloned);
                    proof {
                        let n = nt@.len() as int;
                        assert(nt@[n - 1] == cloned);
                        assert(chunks_view(nt@)[n - 1] == (cloned.0@, cloned.1, cloned.2));
                        assert(chunksm[j as int] == (
                            text@[j as int].0@,
                            text@[j as int].1,
                            text@[j as int].2,
                        ));
                        assert forall|i: int| 0 <= i < n - 1 implies chunks_view(nt@)[i]
                            == (base + chunksm.subrange(k + 1, j as int))[i] by {
                            assert(chunks_view(nt@)[i] == (nt@[i].0@, nt@[i].1, nt@[i].2));
                        }
                        assert(chunks_view(nt@) =~~= base + chunksm.subrange(k + 1, j + 1));
                    }
                    j = j + 1;
                }
                proof {
                    assert(chunksm.subrange(k + 1, chunksm.len() as int) =~~= chunksm.skip(
                        k + 1,
                    ));
                    assert(chunks_view(nt@) =~~= q0.leftover);
                }
                *text = nt;
                return (Pt(x), Pt(y));
            },
        }
    }
    proof {
        assert(q0 == LayoutOutM { runs: acc, x: x as int, y: y as int, leftover: Seq::empty() });
    }
    let nt: Vec<(String, Colour, SpanFont)> = Vec::new();
    *text = nt;
    proof {
        assert(chunks_view(final(text)@) =~~= Seq::<ChunkM>::empty());
    }
    (Pt(x), Pt(y))
}

/// The first index at or after `j` that holds a non-white-space character.
pub open spec fn skip_all_ws(s: Seq<char>, j: int) -> int
    decreases s.len() - j,
{
    if 0 <= j < s.len() && is_ws(s[j]) {
        skip_all_ws(s, j + 1)
    } else {
        j
    }
}

/// The first index at or after `j` that holds white space (or the end):
/// the end of the word starting at `j`.
pub open spec fn word_end(s: Seq<char>, j: int) -> int
    decreases s.len() - j,
{
    if 0 <= j < s.len() && !is_ws(s[j]) {
        word_end(s, j + 1)
    } else {
        j
    }
}

/// Skipping white space stays within bounds and lands on a word or the end.
pub proof fn lemma_skip_all_ws_bounds(s: Seq<char>, j: int)
    requires
        0 <= j <= s.len(),
    ensures
        j <= skip_all_ws(s, j) <= s.len(),
        skip_all_ws(s, j) < s.len() ==> !is_ws(s[skip_all_ws(s, j)]),
    decreases s.len() - j,
{
    if j < s.len() && is_ws(s[j]) {
        lemma_skip_all_ws_bounds(s, j + 1);
    }
}

/// A word's end stays within bounds and moves forward over its first
/// character.
pub proof fn lemma_word_end_bounds(s: Seq<char>, j: int)
    requires
        0 <= j <= s.len(),
    ensures
        j <= word_end(s, j) <= s.len(),
        j < s.len() && !is_ws(s[j]) ==> word_end(s, j) >= j + 1,
    decreases s.len() - j,
{
    if j < s.len() && !is_ws(s[j]) {
        lemma_word_end_bounds(s, j + 1);
    }
}

/// The words of a text from position `j` on: the maximal runs of
/// non-white-space characters, in order.
pub open spec fn split_words_from(s: Seq<char>, j: int) -> Seq<Seq<char>>
    decreases s.len() - j
        when 0 <= j <= s.len()
        via split_words_from_dec
{
    let j2 = skip_all_ws(s, j);
    if j2 >= s.len() {
        Seq::empty()
    } else {
        seq![s.subrange(j2, word_end(s, j2))] + split_words_from(s, word_end(s, j2))
    }
}

#[via_fn]
proof fn split_words_from_dec(s: Seq<char>, j: int) {
    lemma_skip_all_ws_bounds(s, j);
    let j2 = skip_all_ws(s, j);
    if j2 < s.len() {
        lemma_word_end_bounds(s, j2);
    }
}

/// The words of a text: the maximal runs of non-white-space characters.
pub open spec fn split_words(s: Seq<char>) -> Seq<Seq<char>> {
    split_words_from(s, 0)
}

/// Every word is at most as long as the text it came from.
pub proof fn lemma_split_words_len(s: Seq<char>, j: int)
    requires
        0 <= j <= s.len(),
    ensures
        forall|i: int|
            0 <= i < split_words_from(s, j).len() ==> (#[trigger] split_words_from(s, j)[i]).len()
                <= s.len(),
    decreases s.len() - j,
{
    lemma_skip_all_ws_bounds(s, j);
    let j2 = skip_all_ws(s, j);
    if j2 < s.len() {
        lemma_word_end_bounds(s, j2);
        lemma_split_words_len(s, word_end(s, j2));
        assert forall|i: int| 0 <= i < split_words_from(s, j).len() implies (
        #[trigger] split_words_from(s, j)[i]).len() <= s.len() by {
            if i >= 1 {
                assert(split_words_from(s, j)[i] == split_words_from(s, word_end(s, j2))[i - 1]);
            }
        }
    }
}

/// The summed widths of the words `j..k`.
pub open spec fn words_width(m: FontMetrics, size: int, words: Seq<Seq<char>>, j: int, k: int) -> int
    decreases k - j,
{
    if j >= k {
        0
    } else {
        text_width(m, size, words[j]) + words_width(m, size, words, j + 1, k)
    }
}

/// Word-width sums split at any midpoint.
pub proof fn lemma_words_width_split(
    m: FontMetrics,
    size: int,
    words: Seq<Seq<char>>,
    j: int,
    k: int,
    e: int,
)
    requires
        j <= k <= e,
    ensures
        words_width(m, size, words, j, e) == words_width(m, size, words, j, k) + words_width(
            m,
            size,
            words,
            k,
            e,
        ),
    decreases k - j,
{
    if j < k {
        lemma_words_width_split(m, size, words, j + 1, k, e);
    }
}

/// Word-width sums are never negative.
pub proof fn lemma_words_width_nonneg(
    m: FontMetrics,
    size: int,
    words: Seq<Seq<char>>,
    j: int,
    k: int,
)
    requires
        m.wf(),
        0 <= size <= MAX_FONT_SIZE,
    ensures
        words_width(m, size, words, j, k) >= 0,
    decreases k - j,
{
    if j < k {
        lemma_text_width_bounds(m, size, words[j]);
        lemma_words_width_nonneg(m, size, words, j + 1, k);
    }
}

/// The spring breaker's line filling, considering word `k` for the line
/// that starts at word `j` and already weighs `ww`: a word joins the line
/// while the words plus their natural inter-word spaces stay under the
/// line width; a word that would overflow still joins when compressing the
/// spaces to four fifths would fit (and always when it is the line's first
/// word, so that progress is made); otherwise the line ends before it.
/// Returns the index after the line's last word and the line's word width.
pub open spec fn fill_line(
    m: FontMetrics,
    size: int,
    space_w: int,
    max_w: int,
    words: Seq<Seq<char>>,
    j: int,
    k: int,
    ww: int,
) -> (int, int)
    decreases words.len() - k,
{
    if k < 0 || k >= words.len() {
        (k, ww)
    } else {
        let w = text_width(m, size, words[k]);
        let ww2 = ww + w;
        let sw = space_w * (k - j);
        if ww2 + sw >= max_w {
            if k == j || 5 * ww2 + 4 * sw <= 5 * max_w {
                (k + 1, ww2)
            } else {
                (k, ww)
            }
        } else {
            fill_line(m, size, space_w, max_w, words, j, k + 1, ww2)
        }
    }
}

/// What line filling guarantees: the line ends within bounds, always takes
/// at least its first word, its width is the sum of its words' widths, and
/// a line of two or more words never weighs more than the line width.
pub proof fn lemma_fill_line(
    m: FontMetrics,
    size: int,
    space_w: int,
    max_w: int,
    words: Seq<Seq<char>>,
    j: int,
    k: int,
    ww: int,
)
    requires
        m.wf(),
        0 <= size <= MAX_FONT_SIZE,
        0 <= j <= k <= words.len(),
        space_w >= 0,
        ww >= 0,
        k > j ==> ww + space_w * (k - 1 - j) < max_w,
    ensures
        ({
            let (end, ww2) = fill_line(m, size, space_w, max_w, words, j, k, ww);
            &&& k <= end <= words.len()
            &&& (k == j && j < words.len()) ==> end >= j + 1
            &&& ww2 == ww + words_width(m, size, words, k, end)
            &&& ww2 >= ww
            &&& (end - j >= 2 ==> ww2 <= max_w)
        }),
    decreases words.len() - k,
{
    if k < 0 || k >= words.len() {
        assert(words_width(m, size, words, k, k) == 0);
        if k - j >= 2 {
            assert(space_w * (k - 1 - j) >= 0) by (nonlinear_arith)
                requires
                    space_w >= 0,
                    k - 1 - j >= 1,
            ;
        }
    } else {
        let w = text_width(m, size, words[k]);
        lemma_text_width_bounds(m, size, words[k]);
        let ww2 = ww + w;
        let sw = space_w * (k - j);
        assert(space_w * (k - j) >= 0) by (nonlinear_arith)
            requires
                space_w >= 0,
                k - j >= 0,
        ;
        if ww2 + sw >= max_w {
            if k == j || 5 * ww2 + 4 * sw <= 5 * max_w {
                assert(words_width(m, size, words, k, k + 1) == w + words_width(
                    m,
                    size,
                    words,
                    k + 1,
                    k + 1,
                ));
                if k + 1 - j >= 2 {
                    assert(5 * ww2 + 4 * sw <= 5 * max_w);
                    assert(ww2 <= max_w);
                }
            } else {
                assert(words_width(m, size, words, k, k) == 0);
                if k - j >= 2 {
                    assert(space_w * (k - 1 - j) >= 0) by (nonlinear_arith)
                        requires
                            space_w >= 0,
                            k - 1 - j >= 1,
                    ;
                }
            }
        } else {
            assert(space_w * ((k + 1) - 1 - j) == sw);
            lemma_fill_line(m, size, space_w, max_w, words, j, k + 1, ww2);
            let (end, wwf) = fill_line(m, size, space_w, max_w, words, j, k + 1, ww2);
            lemma_words_width_split(m, size, words, k, k + 1, end);
            assert(words_width(m, size, words, k, k + 1) == w + words_width(
                m,
                size,
                words,
                k + 1,
                k + 1,
            ));
        }
    }
}

/// The runs of one justified line: the words `j..end`, left to right from
/// `x`, each followed by the computed spacing.
pub open spec fn emit_words(
    m: FontMetrics,
    sf: SpanFont,
    colour: Colour,
    words: Seq<Seq<char>>,
    j: int,
    end: int,
    x: int,
    spacing: int,
    y: int,
) -> Seq<RunM>
    decreases end - j,
{
    if j >= end {
        Seq::empty()
    } else {
        seq![RunM { text: words[j], font: sf, colour, x, y }] + emit_words(
            m,
            sf,
            colour,
            words,
            j + 1,
            end,
            x + text_width(m, sf.size.0 as int, words[j]) + spacing,
            spacing,
            y,
        )
    }
}

/// The spring breaker from word `j` on: fill a line, justify it by
/// dividing the spare width evenly between its word gaps (a single-word
/// line gets no spacing term), emit its words, then move the baseline down
/// by the ascent and continue until the words run out.
pub open spec fn spring_lines(
    m: FontMetrics,
    sf: SpanFont,
    colour: Colour,
    words: Seq<Seq<char>>,
    j: int,
    x1: int,
    max_w: int,
    space_w: int,
    y: int,
    asc: int,
) -> Seq<RunM>
    decreases words.len() - j
        when 0 <= j <= words.len() && m.wf() && 0 <= sf.size.0 <= MAX_FONT_SIZE && space_w >= 0
        via spring_lines_dec
{
    if j >= words.len() {
        Seq::empty()
    } else {
        let (end, ww) = fill_line(m, sf.size.0 as int, space_w, max_w, words, j, j, 0);
        let n = end - j;
        let spacing = if n >= 2 {
            (max_w - ww) / (n - 1)
        } else {
            0
        };
        emit_words(m, sf, colour, words, j, end, x1, spacing, y) + spring_lines(
            m,
            sf,
            colour,
            words,
            end,
            x1,
            max_w,
            space_w,
            y - asc,
            asc,
        )
    }
}

#[via_fn]
proof fn spring_lines_dec(
    m: FontMetrics,
    sf: SpanFont,
    colour: Colour,
    words: Seq<Seq<char>>,
    j: int,
    x1: int,
    max_w: int,
    space_w: int,
    y: int,
    asc: int,
) {
    if 0 <= j < words.len() {
        lemma_fill_line(m, sf.size.0 as int, space_w, max_w, words, j, j, 0);
    }
}

/// Everything the spring breaker emits for `text` in the box: its words,
/// split on white space, justified line by line from the top of the box.
pub open spec fn spring_runs(m: FontMetrics, sf: SpanFont, text: Seq<char>, bbox: Rect) -> Seq<
    RunM,
> {
    let size = sf.size.0 as int;
    let asc = scaled(size, m.ascender as int, m.units_per_em as int);
    spring_lines(
        m,
        sf,
        Colour::Grey { g: 0 },
        split_words(text),
        0,
        bbox.x1.0 as int,
        bbox.x2.0 - bbox.x1.0,
        char_width(m, size, ' '),
        bbox.y2.0 - asc,
        asc,
    )
}

/// The sequence-of-sequences view of a vector of character vectors.
pub open spec fn words_view(s: Seq<Vec<char>>) -> Seq<Seq<char>> {
    s.map_values(|v: Vec<char>| v@)
}

/// A text splits into at most as many words as it has characters.
pub proof fn lemma_split_words_count(s: Seq<char>, j: int)
    requires
        0 <= j <= s.len(),
    ensures
        split_words_from(s, j).len() <= s.len() - j,
    decreases s.len() - j,
{
    lemma_skip_all_ws_bounds(s, j);
    let j2 = skip_all_ws(s, j);
    if j2 < s.len() {
        lemma_word_end_bounds(s, j2);
        lemma_split_words_count(s, word_end(s, j2));
    }
}

/// Copy the characters `from..to` of a character vector.
fn mid_chars(cs: &Vec<char>, from: usize, to: usize) -> (r: Vec<char>)
    requires
        from <= to <= cs@.len(),
    ensures
        r@ == cs@.subrange(from as int, to as int),
{
    let mut out: Vec<char> = Vec::new();
    let mut i: usize = from;
    while i < to
        invariant
            from <= i <= to <= cs@.len(),
            out@ == cs@.subrange(from as int, i as int),
        decreases to - i,
    {
        out.push(cs[i]);
        proof {
            assert(cs@.subrange(from as int, i + 1) =~= cs@.subrange(from as int, i as int).push(
                cs@[i as int],
            ));
        }
        i = i + 1;
    }
    out
}

/// Advance past white space of any kind.
fn skip_all_ws_exec(cs: &Vec<char>, from: usize) -> (r: usize)
    requires
        from <= cs@.len(),
    ensures
        r as int == skip_all_ws(cs@, from as int),
        from <= r <= cs@.len(),
{
    let mut j = from;
    while j < cs.len() && is_whitespace_char(cs[j])
        invariant
            from <= j <= cs@.len(),
            skip_all_ws(cs@, from as int) == skip_all_ws(cs@, j as int),
        decreases cs@.len() - j,
    {
        j = j + 1;
    }
    j
}

/// Advance to the end of the word starting at `from`.
fn word_end_exec(cs: &Vec<char>, from: usize) -> (r: usize)
    requires
        from <= cs@.len(),
    ensures
        r as int == word_end(cs@, from as int),
        from <= r <= cs@.len(),
{
    let mut j = from;
    while j < cs.len() && !is_whitespace_char(cs[j])
        invariant
            from <= j <= cs@.len(),
            word_end(cs@, from as int) == word_end(cs@, j as int),
        decreases cs@.len() - j,
    {
        j = j + 1;
    }
    j
}

/// Split a text into its words and measure each word's width.
fn split_words_exec(cs: &Vec<char>, font: &FontMetrics, size: i64) -> (r: (Vec<Vec<char>>, Vec<
    i64,
>))
    requires
        font.wf(),
        0 <= size <= MAX_FONT_SIZE,
        cs@.len() <= MAX_TEXT_LEN,
    ensures
        words_view(r.0@) == split_words(cs@),
        r.1@.len() == r.0@.len(),
        forall|i: int|
            0 <= i < r.0@.len() ==> #[trigger] r.1@[i] == text_width(
                *font,
                size as int,
                r.0@[i]@,
            ) && 0 <= r.1@[i] <= MAX_TEXT_LEN * MAX_SCALED,
{
    let mut words: Vec<Vec<char>> = Vec::new();
    let mut widths: Vec<i64> = Vec::new();
    let mut pos: usize = 0;
    proof {
        assert(words_view(words@) + split_words_from(cs@, 0) =~~= split_words(cs@));
    }
    loop
        invariant
            font.wf(),
            0 <= size <= MAX_FONT_SIZE,
            cs@.len() <= MAX_TEXT_LEN,
            0 <= pos <= cs@.len(),
            words_view(words@) + split_words_from(cs@, pos as int) == split_words(cs@),
            widths@.len() == words@.len(),
            forall|i: int|
                0 <= i < words@.len() ==> #[trigger] widths@[i] == text_width(
                    *font,
                    size as int,
                    words@[i]@,
                ) && 0 <= widths@[i] <= MAX_TEXT_LEN * MAX_SCALED,
        ensures
            words_view(words@) == split_words(cs@),
            widths@.len() == words@.len(),
            forall|i: int|
                0 <= i < words@.len() ==> #[trigger] widths@[i] == text_width(
                    *font,
                    size as int,
                    words@[i]@,
                ) && 0 <= widths@[i] <= MAX_TEXT_LEN * MAX_SCALED,
        decreases cs@.len() - pos,
    {
        let pos2 = skip_all_ws_exec(cs, pos);
        if pos2 >= cs.len() {
            proof {
                assert(split_words_from(cs@, pos as int) =~~= Seq::<Seq<char>>::empty());
                assert(words_view(words@) =~~= split_words(cs@));
            }
            break;
        }
        let e = word_end_exec(cs, pos2);
        proof {
            lemma_skip_all_ws_bounds(cs@, pos as int);
            lemma_word_end_bounds(cs@, pos2 as int);
            assert(e > pos2);
        }
        let word = mid_chars(cs, pos2, e);
        let w = width_of_chars(&word, font, size);
        let ghost words_old = words@;
        words.push(word);
        widths.push(w);
        proof {
            assert(words_view(words@) =~~= words_view(words_old).push(cs@.subrange(
                pos2 as int,
                e as int,
            )));
            assert(split_words_from(cs@, pos as int) =~~= seq![cs@.subrange(pos2 as int, e as int)]
                + split_words_from(cs@, e as int));
            assert(words_view(words@) + split_words_from(cs@, e as int) =~~= split_words(cs@));
        }
        pos = e;
    }
    (words, widths)
}

/// Fill one justified line starting at word `j`, as `fill_line` does, from
/// precomputed word widths.
fn fill_line_exec(
    widths: &Vec<i64>,
    space_w: i64,
    max_w: i64,
    j: usize,
    Ghost(m): Ghost<FontMetrics>,
    Ghost(size): Ghost<int>,
    Ghost(words): Ghost<Seq<Seq<char>>>,
) -> (r: (usize, i64))
    requires
        m.wf(),
        0 <= size <= MAX_FONT_SIZE,
        widths@.len() == words.len(),
        words.len() <= MAX_TEXT_LEN,
        forall|i: int|
            0 <= i < words.len() ==> #[trigger] widths@[i] == text_width(m, size, words[i]) && 0
                <= widths@[i] <= MAX_TEXT_LEN * MAX_SCALED,
        0 <= space_w <= MAX_SCALED,
        -2 * MAX_COORD <= max_w <= 2 * MAX_COORD,
        j < words.len(),
    ensures
        (r.0 as int, r.1 as int) == fill_line(
            m,
            size,
            space_w as int,
            max_w as int,
            words,
            j as int,
            j as int,
            0,
        ),
        j + 1 <= r.0 <= words.len(),
        0 <= r.1 <= 2 * MAX_COORD + MAX_TEXT_LEN * MAX_SCALED,
        r.1 == words_width(m, size, words, j as int, r.0 as int),
        r.0 - j >= 2 ==> r.1 <= max_w,
{
    let ghost target = fill_line(m, size, space_w as int, max_w as int, words, j as int, j as int, 0);
    let mut k = j;
    let mut ww: i64 = 0;
    loop
        invariant
            m.wf(),
            0 <= size <= MAX_FONT_SIZE,
            widths@.len() == words.len(),
            words.len() <= MAX_TEXT_LEN,
            forall|i: int|
                0 <= i < words.len() ==> #[trigger] widths@[i] == text_width(m, size, words[i])
                    && 0 <= widths@[i] <= MAX_TEXT_LEN * MAX_SCALED,
            0 <= space_w <= MAX_SCALED,
            -2 * MAX_COORD <= max_w <= 2 * MAX_COORD,
            j < words.len(),
            j <= k <= words.len(),
            0 <= ww,
            k > j ==> ww + space_w * (k - 1 - j) < max_w,
            k == j ==> ww == 0,
            ww <= 2 * MAX_COORD,
            ww == words_width(m, size, words, j as int, k as int),
            fill_line(m, size, space_w as int, max_w as int, words, j as int, k as int, ww as int)
                == target,
            target == fill_line(
                m,
                size,
                space_w as int,
                max_w as int,
                words,
                j as int,
                j as int,
                0,
            ),
        decreases words.len() - k,
    {
        proof {
            if k > j {
                assert(space_w * (k as int - 1 - j as int) >= 0) by (nonlinear_arith)
                    requires
                        space_w >= 0,
                        k as int - 1 - j as int >= 0,
                ;
            }
        }
        if k >= widths.len() {
            proof {
                assert(target == (k as int, ww as int));
            }
            return (k, ww);
        }
        let w = widths[k];
        proof {
            assert(0 <= space_w * (k as int - j as int) <= MAX_TEXT_LEN * MAX_SCALED)
                by (nonlinear_arith)
                requires
                    0 <= space_w <= MAX_SCALED,
                    0 <= k as int - j as int <= MAX_TEXT_LEN,
            ;
        }
        let ww2 = ww + w;
        let sw = space_w * ((k - j) as i64);
        if ww2 + sw >= max_w {
            if k == j || 5 * ww2 + 4 * sw <= 5 * max_w {
                proof {
                    lemma_words_width_split(m, size, words, j as int, k as int, k + 1);
                    assert(words_width(m, size, words, k as int, k + 1) == text_width(
                        m,
                        size,
                        words[k as int],
                    ) + words_width(m, size, words, k + 1, k + 1));
                    assert(target == (k + 1 as int, ww2 as int));
                    lemma_words_width_nonneg(m, size, words, j as int, k + 1);
                }
                return (k + 1, ww2);
            } else {
                proof {
                    assert(target == (k as int, ww as int));
                }
                return (k, ww);
            }
        } else {
            proof {
                lemma_words_width_split(m, size, words, j as int, k as int, k + 1);
                assert(words_width(m, size, words, k as int, k + 1) == text_width(
                    m,
                    size,
                    words[k as int],
                ) + words_width(m, size, words, k + 1, k + 1));
                assert(space_w * ((k + 1) as int - 1 - j as int) == space_w * (k as int
                    - j as int));
                lemma_words_width_nonneg(m, size, words, j as int, k + 1);
            }
            ww = ww2;
            k = k + 1;
        }
    }
}

/// Lay a single run of text out as justified lines: split it into words,
/// fill each line as far as the width allows, then widen the word gaps
/// evenly so every line spans the box width (a single-word line is placed
/// flush left, with no spacing computed). Lines advance from the top of
/// the box by the font's ascent; the spring breaker checks no vertical
/// bound, so callers must bound the input themselves.
#[verifier::loop_isolation(false)]
pub fn layout_text_spring(
    fonts: &Vec<FontMetrics>,
    page: &mut Page,
    font_id: usize,
    size: Pt,
    text: &str,
    bounding_box: Rect,
)
    requires
        font_id < fonts@.len(),
        fonts@[font_id as int].wf(),
        fonts@[font_id as int].ascender >= 0,
        0 <= size.0 <= MAX_FONT_SIZE,
        text@.len() <= MAX_TEXT_LEN,
        -MAX_COORD <= bounding_box.x1.0 <= MAX_COORD,
        -MAX_COORD <= bounding_box.y1.0 <= MAX_COORD,
        -MAX_COORD <= bounding_box.x2.0 <= MAX_COORD,
        -MAX_COORD <= bounding_box.y2.0 <= MAX_COORD,
    ensures
        ({
            let runs = spring_runs(
                fonts@[font_id as int],
                SpanFont { id: font_id, size },
                text@,
                bounding_box,
            );
            &&& final(page).media_box == old(page).media_box
            &&& final(page).content_box == old(page).content_box
            &&& final(page).contents@.len() == old(page).contents@.len() + runs.len()
            &&& forall|j: int|
                0 <= j < old(page).contents@.len() ==> final(page).contents@[j] == old(
                    page,
                ).contents@[j]
            &&& forall|j: int|
                0 <= j < runs.len() ==> content_matches_run(
                    #[trigger] final(page).contents@[old(page).contents@.len() + j],
                    runs[j],
                )
        }),
{
    let font = &fonts[font_id];
    let sf = SpanFont { id: font_id, size };
    let colour = Colour::Grey { g: 0 };
    let cs = str_chars(text);
    let wr = split_words_exec(&cs, font, size.0);
    let words = wr.0;
    let widths = wr.1;
    let ghost w_seq = words_view(words@);
    proof {
        lemma_split_words_count(cs@, 0);
    }
    let asc = crate::font::scale_metric(size.0, font.ascender as i64, font.units_per_em);
    let space_w: i64 = match font.lookup(' ') {
        Some(e) => crate::font::scale_metric(size.0, e.advance as i64, font.units_per_em),
        None => 0,
    };
    proof {
        assert(space_w == char_width(*font, size.0 as int, ' '));
        lemma_char_width_bounds(*font, size.0 as int, ' ');
    }
    let x1 = bounding_box.x1.0;
    let max_w = bounding_box.x2.0 - x1;
    let mut y = bounding_box.y2.0 - asc;
    let mut j: usize = 0;
    let ghost total0 = spring_runs(*font, sf, text@, bounding_box);
    let ghost mut acc: Seq<RunM> = Seq::empty();
    proof {
        assert(total0 == spring_lines(
            *font,
            sf,
            colour,
            w_seq,
            0,
            x1 as int,
            max_w as int,
            space_w as int,
            y as int,
            asc as int,
        ));
        assert(acc + spring_lines(
            *font,
            sf,
            colour,
            w_seq,
            0,
            x1 as int,
            max_w as int,
            space_w as int,
            y as int,
            asc as int,
        ) =~= spring_lines(
            *font,
            sf,
            colour,
            w_seq,
            0,
            x1 as int,
            max_w as int,
            space_w as int,
            y as int,
            asc as int,
        ));
    }
    while j < words.len()
        invariant
            0 <= j <= w_seq.len(),
            w_seq.len() <= MAX_TEXT_LEN,
            -MAX_COORD - MAX_SCALED - (j as int) * MAX_SCALED <= y <= MAX_COORD,
            page.media_box == old(page).media_box,
            page.content_box == old(page).content_box,
            page.contents@.len() == old(page).contents@.len() + acc.len(),
            forall|i: int|
                0 <= i < old(page).contents@.len() ==> page.contents@[i] == old(
                    page,
                ).contents@[i],
            forall|i: int|
                0 <= i < acc.len() ==> content_matches_run(
                    #[trigger] page.contents@[old(page).contents@.len() + i],
                    acc[i],
                ),
            total0 == acc + spring_lines(
                *font,
                sf,
                colour,
                w_seq,
                j as int,
                x1 as int,
                max_w as int,
                space_w as int,
                y as int,
                asc as int,
            ),
        decreases w_seq.len() - j,
    {
        let fl = fill_line_exec(
            &widths,
            space_w,
            max_w,
            j,
            Ghost(*font),
            Ghost(size.0 as int),
            Ghost(w_seq),
        );
        let end = fl.0;
        let ww = fl.1;
        let n = end - j;
        let spacing: i64 = if n >= 2 {
            proof {
                vstd::arithmetic::div_mod::lemma_div_pos_is_pos(max_w as int - ww as int, n - 1);
                vstd::arithmetic::div_mod::lemma_div_nonincreasing(max_w as int - ww as int, n - 1);
            }
            (max_w - ww) / ((n - 1) as i64)
        } else {
            0
        };
        let ghost spare: int = if n >= 2 {
            max_w - ww
        } else {
            0
        };
        proof {
            if n >= 2 {
                vstd::arithmetic::div_mod::lemma_fundamental_div_mod(
                    max_w as int - ww as int,
                    n as int - 1,
                );
                vstd::arithmetic::div_mod::lemma_mod_bound(max_w as int - ww as int, n as int - 1);
                assert((n - 1) * spacing <= spare);
            }
            assert(0 <= spacing <= 4 * MAX_COORD);
        }
        let ghost line_runs = emit_words(
            *font,
            sf,
            colour,
            w_seq,
            j as int,
            end as int,
            x1 as int,
            spacing as int,
            y as int,
        );
        let mut x = x1;
        let mut jj = j;
        let ghost mut acc_line: Seq<RunM> = Seq::empty();
        proof {
            assert(Seq::<RunM>::empty() + line_runs =~= line_runs);
            assert(words_width(*font, size.0 as int, w_seq, j as int, j as int) == 0);
        }
        while jj < end
            invariant
                j <= jj <= end,
                x as int == x1 + words_width(*font, size.0 as int, w_seq, j as int, jj as int) + (
                jj - j) * spacing,
                (jj - j) * spacing <= spare + spacing,
                words_width(*font, size.0 as int, w_seq, j as int, jj as int) <= ww,
                page.contents@.len() == old(page).contents@.len() + acc.len() + acc_line.len(),
                forall|i: int|
                    0 <= i < old(page).contents@.len() ==> page.contents@[i] == old(
                        page,
                    ).contents@[i],
                forall|i: int|
                    0 <= i < acc.len() ==> content_matches_run(
                        #[trigger] page.contents@[old(page).contents@.len() + i],
                        acc[i],
                    ),
                forall|i: int|
                    0 <= i < acc_line.len() ==> content_matches_run(
                        #[trigger] page.contents@[old(page).contents@.len() + acc.len() + i],
                        acc_line[i],
                    ),
                page.media_box == old(page).media_box,
                page.content_box == old(page).content_box,
                line_runs == acc_line + emit_words(
                    *font,
                    sf,
                    colour,
                    w_seq,
                    jj as int,
                    end as int,
                    x as int,
                    spacing as int,
                    y as int,
                ),
            decreases end - jj,
        {
            let t = chars_to_string(&words[jj]);
            let ghost head = RunM { text: w_seq[jj as int], font: sf, colour, x: x as int, y: y as int };
            page.add_span(SpanLayout { text: t, font: sf, colour, coords: (Pt(x), Pt(y)) });
            proof {
                acc_line = acc_line.push(head);
                assert(emit_words(
                    *font,
                    sf,
                    colour,
                    w_seq,
                    jj as int,
                    end as int,
                    x as int,
                    spacing as int,
                    y as int,
                ) == seq![head] + emit_words(
                    *font,
                    sf,
                    colour,
                    w_seq,
                    jj + 1,
                    end as int,
                    x as int + text_width(*font, size.0 as int, w_seq[jj as int]) + spacing,
                    spacing as int,
                    y as int,
                ));
                lemma_words_width_split(*font, size.0 as int, w_seq, j as int, jj as int, jj + 1);
                assert(words_width(*font, size.0 as int, w_seq, jj as int, jj + 1) == text_width(
                    *font,
                    size.0 as int,
                    w_seq[jj as int],
                ) + words_width(*font, size.0 as int, w_seq, jj + 1, jj + 1));
                lemma_words_width_split(*font, size.0 as int, w_seq, j as int, jj + 1, end as int);
                lemma_words_width_nonneg(*font, size.0 as int, w_seq, jj + 1, end as int);
                lemma_words_width_nonneg(*font, size.0 as int, w_seq, j as int, jj + 1);
                assert((jj - j) * spacing <= (n - 1) * spacing) by (nonlinear_arith)
                    requires
                        jj as int - j as int <= n as int - 1,
                        spacing >= 0,
                ;
                assert((jj + 1 - j) * spacing == (jj - j) * spacing + spacing)
                    by (nonlinear_arith);
            }
            x = x + widths[jj] + spacing;
            jj = jj + 1;
            proof {
                assert(acc_line + emit_words(
                    *font,
                    sf,
                    colour,
                    w_seq,
                    jj as int,
                    end as int,
                    x as int,
                    spacing as int,
                    y as int,
                ) =~= line_runs);
            }
        }
        proof {
            assert(emit_words(
                *font,
                sf,
                colour,
                w_seq,
                end as int,
                end as int,
                x as int,
                spacing as int,
                y as int,
            ) =~= Seq::<RunM>::empty());
            assert(line_runs =~= acc_line);
            assert(spring_lines(
                *font,
                sf,
                colour,
                w_seq,
                j as int,
                x1 as int,
                max_w as int,
                space_w as int,
                y as int,
                asc as int,
            ) == line_runs + spring_lines(
                *font,
                sf,
                colour,
                w_seq,
                end as int,
                x1 as int,
                max_w as int,
                space_w as int,
                y as int - asc as int,
                asc as int,
            ));
            let ghost acc_before = acc;
            acc = acc + line_runs;
            assert forall|i2: int| 0 <= i2 < acc.len() implies content_matches_run(
                #[trigger] page.contents@[old(page).contents@.len() + i2],
                acc[i2],
            ) by {
                if i2 < acc_before.len() {
                    assert(acc[i2] == acc_before[i2]);
                } else {
                    let kk = i2 - acc_before.len();
                    assert(acc[i2] == line_runs[kk]);
                    assert(line_runs[kk] == acc_line[kk]);
                    assert(content_matches_run(
                        page.contents@[old(page).contents@.len() + acc_before.len() + kk],
                        acc_line[kk],
                    ));
                    assert(old(page).contents@.len() + acc_before.len() + kk == old(
                        page,
                    ).contents@.len() + i2);
                }
            }
            assert(acc + spring_lines(
                *font,
                sf,
                colour,
                w_seq,
                end as int,
                x1 as int,
                max_w as int,
                space_w as int,
                y as int - asc as int,
                asc as int,
            ) =~= total0);
        }
        y = y - asc;
        j = end;
    }
    proof {
        assert(spring_lines(
            *font,
            sf,
            colour,
            w_seq,
            j as int,
            x1 as int,
            max_w as int,
            space_w as int,
            y as int,
            asc as int,
        ) =~= Seq::<RunM>::empty());
        assert(total0 =~= acc);
    }
}

/// Spring justification: a line of two or more words is justified exactly.
/// The words' widths plus `(wordCount - 1)` spacing gaps reproduce the line
/// width, short only of the integer-division remainder, which is less than
/// `wordCount - 1` thousandths of a point; and a single-word line computes
/// no spacing at all, so no division by zero can occur.
pub proof fn lemma_spring_justification(
    m: FontMetrics,
    size: int,
    space_w: int,
    max_w: int,
    words: Seq<Seq<char>>,
    j: int,
)
    requires
        m.wf(),
        0 <= size <= MAX_FONT_SIZE,
        space_w >= 0,
        0 <= j < words.len(),
    ensures
        ({
            let (end, ww) = fill_line(m, size, space_w, max_w, words, j, j, 0);
            let n = end - j;
            &&& n >= 1
            &&& (n >= 2 ==> {
                let spacing = (max_w - ww) / (n - 1);
                &&& spacing >= 0
                &&& max_w - (n - 2) <= ww + (n - 1) * spacing <= max_w
            })
        }),
{
    lemma_fill_line(m, size, space_w, max_w, words, j, j, 0);
    let (end, ww) = fill_line(m, size, space_w, max_w, words, j, j, 0);
    let n = end - j;
    if n >= 2 {
        vstd::arithmetic::div_mod::lemma_fundamental_div_mod(max_w - ww, n - 1);
        vstd::arithmetic::div_mod::lemma_mod_bound(max_w - ww, n - 1);
        vstd::arithmetic::div_mod::lemma_div_pos_is_pos(max_w - ww, n - 1);
    }
}

/// Whether every drawable character of a chunk has a glyph of its own, so
/// that measuring and drawing agree on its advance.
pub open spec fn mapped_all(m: FontMetrics, chars: Seq<char>) -> bool {
    forall|i: int| 0 <= i < chars.len() && chars[i] != '\n' ==> m.maps(#[trigger] chars[i])
}

/// Whether every drawable character of a chunk fits on a fresh wrapped
/// line, so that even a forced character break stays inside the box.
pub open spec fn fits_all(env: LineEnvM, chars: Seq<char>) -> bool {
    forall|i: int|
        0 <= i < chars.len() && chars[i] != '\n' ==> env.start_x + env.wrap + env.adv(
            #[trigger] chars[i],
        ) < env.x2
}

/// What the no-overflow invariant asks of one emitted run: it ends before
/// the right edge of the box, and it sits on the start line or above the
/// lowest baseline that still fits.
pub open spec fn run_in_box(env: LineEnvM, y0: int, r: RunM) -> bool {
    &&& r.x + text_width(env.m, env.font.size.0 as int, r.text) < env.x2
    &&& r.y == y0 || r.y >= env.bottom
}

/// Any scaled metric of a font unit value lies within `MAX_SCALED`.
pub proof fn lemma_scaled_bounds(size: int, m: int, upm: int)
    requires
        0 <= size <= MAX_FONT_SIZE,
        -65536 <= m <= 65536,
        1 <= upm,
    ensures
        -MAX_SCALED <= scaled(size, m, upm) <= MAX_SCALED,
{
    if m >= 0 {
        lemma_scaled_adv_bounds(size, m, upm);
    } else {
        lemma_scaled_adv_bounds(size, -m, upm);
    }
}

/// A layout environment built from bounded geometry and a well-formed font
/// is well formed.
pub proof fn lemma_env_wf(
    m: FontMetrics,
    sf: SpanFont,
    colour: Colour,
    start_x: int,
    wrap: int,
    bbox: Rect,
)
    requires
        m.wf(),
        0 <= sf.size.0 <= MAX_FONT_SIZE,
        -MAX_COORD <= start_x <= MAX_COORD,
        -MAX_COORD <= wrap <= MAX_COORD,
        -MAX_COORD <= bbox.x1.0 <= MAX_COORD,
        -MAX_COORD <= bbox.y1.0 <= MAX_COORD,
        -MAX_COORD <= bbox.x2.0 <= MAX_COORD,
        -MAX_COORD <= bbox.y2.0 <= MAX_COORD,
    ensures
        env_of(m, sf, colour, start_x, wrap, bbox).wf(),
{
    let size = sf.size.0 as int;
    lemma_scaled_bounds(size, m.descender as int, m.units_per_em as int);
    lemma_scaled_bounds(size, m.ascender as int, m.units_per_em as int);
    lemma_scaled_bounds(size, m.line_gap as int, m.units_per_em as int);
}

/// A directly mapped character draws with its own measured advance.
proof fn lemma_mapped_adv(env: LineEnvM, c: char)
    requires
        env.m.maps(c),
    ensures
        env.adv(c) == char_width(env.m, env.font.size.0 as int, c),
{
}

/// A prefix of a text is no wider than the text.
proof fn lemma_text_width_prefix(m: FontMetrics, size: int, s: Seq<char>, n: int)
    requires
        m.wf(),
        0 <= size <= MAX_FONT_SIZE,
        0 <= n <= s.len(),
    ensures
        text_width(m, size, s.take(n)) <= text_width(m, size, s),
{
    assert(s =~= s.take(n) + s.skip(n));
    lemma_text_width_concat(m, size, s.take(n), s.skip(n));
    lemma_text_width_bounds(m, size, s.skip(n));
}

/// No overflow for the naive breaker, one chunk at a time: when every
/// drawable character is mapped and fits on a fresh wrapped line, every run
/// the breaker emits ends before the right edge of the box, and sits on the
/// start line or above the lowest baseline that still fits.
pub proof fn lemma_naive_chunk_in_box(
    env: LineEnvM,
    chars: Seq<char>,
    i: int,
    x: int,
    y: int,
    cur: RunM,
    acc: Seq<RunM>,
    y0: int,
)
    requires
        env.wf(),
        0 <= i <= chars.len(),
        mapped_all(env.m, chars),
        fits_all(env, chars),
        x == cur.x + text_width(env.m, env.font.size.0 as int, cur.text),
        cur.text.len() > 0 ==> x < env.x2,
        y == cur.y,
        y == y0 || y >= env.bottom,
        forall|j: int| 0 <= j < acc.len() ==> run_in_box(env, y0, #[trigger] acc[j]),
    ensures
        forall|j: int|
            0 <= j < naive_chunk(env, chars, i, x, y, cur, acc).runs.len() ==> run_in_box(
                env,
                y0,
                #[trigger] naive_chunk(env, chars, i, x, y, cur, acc).runs[j],
            ),
    decreases chars.len() - i,
{
    let size = env.font.size.0 as int;
    assert(run_in_box(env, y0, cur) || cur.text.len() == 0);
    if i >= chars.len() {
    } else {
        let c = chars[i];
        if c == '\n' {
            let yn = y - env.line_gap;
            if yn < env.bottom {
            } else {
                lemma_naive_chunk_in_box(
                    env,
                    chars,
                    i + 1,
                    env.start_x,
                    yn,
                    fresh_run(env, env.start_x, yn),
                    push_if(acc, cur),
                    y0,
                );
            }
        } else {
            let adv = env.adv(c);
            lemma_mapped_adv(env, c);
            lemma_char_width_bounds(env.m, size, c);
            if x + adv >= env.x2 {
                let xn = env.start_x + env.wrap;
                let yn = y - env.line_gap;
                if yn < env.bottom {
                } else {
                    let started = RunM {
                        text: seq![c],
                        font: env.font,
                        colour: env.colour,
                        x: xn,
                        y: yn,
                    };
                    assert(text_width(env.m, size, seq![c]) == char_width(env.m, size, c)) by {
                        assert(seq![c][0] == c);
                        assert(seq![c].skip(1) =~= Seq::<char>::empty());
                        assert(text_width(env.m, size, Seq::<char>::empty()) == 0);
                    }
                    lemma_naive_chunk_in_box(
                        env,
                        chars,
                        i + 1,
                        xn + adv,
                        yn,
                        started,
                        push_if(acc, cur),
                        y0,
                    );
                }
            } else {
                let cur2 = RunM { text: cur.text.push(c), ..cur };
                lemma_text_width_snoc(env.m, size, cur.text, c);
                lemma_naive_chunk_in_box(env, chars, i + 1, x + adv, y, cur2, acc, y0);
            }
        }
    }
}

/// No overflow for the naive breaker over a whole single-font queue: every
/// emitted run ends before the right edge of the box and sits on the start
/// line or above the lowest baseline that still fits. A run placed by a
/// forced character break needs every glyph to fit on a fresh wrapped
/// line, so the fit of each chunk's characters is assumed.
pub proof fn lemma_layout_naive_in_box(
    fonts: Seq<FontMetrics>,
    start_x: int,
    wrap: int,
    bbox: Rect,
    chunks: Seq<ChunkM>,
    k: int,
    x: int,
    y: int,
    acc: Seq<RunM>,
    sf: SpanFont,
    y0: int,
)
    requires
        0 <= k <= chunks.len(),
        sf.id < fonts.len(),
        fonts[sf.id as int].wf(),
        0 <= sf.size.0 <= MAX_FONT_SIZE,
        -MAX_COORD <= start_x <= MAX_COORD,
        -MAX_COORD <= wrap <= MAX_COORD,
        -MAX_COORD <= bbox.x1.0 <= MAX_COORD,
        -MAX_COORD <= bbox.y1.0 <= MAX_COORD,
        -MAX_COORD <= bbox.x2.0 <= MAX_COORD,
        -MAX_COORD <= bbox.y2.0 <= MAX_COORD,
        forall|j: int| 0 <= j < chunks.len() ==> (#[trigger] chunks[j]).2 == sf,
        forall|j: int|
            0 <= j < chunks.len() ==> mapped_all(
                fonts[sf.id as int],
                normalize((#[trigger] chunks[j]).0),
            ) && fits_all(
                env_of(fonts[sf.id as int], sf, chunks[j].1, start_x, wrap, bbox),
                normalize(chunks[j].0),
            ),
        ({
            let env0 = env_of(fonts[sf.id as int], sf, Colour::Grey { g: 0 }, start_x, wrap, bbox);
            y == y0 || y >= env0.bottom
        }),
        forall|j: int|
            0 <= j < acc.len() ==> run_in_box(
                env_of(
                    fonts[sf.id as int],
                    sf,
                    (#[trigger] acc[j]).colour,
                    start_x,
                    wrap,
                    bbox,
                ),
                y0,
                acc[j],
            ),
    ensures
        ({
            let q = naive_queue(fonts, start_x, wrap, bbox, chunks, k, x, y, acc);
            forall|j: int|
                0 <= j < q.runs.len() ==> run_in_box(
                    env_of(
                        fonts[sf.id as int],
                        sf,
                        (#[trigger] q.runs[j]).colour,
                        start_x,
                        wrap,
                        bbox,
                    ),
                    y0,
                    q.runs[j],
                )
        }),
    decreases chunks.len() - k,
{
    if k < 0 || k >= chunks.len() {
    } else {
        let (txt, colour, font) = chunks[k];
        let env = env_of(fonts[font.id as int], font, colour, start_x, wrap, bbox);
        let chars = normalize(txt);
        let out = naive_chunk(env, chars, 0, x, y, fresh_run(env, x, y), Seq::empty());
        lemma_env_wf(fonts[font.id as int], font, colour, start_x, wrap, bbox);
        lemma_naive_chunk_in_box(env, chars, 0, x, y, fresh_run(env, x, y), Seq::empty(), y0);
        lemma_naive_chunk_state(env, chars, 0, x, y, fresh_run(env, x, y), Seq::empty(), y0);
        assert forall|j: int| 0 <= j < out.runs.len() implies run_in_box(
            env_of(fonts[sf.id as int], sf, (#[trigger] out.runs[j]).colour, start_x, wrap, bbox),
            y0,
            out.runs[j],
        ) by {
            assert(run_in_box(env, y0, out.runs[j]));
            let envj = env_of(
                fonts[sf.id as int],
                sf,
                out.runs[j].colour,
                start_x,
                wrap,
                bbox,
            );
            assert(envj.x2 == env.x2 && envj.bottom == env.bottom && envj.m == env.m && envj.font
                == env.font);
        }
        match out.stop {
            None => {
                assert forall|j: int| 0 <= j < (acc + out.runs).len() implies run_in_box(
                    env_of(
                        fonts[sf.id as int],
                        sf,
                        (#[trigger] (acc + out.runs)[j]).colour,
                        start_x,
                        wrap,
                        bbox,
                    ),
                    y0,
                    (acc + out.runs)[j],
                ) by {
                    if j < acc.len() {
                        assert((acc + out.runs)[j] == acc[j]);
                    } else {
                        assert((acc + out.runs)[j] == out.runs[j - acc.len()]);
                    }
                }
                lemma_layout_naive_in_box(
                    fonts,
                    start_x,
                    wrap,
                    bbox,
                    chunks,
                    k + 1,
                    out.x,
                    out.y,
                    acc + out.runs,
                    sf,
                    y0,
                );
            },
            Some(_) => {
                assert forall|j: int|
                    0 <= j < naive_queue(
                        fonts,
                        start_x,
                        wrap,
                        bbox,
                        chunks,
                        k,
                        x,
                        y,
                        acc,
                    ).runs.len() implies run_in_box(
                    env_of(
                        fonts[sf.id as int],
                        sf,
                        (#[trigger] naive_queue(
                            fonts,
                            start_x,
                            wrap,
                            bbox,
                            chunks,
                            k,
                            x,
                            y,
                            acc,
                        ).runs[j]).colour,
                        start_x,
                        wrap,
                        bbox,
                    ),
                    y0,
                    naive_queue(fonts, start_x, wrap, bbox, chunks, k, x, y, acc).runs[j],
                ) by {
                    if j < acc.len() {
                        assert((acc + out.runs)[j] == acc[j]);
                    } else {
                        assert((acc + out.runs)[j] == out.runs[j - acc.len()]);
                    }
                }
            },
        }
    }
}

/// A naive chunk that does not stop leaves its cursor on the start line or
/// above the lowest baseline that still fits.
proof fn lemma_naive_chunk_state(
    env: LineEnvM,
    chars: Seq<char>,
    i: int,
    x: int,
    y: int,
    cur: RunM,
    acc: Seq<RunM>,
    y0: int,
)
    requires
        0 <= i <= chars.len(),
        y == y0 || y >= env.bottom,
    ensures
        ({
            let out = naive_chunk(env, chars, i, x, y, cur, acc);
            out.stop is None ==> (out.y == y0 || out.y >= env.bottom)
        }),
    decreases chars.len() - i,
{
    if i >= chars.len() {
    } else {
        let c = chars[i];
        if c == '\n' {
            let yn = y - env.line_gap;
            if yn >= env.bottom {
                lemma_naive_chunk_state(
                    env,
                    chars,
                    i + 1,
                    env.start_x,
                    yn,
                    fresh_run(env, env.start_x, yn),
                    push_if(acc, cur),
                    y0,
                );
            }
        } else {
            let adv = env.adv(c);
            if x + adv >= env.x2 {
                let yn = y - env.line_gap;
                if yn >= env.bottom {
                    let started = RunM {
                        text: seq![c],
                        font: env.font,
                        colour: env.colour,
                        x: env.start_x + env.wrap,
                        y: yn,
                    };
                    lemma_naive_chunk_state(
                        env,
                        chars,
                        i + 1,
                        env.start_x + env.wrap + adv,
                        yn,
                        started,
                        push_if(acc, cur),
                        y0,
                    );
                }
            } else {
                let cur2 = RunM { text: cur.text.push(c), ..cur };
                lemma_naive_chunk_state(env, chars, i + 1, x + adv, y, cur2, acc, y0);
            }
        }
    }
}

/// No overflow for the natural breaker, one chunk at a time: as for the
/// naive breaker, with one more case — a rewind truncates the open run to a
/// prefix, which is no wider than the run itself.
pub proof fn lemma_nat_chunk_in_box(
    env: LineEnvM,
    chars: Seq<char>,
    i: int,
    x: int,
    y: int,
    cur: RunM,
    acc: Seq<RunM>,
    bp: Option<(int, int)>,
    line_prior: bool,
    y0: int,
)
    requires
        env.wf(),
        0 <= i <= chars.len(),
        bp matches Some(p) ==> 0 <= p.1 <= i && 0 <= p.0 <= cur.text.len(),
        mapped_all(env.m, chars),
        fits_all(env, chars),
        x == cur.x + text_width(env.m, env.font.size.0 as int, cur.text),
        cur.text.len() > 0 ==> x < env.x2,
        y == cur.y,
        y == y0 || y >= env.bottom,
        forall|j: int| 0 <= j < acc.len() ==> run_in_box(env, y0, #[trigger] acc[j]),
    ensures
        ({
            let out = nat_chunk(env, chars, i, x, y, cur, acc, bp, line_prior);
            forall|j: int|
                0 <= j < out.runs.len() ==> run_in_box(env, y0, #[trigger] out.runs[j])
        }),
    decreases
            chars.len() - (if bp is Some {
                bp->Some_0.1
            } else {
                i
            }),
            (if bp is Some {
                1int
            } else {
                0int
            }),
            chars.len() - i,
{
    let size = env.font.size.0 as int;
    assert(run_in_box(env, y0, cur) || cur.text.len() == 0);
    if i >= chars.len() {
    } else {
        let c = chars[i];
        if c == '\n' {
            let yn = y - env.line_gap;
            if yn >= env.bottom {
                lemma_nat_chunk_in_box(
                    env,
                    chars,
                    i + 1,
                    env.start_x,
                    yn,
                    fresh_run(env, env.start_x, yn),
                    push_if(acc, cur),
                    None,
                    false,
                    y0,
                );
            }
        } else {
            let adv = env.adv(c);
            lemma_mapped_adv(env, c);
            lemma_char_width_bounds(env.m, size, c);
            if x + adv >= env.x2 {
                if bp is Some {
                    let keep = bp->Some_0.0;
                    let resume = bp->Some_0.1;
                    let kept = RunM { text: cur.text.take(keep), ..cur };
                    lemma_text_width_prefix(env.m, size, cur.text, keep);
                    lemma_text_width_bounds(env.m, size, cur.text.take(keep));
                    assert(kept.text.len() > 0 ==> cur.text.len() > 0);
                    assert(run_in_box(env, y0, kept) || kept.text.len() == 0);
                    let acc2 = push_if(acc, kept);
                    let xn = env.start_x + env.wrap;
                    let yn = y - env.line_gap;
                    if yn >= env.bottom {
                        lemma_skip_ws_bounds(chars, resume);
                        lemma_nat_chunk_in_box(
                            env,
                            chars,
                            skip_ws(chars, resume),
                            xn,
                            yn,
                            fresh_run(env, xn, yn),
                            acc2,
                            None,
                            false,
                            y0,
                        );
                    }
                } else {
                    let acc2 = push_if(acc, cur);
                    let xn = env.start_x + env.wrap;
                    let yn = y - env.line_gap;
                    if yn >= env.bottom {
                        let started = RunM {
                            text: seq![c],
                            font: env.font,
                            colour: env.colour,
                            x: xn,
                            y: yn,
                        };
                        assert(text_width(env.m, size, seq![c]) == char_width(env.m, size, c)) by {
                            assert(seq![c][0] == c);
                            assert(seq![c].skip(1) =~= Seq::<char>::empty());
                            assert(text_width(env.m, size, Seq::<char>::empty()) == 0);
                        }
                        lemma_nat_chunk_in_box(
                            env,
                            chars,
                            i + 1,
                            xn + adv,
                            yn,
                            started,
                            acc2,
                            None,
                            false,
                            y0,
                        );
                    }
                }
            } else {
                let cur2 = RunM { text: cur.text.push(c), ..cur };
                let bp2 = if is_ws(c) && (cur.text.len() > 0 || line_prior) {
                    Some((cur.text.len() as int + 1, i + 1))
                } else {
                    bp
                };
                lemma_text_width_snoc(env.m, size, cur.text, c);
                lemma_nat_chunk_in_box(env, chars, i + 1, x + adv, y, cur2, acc, bp2, line_prior, y0);
            }
        }
    }
}

/// A natural chunk that does not stop leaves its cursor on the start line
/// or above the lowest baseline that still fits.
proof fn lemma_nat_chunk_state(
    env: LineEnvM,
    chars: Seq<char>,
    i: int,
    x: int,
    y: int,
    cur: RunM,
    acc: Seq<RunM>,
    bp: Option<(int, int)>,
    line_prior: bool,
    y0: int,
)
    requires
        0 <= i <= chars.len(),
        bp matches Some(p) ==> 0 <= p.1 <= i,
        y == y0 || y >= env.bottom,
    ensures
        ({
            let out = nat_chunk(env, chars, i, x, y, cur, acc, bp, line_prior);
            out.stop is None ==> (out.y == y0 || out.y >= env.bottom)
        }),
    decreases
            chars.len() - (if bp is Some {
                bp->Some_0.1
            } else {
                i
            }),
            (if bp is Some {
                1int
            } else {
                0int
            }),
            chars.len() - i,
{
    if i >= chars.len() {
    } else {
        let c = chars[i];
        if c == '\n' {
            let yn = y - env.line_gap;
            if yn >= env.bottom {
                lemma_nat_chunk_state(
                    env,
                    chars,
                    i + 1,
                    env.start_x,
                    yn,
                    fresh_run(env, env.start_x, yn),
                    push_if(acc, cur),
                    None,
                    false,
                    y0,
                );
            }
        } else {
            let adv = env.adv(c);
            if x + adv >= env.x2 {
                if bp is Some {
                    let keep = bp->Some_0.0;
                    let resume = bp->Some_0.1;
                    let kept = RunM { text: cur.text.take(keep), ..cur };
                    let acc2 = push_if(acc, kept);
                    let xn = env.start_x + env.wrap;
                    let yn = y - env.line_gap;
                    if yn >= env.bottom {
                        lemma_skip_ws_bounds(chars, resume);
                        lemma_nat_chunk_state(
                            env,
                            chars,
                            skip_ws(chars, resume),
                            xn,
                            yn,
                            fresh_run(env, xn, yn),
                            acc2,
                            None,
                            false,
                            y0,
                        );
                    }
                } else {
                    let acc2 = push_if(acc, cur);
                    let xn = env.start_x + env.wrap;
                    let yn = y - env.line_gap;
                    if yn >= env.bottom {
                        let started = RunM {
                            text: seq![c],
                            font: env.font,
                            colour: env.colour,
                            x: xn,
                            y: yn,
                        };
                        lemma_nat_chunk_state(
                            env,
                            chars,
                            i + 1,
                            xn + adv,
                            yn,
                            started,
                            acc2,
                            None,
                            false,
                            y0,
                        );
                    }
                }
            } else {
                let cur2 = RunM { text: cur.text.push(c), ..cur };
                let bp2 = if is_ws(c) && (cur.text.len() > 0 || line_prior) {
                    Some((cur.text.len() as int + 1, i + 1))
                } else {
                    bp
                };
                lemma_nat_chunk_state(env, chars, i + 1, x + adv, y, cur2, acc, bp2, line_prior, y0);
            }
        }
    }
}

/// No overflow for the natural breaker over a whole single-font queue: as
/// `lemma_layout_naive_in_box`, with the look-back in play.
pub proof fn lemma_layout_natural_in_box(
    fonts: Seq<FontMetrics>,
    start_x: int,
    wrap: int,
    bbox: Rect,
    chunks: Seq<ChunkM>,
    k: int,
    x: int,
    y: int,
    line_prior: bool,
    acc: Seq<RunM>,
    sf: SpanFont,
    y0: int,
)
    requires
        0 <= k <= chunks.len(),
        sf.id < fonts.len(),
        fonts[sf.id as int].wf(),
        0 <= sf.size.0 <= MAX_FONT_SIZE,
        -MAX_COORD <= start_x <= MAX_COORD,
        -MAX_COORD <= wrap <= MAX_COORD,
        -MAX_COORD <= bbox.x1.0 <= MAX_COORD,
        -MAX_COORD <= bbox.y1.0 <= MAX_COORD,
        -MAX_COORD <= bbox.x2.0 <= MAX_COORD,
        -MAX_COORD <= bbox.y2.0 <= MAX_COORD,
        forall|j: int| 0 <= j < chunks.len() ==> (#[trigger] chunks[j]).2 == sf,
        forall|j: int|
            0 <= j < chunks.len() ==> mapped_all(
                fonts[sf.id as int],
                normalize((#[trigger] chunks[j]).0),
            ) && fits_all(
                env_of(fonts[sf.id as int], sf, chunks[j].1, start_x, wrap, bbox),
                normalize(chunks[j].0),
            ),
        ({
            let env0 = env_of(fonts[sf.id as int], sf, Colour::Grey { g: 0 }, start_x, wrap, bbox);
            y == y0 || y >= env0.bottom
        }),
        forall|j: int|
            0 <= j < acc.len() ==> run_in_box(
                env_of(
                    fonts[sf.id as int],
                    sf,
                    (#[trigger] acc[j]).colour,
                    start_x,
                    wrap,
                    bbox,
                ),
                y0,
                acc[j],
            ),
    ensures
        ({
            let q = nat_queue(fonts, start_x, wrap, bbox, chunks, k, x, y, line_prior, acc);
            forall|j: int|
                0 <= j < q.runs.len() ==> run_in_box(
                    env_of(
                        fonts[sf.id as int],
                        sf,
                        (#[trigger] q.runs[j]).colour,
                        start_x,
                        wrap,
                        bbox,
                    ),
                    y0,
                    q.runs[j],
                )
        }),
    decreases chunks.len() - k,
{
    if k < 0 || k >= chunks.len() {
    } else {
        let (txt, colour, font) = chunks[k];
        let env = env_of(fonts[font.id as int], font, colour, start_x, wrap, bbox);
        let chars = normalize(txt);
        let bp0: Option<(int, int)> = if line_prior {
            Some((0, 0))
        } else {
            None
        };
        let out = nat_chunk(env, chars, 0, x, y, fresh_run(env, x, y), Seq::empty(), bp0, line_prior);
        lemma_env_wf(fonts[font.id as int], font, colour, start_x, wrap, bbox);
        lemma_nat_chunk_in_box(
            env,
            chars,
            0,
            x,
            y,
            fresh_run(env, x, y),
            Seq::empty(),
            bp0,
            line_prior,
            y0,
        );
        lemma_nat_chunk_state(
            env,
            chars,
            0,
            x,
            y,
            fresh_run(env, x, y),
            Seq::empty(),
            bp0,
            line_prior,
            y0,
        );
        assert forall|j: int| 0 <= j < out.runs.len() implies run_in_box(
            env_of(fonts[sf.id as int], sf, (#[trigger] out.runs[j]).colour, start_x, wrap, bbox),
            y0,
            out.runs[j],
        ) by {
            assert(run_in_box(env, y0, out.runs[j]));
            let envj = env_of(
                fonts[sf.id as int],
                sf,
                out.runs[j].colour,
                start_x,
                wrap,
                bbox,
            );
            assert(envj.x2 == env.x2 && envj.bottom == env.bottom && envj.m == env.m && envj.font
                == env.font);
        }
        match out.stop {
            None => {
                assert forall|j: int| 0 <= j < (acc + out.runs).len() implies run_in_box(
                    env_of(
                        fonts[sf.id as int],
                        sf,
                        (#[trigger] (acc + out.runs)[j]).colour,
                        start_x,
                        wrap,
                        bbox,
                    ),
                    y0,
                    (acc + out.runs)[j],
                ) by {
                    if j < acc.len() {
                        assert((acc + out.runs)[j] == acc[j]);
                    } else {
                        assert((acc + out.runs)[j] == out.runs[j - acc.len()]);
                    }
                }
                lemma_layout_natural_in_box(
                    fonts,
                    start_x,
                    wrap,
                    bbox,
                    chunks,
                    k + 1,
                    out.x,
                    out.y,
                    out.line_prior,
                    acc + out.runs,
                    sf,
                    y0,
                );
            },
            Some(_) => {
                assert forall|j: int|
                    0 <= j < nat_queue(
                        fonts,
                        start_x,
                        wrap,
                        bbox,
                        chunks,
                        k,
                        x,
                        y,
                        line_prior,
                        acc,
                    ).runs.len() implies run_in_box(
                    env_of(
                        fonts[sf.id as int],
                        sf,
                        (#[trigger] nat_queue(
                            fonts,
                            start_x,
                            wrap,
                            bbox,
                            chunks,
                            k,
                            x,
                            y,
                            line_prior,
                            acc,
                        ).runs[j]).colour,
                        start_x,
                        wrap,
                        bbox,
                    ),
                    y0,
                    nat_queue(fonts, start_x, wrap, bbox, chunks, k, x, y, line_prior, acc).runs[j],
                ) by {
                    if j < acc.len() {
                        assert((acc + out.runs)[j] == acc[j]);
                    } else {
                        assert((acc + out.runs)[j] == out.runs[j - acc.len()]);
                    }
                }
            },
        }
    }
}

/// Pagination loses and duplicates nothing, chunk level: when the naive
/// breaker stops, the chunk text it hands back is exactly an unconsumed
/// suffix of the chunk, so a later call resumes at the split character.
pub proof fn lemma_naive_chunk_leftover_suffix(
    env: LineEnvM,
    chars: Seq<char>,
    i: int,
    x: int,
    y: int,
    cur: RunM,
    acc: Seq<RunM>,
)
    requires
        0 <= i <= chars.len(),
    ensures
        ({
            let out = naive_chunk(env, chars, i, x, y, cur, acc);
            out.stop matches Some(l) ==> l.len() > 0 && exists|j: int|
                i <= j < chars.len() && l == #[trigger] chars.skip(j)
        }),
    decreases chars.len() - i,
{
    if i >= chars.len() {
    } else {
        let c = chars[i];
        if c == '\n' {
            let yn = y - env.line_gap;
            if yn < env.bottom {
                assert(naive_chunk(env, chars, i, x, y, cur, acc).stop == Some(chars.skip(i)));
            } else {
                lemma_naive_chunk_leftover_suffix(
                    env,
                    chars,
                    i + 1,
                    env.start_x,
                    yn,
                    fresh_run(env, env.start_x, yn),
                    push_if(acc, cur),
                );
            }
        } else {
            let adv = env.adv(c);
            if x + adv >= env.x2 {
                let yn = y - env.line_gap;
                if yn < env.bottom {
                    assert(naive_chunk(env, chars, i, x, y, cur, acc).stop == Some(
                        chars.skip(i),
                    ));
                } else {
                    let started = RunM {
                        text: seq![c],
                        font: env.font,
                        colour: env.colour,
                        x: env.start_x + env.wrap,
                        y: yn,
                    };
                    lemma_naive_chunk_leftover_suffix(
                        env,
                        chars,
                        i + 1,
                        env.start_x + env.wrap + adv,
                        yn,
                        started,
                        push_if(acc, cur),
                    );
                }
            } else {
                let cur2 = RunM { text: cur.text.push(c), ..cur };
                lemma_naive_chunk_leftover_suffix(env, chars, i + 1, x + adv, y, cur2, acc);
            }
        }
    }
}

/// Pagination loses and duplicates nothing, chunk level, for the natural
/// breaker: when it stops, the chunk text it hands back is exactly an
/// unconsumed suffix of the chunk.
pub proof fn lemma_nat_chunk_leftover_suffix(
    env: LineEnvM,
    chars: Seq<char>,
    i: int,
    x: int,
    y: int,
    cur: RunM,
    acc: Seq<RunM>,
    bp: Option<(int, int)>,
    line_prior: bool,
)
    requires
        0 <= i <= chars.len(),
        bp matches Some(p) ==> 0 <= p.1 <= i,
    ensures
        ({
            let out = nat_chunk(env, chars, i, x, y, cur, acc, bp, line_prior);
            out.stop matches Some(l) ==> l.len() > 0 && exists|j: int|
                0 <= j < chars.len() && l == #[trigger] chars.skip(j)
        }),
    decreases
            chars.len() - (if bp is Some {
                bp->Some_0.1
            } else {
                i
            }),
            (if bp is Some {
                1int
            } else {
                0int
            }),
            chars.len() - i,
{
    if i >= chars.len() {
    } else {
        let c = chars[i];
        if c == '\n' {
            let yn = y - env.line_gap;
            if yn >= env.bottom {
                lemma_nat_chunk_leftover_suffix(
                    env,
                    chars,
                    i + 1,
                    env.start_x,
                    yn,
                    fresh_run(env, env.start_x, yn),
                    push_if(acc, cur),
                    None,
                    false,
                );
            }
        } else {
            let adv = env.adv(c);
            if x + adv >= env.x2 {
                if bp is Some {
                    let keep = bp->Some_0.0;
                    let resume = bp->Some_0.1;
                    let kept = RunM { text: cur.text.take(keep), ..cur };
                    let acc2 = push_if(acc, kept);
                    let yn = y - env.line_gap;
                    if yn >= env.bottom {
                        lemma_skip_ws_bounds(chars, resume);
                        lemma_nat_chunk_leftover_suffix(
                            env,
                            chars,
                            skip_ws(chars, resume),
                            env.start_x + env.wrap,
                            yn,
                            fresh_run(env, env.start_x + env.wrap, yn),
                            acc2,
                            None,
                            false,
                        );
                    }
                } else {
                    let acc2 = push_if(acc, cur);
                    let yn = y - env.line_gap;
                    if yn >= env.bottom {
                        let started = RunM {
                            text: seq![c],
                            font: env.font,
                            colour: env.colour,
                            x: env.start_x + env.wrap,
                            y: yn,
                        };
                        lemma_nat_chunk_leftover_suffix(
                            env,
                            chars,
                            i + 1,
                            env.start_x + env.wrap + adv,
                            yn,
                            started,
                            acc2,
                            None,
                            false,
                        );
                    }
                }
            } else {
                let cur2 = RunM { text: cur.text.push(c), ..cur };
                let bp2 = if is_ws(c) && (cur.text.len() > 0 || line_prior) {
                    Some((cur.text.len() as int + 1, i + 1))
                } else {
                    bp
                };
                lemma_nat_chunk_leftover_suffix(
                    env,
                    chars,
                    i + 1,
                    x + adv,
                    y,
                    cur2,
                    acc,
                    bp2,
                    line_prior,
                );
            }
        }
    }
}

/// Pagination loses and duplicates nothing, queue level: whatever the naive
/// breaker leaves in the queue is the untouched tail of the queue, headed at
/// most by one chunk holding a suffix of the normalized text of the chunk
/// that was being consumed. Re-feeding the leftover therefore resumes at
/// exactly the character where the previous call split.
pub proof fn lemma_naive_queue_leftover_suffix(
    fonts: Seq<FontMetrics>,
    start_x: int,
    wrap: int,
    bbox: Rect,
    chunks: Seq<ChunkM>,
    k: int,
    x: int,
    y: int,
    acc: Seq<RunM>,
)
    requires
        0 <= k <= chunks.len(),
    ensures
        ({
            let q = naive_queue(fonts, start_x, wrap, bbox, chunks, k, x, y, acc);
            q.leftover.len() > 0 ==> exists|k2: int, j: int|
                {
                    &&& k <= k2 < chunks.len()
                    &&& 0 <= j <= normalize(chunks[k2].0).len()
                    &&& q.leftover =~= (if #[trigger] normalize(chunks[k2].0).skip(
                        #[trigger] (j + 0),
                    ).len() > 0 {
                        seq![(normalize(chunks[k2].0).skip(j), chunks[k2].1, chunks[k2].2)]
                    } else {
                        Seq::<ChunkM>::empty()
                    }) + chunks.skip(k2 + 1)
                }
        }),
    decreases chunks.len() - k,
{
    if k < 0 || k >= chunks.len() {
    } else {
        let (txt, colour, font) = chunks[k];
        let env = env_of(fonts[font.id as int], font, colour, start_x, wrap, bbox);
        let chars = normalize(txt);
        let out = naive_chunk(env, chars, 0, x, y, fresh_run(env, x, y), Seq::empty());
        lemma_naive_chunk_leftover_suffix(env, chars, 0, x, y, fresh_run(env, x, y), Seq::empty());
        match out.stop {
            None => {
                lemma_naive_queue_leftover_suffix(
                    fonts,
                    start_x,
                    wrap,
                    bbox,
                    chunks,
                    k + 1,
                    out.x,
                    out.y,
                    acc + out.runs,
                );
                let q = naive_queue(fonts, start_x, wrap, bbox, chunks, k, x, y, acc);
                let qr = naive_queue(
                    fonts,
                    start_x,
                    wrap,
                    bbox,
                    chunks,
                    k + 1,
                    out.x,
                    out.y,
                    acc + out.runs,
                );
                assert(q == qr);
                if q.leftover.len() > 0 {
                    let (k2, j2) = choose|k2: int, j2: int|
                        {
                            &&& k + 1 <= k2 < chunks.len()
                            &&& 0 <= j2 <= normalize(chunks[k2].0).len()
                            &&& qr.leftover =~= (if #[trigger] normalize(chunks[k2].0).skip(
                                #[trigger] (j2 + 0),
                            ).len() > 0 {
                                seq![
                                    (normalize(chunks[k2].0).skip(j2), chunks[k2].1, chunks[k2].2),
                                ]
                            } else {
                                Seq::<ChunkM>::empty()
                            }) + chunks.skip(k2 + 1)
                        };
                    assert({
                        &&& k <= k2 < chunks.len()
                        &&& 0 <= j2 <= normalize(chunks[k2].0).len()
                        &&& q.leftover =~= (if normalize(chunks[k2].0).skip(j2 + 0).len() > 0 {
                            seq![(normalize(chunks[k2].0).skip(j2), chunks[k2].1, chunks[k2].2)]
                        } else {
                            Seq::<ChunkM>::empty()
                        }) + chunks.skip(k2 + 1)
                    });
                }
            },
            Some(l) => {
                let j = choose|j: int| 0 <= j <= chars.len() && l == chars.skip(j);
                let q = naive_queue(fonts, start_x, wrap, bbox, chunks, k, x, y, acc);
                assert(q.leftover == (if l.len() > 0 {
                    seq![(l, colour, font)]
                } else {
                    Seq::<ChunkM>::empty()
                }) + chunks.skip(k + 1));
                assert({
                    &&& k <= k < chunks.len()
                    &&& 0 <= j <= normalize(chunks[k].0).len()
                    &&& q.leftover =~= (if normalize(chunks[k].0).skip(j + 0).len() > 0 {
                        seq![(normalize(chunks[k].0).skip(j), chunks[k].1, chunks[k].2)]
                    } else {
                        Seq::<ChunkM>::empty()
                    }) + chunks.skip(k + 1)
                });
            },
        }
    }
}

/// The naive breaker only ever appends: whatever it returns extends the
/// runs already accumulated.
proof fn lemma_naive_chunk_monotone(
    env: LineEnvM,
    chars: Seq<char>,
    i: int,
    x: int,
    y: int,
    cur: RunM,
    acc: Seq<RunM>,
)
    requires
        0 <= i <= chars.len(),
    ensures
        ({
            let out = naive_chunk(env, chars, i, x, y, cur, acc);
            out.runs.len() >= acc.len() && out.runs.take(acc.len() as int) == acc
        }),
    decreases chars.len() - i,
{
    let out = naive_chunk(env, chars, i, x, y, cur, acc);
    if i >= chars.len() {
        assert(push_if(acc, cur).take(acc.len() as int) =~= acc);
    } else {
        let c = chars[i];
        if c == '\n' {
            let yn = y - env.line_gap;
            if yn < env.bottom {
                assert(push_if(acc, cur).take(acc.len() as int) =~= acc);
            } else {
                let acc2 = push_if(acc, cur);
                lemma_naive_chunk_monotone(
                    env,
                    chars,
                    i + 1,
                    env.start_x,
                    yn,
                    fresh_run(env, env.start_x, yn),
                    acc2,
                );
                let out2 = naive_chunk(
                    env,
                    chars,
                    i + 1,
                    env.start_x,
                    yn,
                    fresh_run(env, env.start_x, yn),
                    acc2,
                );
                assert(out2.runs.take(acc.len() as int) =~= out2.runs.take(
                    acc2.len() as int,
                ).take(acc.len() as int));
                assert(acc2.take(acc.len() as int) =~= acc);
            }
        } else {
            let adv = env.adv(c);
            if x + adv >= env.x2 {
                let yn = y - env.line_gap;
                if yn < env.bottom {
                    assert(push_if(acc, cur).take(acc.len() as int) =~= acc);
                } else {
                    let acc2 = push_if(acc, cur);
                    let started = RunM {
                        text: seq![c],
                        font: env.font,
                        colour: env.colour,
                        x: env.start_x + env.wrap,
                        y: yn,
                    };
                    lemma_naive_chunk_monotone(
                        env,
                        chars,
                        i + 1,
                        env.start_x + env.wrap + adv,
                        yn,
                        started,
                        acc2,
                    );
                    let out2 = naive_chunk(
                        env,
                        chars,
                        i + 1,
                        env.start_x + env.wrap + adv,
                        yn,
                        started,
                        acc2,
                    );
                    assert(out2.runs.take(acc.len() as int) =~= out2.runs.take(
                        acc2.len() as int,
                    ).take(acc.len() as int));
                    assert(acc2.take(acc.len() as int) =~= acc);
                }
            } else {
                let cur2 = RunM { text: cur.text.push(c), ..cur };
                lemma_naive_chunk_monotone(env, chars, i + 1, x + adv, y, cur2, acc);
            }
        }
    }
}

/// Re-laying out with more vertical room changes nothing already placed:
/// with the same geometry but a lower floor, the naive breaker emits every
/// run the bounded page emitted, identically, and then continues; when the
/// bounded page did not fill, the two runs agree completely. Line breaking
/// is horizontal, so the split character is the same on any page height.
pub proof fn lemma_naive_chunk_prefix(
    env_a: LineEnvM,
    env_b: LineEnvM,
    chars: Seq<char>,
    i: int,
    x: int,
    y: int,
    cur: RunM,
    acc: Seq<RunM>,
)
    requires
        0 <= i <= chars.len(),
        env_b == (LineEnvM { bottom: env_b.bottom, ..env_a }),
        env_b.bottom <= env_a.bottom,
    ensures
        ({
            let out_a = naive_chunk(env_a, chars, i, x, y, cur, acc);
            let out_b = naive_chunk(env_b, chars, i, x, y, cur, acc);
            &&& out_a.runs.len() <= out_b.runs.len()
            &&& out_a.runs == out_b.runs.take(out_a.runs.len() as int)
            &&& (out_a.stop is None ==> out_a == out_b)
        }),
    decreases chars.len() - i,
{
    let out_a = naive_chunk(env_a, chars, i, x, y, cur, acc);
    let out_b = naive_chunk(env_b, chars, i, x, y, cur, acc);
    if i >= chars.len() {
        assert(out_a.runs.take(out_a.runs.len() as int) =~= out_a.runs);
    } else {
        let c = chars[i];
        if c == '\n' {
            let yn = y - env_a.line_gap;
            if yn < env_b.bottom {
                assert(out_a.runs.take(out_a.runs.len() as int) =~= out_a.runs);
            } else if yn < env_a.bottom {
                let acc2 = push_if(acc, cur);
                lemma_naive_chunk_monotone(
                    env_b,
                    chars,
                    i + 1,
                    env_b.start_x,
                    yn,
                    fresh_run(env_b, env_b.start_x, yn),
                    acc2,
                );
                assert(out_a.runs == acc2);
            } else {
                lemma_naive_chunk_prefix(
                    env_a,
                    env_b,
                    chars,
                    i + 1,
                    env_a.start_x,
                    yn,
                    fresh_run(env_a, env_a.start_x, yn),
                    push_if(acc, cur),
                );
                assert(fresh_run(env_a, env_a.start_x, yn) == fresh_run(
                    env_b,
                    env_b.start_x,
                    yn,
                ));
            }
        } else {
            assert(env_a.adv(c) == env_b.adv(c));
            let adv = env_a.adv(c);
            if x + adv >= env_a.x2 {
                let yn = y - env_a.line_gap;
                if yn < env_b.bottom {
                    assert(out_a.runs.take(out_a.runs.len() as int) =~= out_a.runs);
                } else if yn < env_a.bottom {
                    let acc2 = push_if(acc, cur);
                    let started = RunM {
                        text: seq![c],
                        font: env_b.font,
                        colour: env_b.colour,
                        x: env_b.start_x + env_b.wrap,
                        y: yn,
                    };
                    lemma_naive_chunk_monotone(
                        env_b,
                        chars,
                        i + 1,
                        env_b.start_x + env_b.wrap + adv,
                        yn,
                        started,
                        acc2,
                    );
                    assert(out_a.runs == acc2);
                } else {
                    let started = RunM {
                        text: seq![c],
                        font: env_a.font,
                        colour: env_a.colour,
                        x: env_a.start_x + env_a.wrap,
                        y: yn,
                    };
                    lemma_naive_chunk_prefix(
                        env_a,
                        env_b,
                        chars,
                        i + 1,
                        env_a.start_x + env_a.wrap + adv,
                        yn,
                        started,
                        push_if(acc, cur),
                    );
                }
            } else {
                let cur2 = RunM { text: cur.text.push(c), ..cur };
                lemma_naive_chunk_prefix(env_a, env_b, chars, i + 1, x + adv, y, cur2, acc);
            }
        }
    }
}

/// The naive breaker over a queue only ever appends runs.
proof fn lemma_naive_queue_monotone(
    fonts: Seq<FontMetrics>,
    start_x: int,
    wrap: int,
    bbox: Rect,
    chunks: Seq<ChunkM>,
    k: int,
    x: int,
    y: int,
    acc: Seq<RunM>,
)
    requires
        0 <= k <= chunks.len(),
    ensures
        ({
            let q = naive_queue(fonts, start_x, wrap, bbox, chunks, k, x, y, acc);
            q.runs.len() >= acc.len() && q.runs.take(acc.len() as int) == acc
        }),
    decreases chunks.len() - k,
{
    let q = naive_queue(fonts, start_x, wrap, bbox, chunks, k, x, y, acc);
    if k >= chunks.len() {
        assert(q.runs.take(acc.len() as int) =~= acc);
    } else {
        let (txt, colour, font) = chunks[k];
        let env = env_of(fonts[font.id as int], font, colour, start_x, wrap, bbox);
        let chars = normalize(txt);
        let out = naive_chunk(env, chars, 0, x, y, fresh_run(env, x, y), Seq::empty());
        match out.stop {
            None => {
                lemma_naive_queue_monotone(
                    fonts,
                    start_x,
                    wrap,
                    bbox,
                    chunks,
                    k + 1,
                    out.x,
                    out.y,
                    acc + out.runs,
                );
                let q2 = naive_queue(
                    fonts,
                    start_x,
                    wrap,
                    bbox,
                    chunks,
                    k + 1,
                    out.x,
                    out.y,
                    acc + out.runs,
                );
                assert(q2.runs.take(acc.len() as int) =~= q2.runs.take(
                    (acc + out.runs).len() as int,
                ).take(acc.len() as int));
                assert((acc + out.runs).take(acc.len() as int) =~= acc);
            },
            Some(_) => {
                assert((acc + out.runs).take(acc.len() as int) =~= acc);
            },
        }
    }
}

/// Re-laying a whole queue out with more vertical room changes nothing
/// already placed: with the same geometry but a lower box bottom, the naive
/// breaker emits every run of the bounded layout identically and then
/// continues, and a layout that fit entirely is reproduced exactly. This is
/// what makes pagination by re-feeding the leftover sound: the bounded page
/// shows precisely the first runs of the roomier layout, split at the same
/// character.
pub proof fn lemma_naive_queue_prefix(
    fonts: Seq<FontMetrics>,
    start_x: int,
    wrap: int,
    bbox_a: Rect,
    bbox_b: Rect,
    chunks: Seq<ChunkM>,
    k: int,
    x: int,
    y: int,
    acc: Seq<RunM>,
)
    requires
        0 <= k <= chunks.len(),
        bbox_b == (Rect { y1: bbox_b.y1, ..bbox_a }),
        bbox_b.y1.0 <= bbox_a.y1.0,
    ensures
        ({
            let qa = naive_queue(fonts, start_x, wrap, bbox_a, chunks, k, x, y, acc);
            let qb = naive_queue(fonts, start_x, wrap, bbox_b, chunks, k, x, y, acc);
            &&& qa.runs.len() <= qb.runs.len()
            &&& qa.runs == qb.runs.take(qa.runs.len() as int)
            &&& (qa.leftover.len() == 0 ==> qa == qb)
        }),
    decreases chunks.len() - k,
{
    let qa = naive_queue(fonts, start_x, wrap, bbox_a, chunks, k, x, y, acc);
    let qb = naive_queue(fonts, start_x, wrap, bbox_b, chunks, k, x, y, acc);
    if k >= chunks.len() {
        assert(qa.runs.take(qa.runs.len() as int) =~= qa.runs);
    } else {
        let (txt, colour, font) = chunks[k];
        let env_a = env_of(fonts[font.id as int], font, colour, start_x, wrap, bbox_a);
        let env_b = env_of(fonts[font.id as int], font, colour, start_x, wrap, bbox_b);
        let chars = normalize(txt);
        assert(env_b == (LineEnvM { bottom: env_b.bottom, ..env_a }));
        let out_a = naive_chunk(env_a, chars, 0, x, y, fresh_run(env_a, x, y), Seq::empty());
        let out_b = naive_chunk(env_b, chars, 0, x, y, fresh_run(env_b, x, y), Seq::empty());
        lemma_naive_chunk_prefix(env_a, env_b, chars, 0, x, y, fresh_run(env_a, x, y), Seq::empty());
        match out_a.stop {
            None => {
                assert(out_a == out_b);
                lemma_naive_queue_prefix(
                    fonts,
                    start_x,
                    wrap,
                    bbox_a,
                    bbox_b,
                    chunks,
                    k + 1,
                    out_a.x,
                    out_a.y,
                    acc + out_a.runs,
                );
            },
            Some(_) => {
                lemma_naive_chunk_leftover_suffix(
                    env_a,
                    chars,
                    0,
                    x,
                    y,
                    fresh_run(env_a, x, y),
                    Seq::empty(),
                );
                assert(qa.leftover.len() > 0);
                assert(qa.runs == acc + out_a.runs);
                match out_b.stop {
                    None => {
                        lemma_naive_queue_monotone(
                            fonts,
                            start_x,
                            wrap,
                            bbox_b,
                            chunks,
                            k + 1,
                            out_b.x,
                            out_b.y,
                            acc + out_b.runs,
                        );
                        let q2 = naive_queue(
                            fonts,
                            start_x,
                            wrap,
                            bbox_b,
                            chunks,
                            k + 1,
                            out_b.x,
                            out_b.y,
                            acc + out_b.runs,
                        );
                        assert(qb == q2);
                        assert(qa.runs =~= qb.runs.take(qa.runs.len() as int)) by {
                            assert(qb.runs.take((acc + out_b.runs).len() as int) == acc
                                + out_b.runs);
                            assert forall|j: int| 0 <= j < qa.runs.len() implies qa.runs[j]
                                == qb.runs[j] by {
                                if j < acc.len() {
                                    assert(qa.runs[j] == acc[j]);
                                    assert((acc + out_b.runs)[j] == acc[j]);
                                    assert(qb.runs[j] == (acc + out_b.runs)[j]);
                                } else {
                                    assert(qa.runs[j] == out_a.runs[j - acc.len()]);
                                    assert(out_a.runs[j - acc.len()] == out_b.runs.take(
                                        out_a.runs.len() as int,
                                    )[j - acc.len()]);
                                    assert((acc + out_b.runs)[j] == out_b.runs[j - acc.len()]);
                                    assert(qb.runs[j] == (acc + out_b.runs)[j]);
                                }
                            }
                        }
                    },
                    Some(_) => {
                        assert(qb.runs == acc + out_b.runs);
                        assert(qa.runs =~= qb.runs.take(qa.runs.len() as int)) by {
                            assert forall|j: int| 0 <= j < qa.runs.len() implies qa.runs[j]
                                == qb.runs[j] by {
                                if j < acc.len() {
                                } else {
                                    assert(qa.runs[j] == out_a.runs[j - acc.len()]);
                                    assert(out_a.runs[j - acc.len()] == out_b.runs.take(
                                        out_a.runs.len() as int,
                                    )[j - acc.len()]);
                                }
                            }
                        }
                    },
                }
            },
        }
    }
}

/// The natural breaker only ever appends: whatever it returns extends the
/// runs already accumulated.
proof fn lemma_nat_chunk_monotone(
    env: LineEnvM,
    chars: Seq<char>,
    i: int,
    x: int,
    y: int,
    cur: RunM,
    acc: Seq<RunM>,
    bp: Option<(int, int)>,
    line_prior: bool,
)
    requires
        0 <= i <= chars.len(),
        bp matches Some(p) ==> 0 <= p.1 <= i,
    ensures
        ({
            let out = nat_chunk(env, chars, i, x, y, cur, acc, bp, line_prior);
            out.runs.len() >= acc.len() && out.runs.take(acc.len() as int) == acc
        }),
    decreases
            chars.len() - (if bp is Some {
                bp->Some_0.1
            } else {
                i
            }),
            (if bp is Some {
                1int
            } else {
                0int
            }),
            chars.len() - i,
{
    let out = nat_chunk(env, chars, i, x, y, cur, acc, bp, line_prior);
    if i >= chars.len() {
        assert(push_if(acc, cur).take(acc.len() as int) =~= acc);
    } else {
        let c = chars[i];
        if c == '\n' {
            let yn = y - env.line_gap;
            if yn < env.bottom {
                assert(push_if(acc, cur).take(acc.len() as int) =~= acc);
            } else {
                let acc2 = push_if(acc, cur);
                lemma_nat_chunk_monotone(
                    env,
                    chars,
                    i + 1,
                    env.start_x,
                    yn,
                    fresh_run(env, env.start_x, yn),
                    acc2,
                    None,
                    false,
                );
                let out2 = nat_chunk(
                    env,
                    chars,
                    i + 1,
                    env.start_x,
                    yn,
                    fresh_run(env, env.start_x, yn),
                    acc2,
                    None,
                    false,
                );
                assert(out2.runs.take(acc.len() as int) =~= out2.runs.take(
                    acc2.len() as int,
                ).take(acc.len() as int));
                assert(acc2.take(acc.len() as int) =~= acc);
            }
        } else {
            let adv = env.adv(c);
            if x + adv >= env.x2 {
                if bp is Some {
                    let keep = bp->Some_0.0;
                    let resume = bp->Some_0.1;
                    let kept = RunM { text: cur.text.take(keep), ..cur };
                    let acc2 = push_if(acc, kept);
                    let yn = y - env.line_gap;
                    if yn < env.bottom {
                        assert(acc2.take(acc.len() as int) =~= acc);
                    } else {
                        lemma_skip_ws_bounds(chars, resume);
                        lemma_nat_chunk_monotone(
                            env,
                            chars,
                            skip_ws(chars, resume),
                            env.start_x + env.wrap,
                            yn,
                            fresh_run(env, env.start_x + env.wrap, yn),
                            acc2,
                            None,
                            false,
                        );
                        let out2 = nat_chunk(
                            env,
                            chars,
                            skip_ws(chars, resume),
                            env.start_x + env.wrap,
                            yn,
                            fresh_run(env, env.start_x + env.wrap, yn),
                            acc2,
                            None,
                            false,
                        );
                        assert(out2.runs.take(acc.len() as int) =~= out2.runs.take(
                            acc2.len() as int,
                        ).take(acc.len() as int));
                        assert(acc2.take(acc.len() as int) =~= acc);
                    }
                } else {
                    let acc2 = push_if(acc, cur);
                    let yn = y - env.line_gap;
                    if yn < env.bottom {
                        assert(acc2.take(acc.len() as int) =~= acc);
                    } else {
                        let started = RunM {
                            text: seq![c],
                            font: env.font,
                            colour: env.colour,
                            x: env.start_x + env.wrap,
                            y: yn,
                        };
                        lemma_nat_chunk_monotone(
                            env,
                            chars,
                            i + 1,
                            env.start_x + env.wrap + adv,
                            yn,
                            started,
                            acc2,
                            None,
                            false,
                        );
                        let out2 = nat_chunk(
                            env,
                            chars,
                            i + 1,
                            env.start_x + env.wrap + adv,
                            yn,
                            started,
                            acc2,
                            None,
                            false,
                        );
                        assert(out2.runs.take(acc.len() as int) =~= out2.runs.take(
                            acc2.len() as int,
                        ).take(acc.len() as int));
                        assert(acc2.take(acc.len() as int) =~= acc);
                    }
                }
            } else {
                let cur2 = RunM { text: cur.text.push(c), ..cur };
                let bp2 = if is_ws(c) && (cur.text.len() > 0 || line_prior) {
                    Some((cur.text.len() as int + 1, i + 1))
                } else {
                    bp
                };
                lemma_nat_chunk_monotone(env, chars, i + 1, x + adv, y, cur2, acc, bp2, line_prior);
            }
        }
    }
}

/// Re-laying out with more vertical room changes nothing already placed,
/// for the natural breaker: with the same geometry but a lower floor, it
/// emits every run of the bounded page identically and then continues; a
/// layout that fit entirely is reproduced exactly. The look-back state
/// never depends on the vertical position, so the split is the same on any
/// page height.
pub proof fn lemma_nat_chunk_prefix(
    env_a: LineEnvM,
    env_b: LineEnvM,
    chars: Seq<char>,
    i: int,
    x: int,
    y: int,
    cur: RunM,
    acc: Seq<RunM>,
    bp: Option<(int, int)>,
    line_prior: bool,
)
    requires
        0 <= i <= chars.len(),
        bp matches Some(p) ==> 0 <= p.1 <= i,
        env_b == (LineEnvM { bottom: env_b.bottom, ..env_a }),
        env_b.bottom <= env_a.bottom,
    ensures
        ({
            let out_a = nat_chunk(env_a, chars, i, x, y, cur, acc, bp, line_prior);
            let out_b = nat_chunk(env_b, chars, i, x, y, cur, acc, bp, line_prior);
            &&& out_a.runs.len() <= out_b.runs.len()
            &&& out_a.runs == out_b.runs.take(out_a.runs.len() as int)
            &&& (out_a.stop is None ==> out_a == out_b)
        }),
    decreases
            chars.len() - (if bp is Some {
                bp->Some_0.1
            } else {
                i
            }),
            (if bp is Some {
                1int
            } else {
                0int
            }),
            chars.len() - i,
{
    let out_a = nat_chunk(env_a, chars, i, x, y, cur, acc, bp, line_prior);
    let out_b = nat_chunk(env_b, chars, i, x, y, cur, acc, bp, line_prior);
    if i >= chars.len() {
        assert(out_a.runs.take(out_a.runs.len() as int) =~= out_a.runs);
    } else {
        let c = chars[i];
        if c == '\n' {
            let yn = y - env_a.line_gap;
            if yn < env_b.bottom {
                assert(out_a.runs.take(out_a.runs.len() as int) =~= out_a.runs);
            } else if yn < env_a.bottom {
                let acc2 = push_if(acc, cur);
                lemma_nat_chunk_monotone(
                    env_b,
                    chars,
                    i + 1,
                    env_b.start_x,
                    yn,
                    fresh_run(env_b, env_b.start_x, yn),
                    acc2,
                    None,
                    false,
                );
                assert(out_a.runs == acc2);
            } else {
                lemma_nat_chunk_prefix(
                    env_a,
                    env_b,
                    chars,
                    i + 1,
                    env_a.start_x,
                    yn,
                    fresh_run(env_a, env_a.start_x, yn),
                    push_if(acc, cur),
                    None,
                    false,
                );
                assert(fresh_run(env_a, env_a.start_x, yn) == fresh_run(
                    env_b,
                    env_b.start_x,
                    yn,
                ));
            }
        } else {
            assert(env_a.adv(c) == env_b.adv(c));
            let adv = env_a.adv(c);
            if x + adv >= env_a.x2 {
                if bp is Some {
                    let keep = bp->Some_0.0;
                    let resume = bp->Some_0.1;
                    let kept = RunM { text: cur.text.take(keep), ..cur };
                    let acc2 = push_if(acc, kept);
                    let yn = y - env_a.line_gap;
                    if yn < env_b.bottom {
                        assert(out_a.runs.take(out_a.runs.len() as int) =~= out_a.runs);
                    } else if yn < env_a.bottom {
                        lemma_skip_ws_bounds(chars, resume);
                        lemma_nat_chunk_monotone(
                            env_b,
                            chars,
                            skip_ws(chars, resume),
                            env_b.start_x + env_b.wrap,
                            yn,
                            fresh_run(env_b, env_b.start_x + env_b.wrap, yn),
                            acc2,
                            None,
                            false,
                        );
                        assert(out_a.runs == acc2);
                    } else {
                        lemma_skip_ws_bounds(chars, resume);
                        lemma_nat_chunk_prefix(
                            env_a,
                            env_b,
                            chars,
                            skip_ws(chars, resume),
                            env_a.start_x + env_a.wrap,
                            yn,
                            fresh_run(env_a, env_a.start_x + env_a.wrap, yn),
                            acc2,
                            None,
                            false,
                        );
                        assert(fresh_run(env_a, env_a.start_x + env_a.wrap, yn) == fresh_run(
                            env_b,
                            env_b.start_x + env_b.wrap,
                            yn,
                        ));
                    }
                } else {
                    let acc2 = push_if(acc, cur);
                    let yn = y - env_a.line_gap;
                    if yn < env_b.bottom {
                        assert(out_a.runs.take(out_a.runs.len() as int) =~= out_a.runs);
                    } else if yn < env_a.bottom {
                        let started = RunM {
                            text: seq![c],
                            font: env_b.font,
                            colour: env_b.colour,
                            x: env_b.start_x + env_b.wrap,
                            y: yn,
                        };
                        lemma_nat_chunk_monotone(
                            env_b,
                            chars,
                            i + 1,
                            env_b.start_x + env_b.wrap + adv,
                            yn,
                            started,
                            acc2,
                            None,
                            false,
                        );
                        assert(out_a.runs == acc2);
                    } else {
                        let started = RunM {
                            text: seq![c],
                            font: env_a.font,
                            colour: env_a.colour,
                            x: env_a.start_x + env_a.wrap,
                            y: yn,
                        };
                        lemma_nat_chunk_prefix(
                            env_a,
                            env_b,
                            chars,
                            i + 1,
                            env_a.start_x + env_a.wrap + adv,
                            yn,
                            started,
                            acc2,
                            None,
                            false,
                        );
                    }
                }
            } else {
                let cur2 = RunM { text: cur.text.push(c), ..cur };
                let bp2 = if is_ws(c) && (cur.text.len() > 0 || line_prior) {
                    Some((cur.text.len() as int + 1, i + 1))
                } else {
                    bp
                };
                lemma_nat_chunk_prefix(
                    env_a,
                    env_b,
                    chars,
                    i + 1,
                    x + adv,
                    y,
                    cur2,
                    acc,
                    bp2,
                    line_prior,
                );
            }
        }
    }
}

/// The natural breaker over a queue only ever appends runs.
proof fn lemma_nat_queue_monotone(
    fonts: Seq<FontMetrics>,
    start_x: int,
    wrap: int,
    bbox: Rect,
    chunks: Seq<ChunkM>,
    k: int,
    x: int,
    y: int,
    line_prior: bool,
    acc: Seq<RunM>,
)
    requires
        0 <= k <= chunks.len(),
    ensures
        ({
            let q = nat_queue(fonts, start_x, wrap, bbox, chunks, k, x, y, line_prior, acc);
            q.runs.len() >= acc.len() && q.runs.take(acc.len() as int) == acc
        }),
    decreases chunks.len() - k,
{
    let q = nat_queue(fonts, start_x, wrap, bbox, chunks, k, x, y, line_prior, acc);
    if k >= chunks.len() {
        assert(q.runs.take(acc.len() as int) =~= acc);
    } else {
        let (txt, colour, font) = chunks[k];
        let env = env_of(fonts[font.id as int], font, colour, start_x, wrap, bbox);
        let chars = normalize(txt);
        let bp0: Option<(int, int)> = if line_prior {
            Some((0, 0))
        } else {
            None
        };
        let out = nat_chunk(env, chars, 0, x, y, fresh_run(env, x, y), Seq::empty(), bp0, line_prior);
        match out.stop {
            None => {
                lemma_nat_queue_monotone(
                    fonts,
                    start_x,
                    wrap,
                    bbox,
                    chunks,
                    k + 1,
                    out.x,
                    out.y,
                    out.line_prior,
                    acc + out.runs,
                );
                let q2 = nat_queue(
                    fonts,
                    start_x,
                    wrap,
                    bbox,
                    chunks,
                    k + 1,
                    out.x,
                    out.y,
                    out.line_prior,
                    acc + out.runs,
                );
                assert(q2.runs.take(acc.len() as int) =~= q2.runs.take(
                    (acc + out.runs).len() as int,
                ).take(acc.len() as int));
                assert((acc + out.runs).take(acc.len() as int) =~= acc);
            },
            Some(_) => {
                assert((acc + out.runs).take(acc.len() as int) =~= acc);
            },
        }
    }
}

/// Re-laying a whole queue out with more vertical room changes nothing
/// already placed, for the natural breaker: with the same geometry but a
/// lower box bottom, it emits every run of the bounded layout identically
/// and then continues, and a layout that fit entirely is reproduced
/// exactly.
pub proof fn lemma_nat_queue_prefix(
    fonts: Seq<FontMetrics>,
    start_x: int,
    wrap: int,
    bbox_a: Rect,
    bbox_b: Rect,
    chunks: Seq<ChunkM>,
    k: int,
    x: int,
    y: int,
    line_prior: bool,
    acc: Seq<RunM>,
)
    requires
        0 <= k <= chunks.len(),
        bbox_b == (Rect { y1: bbox_b.y1, ..bbox_a }),
        bbox_b.y1.0 <= bbox_a.y1.0,
    ensures
        ({
            let qa = nat_queue(fonts, start_x, wrap, bbox_a, chunks, k, x, y, line_prior, acc);
            let qb = nat_queue(fonts, start_x, wrap, bbox_b, chunks, k, x, y, line_prior, acc);
            &&& qa.runs.len() <= qb.runs.len()
            &&& qa.runs == qb.runs.take(qa.runs.len() as int)
            &&& (qa.leftover.len() == 0 ==> qa == qb)
        }),
    decreases chunks.len() - k,
{
    let qa = nat_queue(fonts, start_x, wrap, bbox_a, chunks, k, x, y, line_prior, acc);
    let qb = nat_queue(fonts, start_x, wrap, bbox_b, chunks, k, x, y, line_prior, acc);
    if k >= chunks.len() {
        assert(qa.runs.take(qa.runs.len() as int) =~= qa.runs);
    } else {
        let (txt, colour, font) = chunks[k];
        let env_a = env_of(fonts[font.id as int], font, colour, start_x, wrap, bbox_a);
        let env_b = env_of(fonts[font.id as int], font, colour, start_x, wrap, bbox_b);
        let chars = normalize(txt);
        assert(env_b == (LineEnvM { bottom: env_b.bottom, ..env_a }));
        let bp0: Option<(int, int)> = if line_prior {
            Some((0, 0))
        } else {
            None
        };
        let out_a = nat_chunk(
            env_a,
            chars,
            0,
            x,
            y,
            fresh_run(env_a, x, y),
            Seq::empty(),
            bp0,
            line_prior,
        );
        let out_b = nat_chunk(
            env_b,
            chars,
            0,
            x,
            y,
            fresh_run(env_b, x, y),
            Seq::empty(),
            bp0,
            line_prior,
        );
        lemma_nat_chunk_prefix(
            env_a,
            env_b,
            chars,
            0,
            x,
            y,
            fresh_run(env_a, x, y),
            Seq::empty(),
            bp0,
            line_prior,
        );
        match out_a.stop {
            None => {
                assert(out_a == out_b);
                lemma_nat_queue_prefix(
                    fonts,
                    start_x,
                    wrap,
                    bbox_a,
                    bbox_b,
                    chunks,
                    k + 1,
                    out_a.x,
                    out_a.y,
                    out_a.line_prior,
                    acc + out_a.runs,
                );
            },
            Some(_) => {
                lemma_nat_chunk_leftover_suffix(
                    env_a,
                    chars,
                    0,
                    x,
                    y,
                    fresh_run(env_a, x, y),
                    Seq::empty(),
                    bp0,
                    line_prior,
                );
                assert(qa.leftover.len() > 0);
                assert(qa.runs == acc + out_a.runs);
                match out_b.stop {
                    None => {
                        lemma_nat_queue_monotone(
                            fonts,
                            start_x,
                            wrap,
                            bbox_b,
                            chunks,
                            k + 1,
                            out_b.x,
                            out_b.y,
                            out_b.line_prior,
                            acc + out_b.runs,
                        );
                        let q2 = nat_queue(
                            fonts,
                            start_x,
                            wrap,
                            bbox_b,
                            chunks,
                            k + 1,
                            out_b.x,
                            out_b.y,
                            out_b.line_prior,
                            acc + out_b.runs,
                        );
                        assert(qb == q2);
                        assert(qa.runs =~= qb.runs.take(qa.runs.len() as int)) by {
                            assert(qb.runs.take((acc + out_b.runs).len() as int) == acc
                                + out_b.runs);
                            assert forall|j: int| 0 <= j < qa.runs.len() implies qa.runs[j]
                                == qb.runs[j] by {
                                if j < acc.len() {
                                    assert(qa.runs[j] == acc[j]);
                                    assert((acc + out_b.runs)[j] == acc[j]);
                                    assert(qb.runs[j] == (acc + out_b.runs)[j]);
                                } else {
                                    assert(qa.runs[j] == out_a.runs[j - acc.len()]);
                                    assert(out_a.runs[j - acc.len()] == out_b.runs.take(
                                        out_a.runs.len() as int,
                                    )[j - acc.len()]);
                                    assert((acc + out_b.runs)[j] == out_b.runs[j - acc.len()]);
                                    assert(qb.runs[j] == (acc + out_b.runs)[j]);
                                }
                            }
                        }
                    },
                    Some(_) => {
                        assert(qb.runs == acc + out_b.runs);
                        assert(qa.runs =~= qb.runs.take(qa.runs.len() as int)) by {
                            assert forall|j: int| 0 <= j < qa.runs.len() implies qa.runs[j]
                                == qb.runs[j] by {
                                if j < acc.len() {
                                } else {
                                    assert(qa.runs[j] == out_a.runs[j - acc.len()]);
                                    assert(out_a.runs[j - acc.len()] == out_b.runs.take(
                                        out_a.runs.len() as int,
                                    )[j - acc.len()]);
                                }
                            }
                        }
                    },
                }
            },
        }
    }
}

/// Re-layout idempotence for the naive breaker, in one statement: laying a
/// queue out in a bounded box emits exactly the first runs — byte for byte,
/// split at the same character — of the same layout in a box that differs
/// only by a lower bottom; a layout that fit entirely is reproduced
/// exactly; and when it did not fit, the queue handed back holds the
/// untouched tail of the input, headed at most by one chunk that is an
/// unconsumed suffix of the normalized text of the chunk being consumed, so
/// a later call resumes at the split character and re-wraps nothing before
/// it.
pub proof fn lemma_naive_relayout_idempotent(
    fonts: Seq<FontMetrics>,
    start_x: int,
    wrap: int,
    bbox_a: Rect,
    bbox_b: Rect,
    chunks: Seq<ChunkM>,
    x: int,
    y: int,
)
    requires
        bbox_b == (Rect { y1: bbox_b.y1, ..bbox_a }),
        bbox_b.y1.0 <= bbox_a.y1.0,
    ensures
        ({
            let qa = naive_queue(fonts, start_x, wrap, bbox_a, chunks, 0, x, y, Seq::empty());
            let qb = naive_queue(fonts, start_x, wrap, bbox_b, chunks, 0, x, y, Seq::empty());
            &&& qa.runs == qb.runs.take(qa.runs.len() as int)
            &&& (qa.leftover.len() == 0 ==> qa == qb)
            &&& (qa.leftover.len() > 0 ==> exists|k2: int, j: int|
                {
                    &&& 0 <= k2 < chunks.len()
                    &&& 0 <= j <= normalize(chunks[k2].0).len()
                    &&& qa.leftover =~= (if #[trigger] normalize(chunks[k2].0).skip(
                        #[trigger] (j + 0),
                    ).len() > 0 {
                        seq![(normalize(chunks[k2].0).skip(j), chunks[k2].1, chunks[k2].2)]
                    } else {
                        Seq::<ChunkM>::empty()
                    }) + chunks.skip(k2 + 1)
                })
        }),
{
    lemma_naive_queue_prefix(fonts, start_x, wrap, bbox_a, bbox_b, chunks, 0, x, y, Seq::empty());
    lemma_naive_queue_leftover_suffix(fonts, start_x, wrap, bbox_a, chunks, 0, x, y, Seq::empty());
}

/// Re-layout idempotence for the natural breaker: with the same geometry
/// but a lower box bottom, the breaker emits every run of the bounded
/// layout identically — the look-back never depends on the vertical
/// position — and a layout that fit entirely is reproduced exactly.
pub proof fn lemma_natural_relayout_idempotent(
    fonts: Seq<FontMetrics>,
    start_x: int,
    wrap: int,
    bbox_a: Rect,
    bbox_b: Rect,
    chunks: Seq<ChunkM>,
    x: int,
    y: int,
)
    requires
        bbox_b == (Rect { y1: bbox_b.y1, ..bbox_a }),
        bbox_b.y1.0 <= bbox_a.y1.0,
    ensures
        ({
            let qa = nat_queue(fonts, start_x, wrap, bbox_a, chunks, 0, x, y, false, Seq::empty());
            let qb = nat_queue(fonts, start_x, wrap, bbox_b, chunks, 0, x, y, false, Seq::empty());
            &&& qa.runs == qb.runs.take(qa.runs.len() as int)
            &&& (qa.leftover.len() == 0 ==> qa == qb)
        }),
{
    lemma_nat_queue_prefix(
        fonts,
        start_x,
        wrap,
        bbox_a,
        bbox_b,
        chunks,
        0,
        x,
        y,
        false,
        Seq::empty(),
    );
}

} // verus!
