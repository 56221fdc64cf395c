use vstd::prelude::*;
use vstd::string::StrSliceExecFns;
use vstd::string::StringExecFns;
use crate::font::scaled;
use crate::font::FontMetrics;
use crate::font::GlyphWidthEntry;

verus! {

/// One entry of the compressed width table: the first glyph id of a
/// consecutive range, and the scaled width of each glyph in the range.
#[derive(Debug)]
pub struct WidthRun {
    /// The glyph id of the first width in the run.
    pub start: u16,
    /// The widths of the glyphs `start`, `start + 1`, ... in order, scaled
    /// to a 1000-unit em.
    pub widths: Vec<i64>,
}

/// The model of one width run.
pub ghost struct WidthRunM {
    pub start: int,
    pub widths: Seq<int>,
}

/// The model view of a width-run table.
pub open spec fn runs_view(s: Seq<WidthRun>) -> Seq<WidthRunM> {
    s.map_values(|r: WidthRun| WidthRunM { start: r.start as int, widths: r.widths@.map_values(|w: i64| w as int) })
}

/// The (glyph id, scaled width) pairs a single run stands for.
pub open spec fn run_pairs(r: WidthRunM) -> Seq<(int, int)> {
    Seq::new(r.widths.len(), |i: int| (r.start + i, r.widths[i]))
}

/// The (glyph id, scaled width) pairs a whole run table stands for, from
/// run `k` on.
pub open spec fn decode_runs_from(runs: Seq<WidthRunM>, k: int) -> Seq<(int, int)>
    decreases runs.len() - k,
{
    if k < 0 || k >= runs.len() {
        Seq::empty()
    } else {
        run_pairs(runs[k]) + decode_runs_from(runs, k + 1)
    }
}

/// The (glyph id, scaled width) pairs a whole run table stands for.
pub open spec fn decode_runs(runs: Seq<WidthRunM>) -> Seq<(int, int)> {
    decode_runs_from(runs, 0)
}

/// A glyph's advance scaled to a 1000-unit em.
pub open spec fn scaled_width(e: GlyphWidthEntry, upm: int) -> int {
    scaled(1000, e.advance as int, upm)
}

/// The (glyph id, scaled width) pairs of a glyph table.
pub open spec fn width_pairs(glyphs: Seq<GlyphWidthEntry>, upm: int) -> Seq<(int, int)> {
    glyphs.map_values(|e: GlyphWidthEntry| (e.gid as int, scaled_width(e, upm)))
}

/// The width the compressed table gives a glyph: the width of the first
/// decoded pair that names it, and the table's default width otherwise.
pub open spec fn width_lookup(pairs: Seq<(int, int)>, default_width: int, gid: int) -> int
    decreases pairs.len(),
{
    if pairs.len() == 0 {
        default_width
    } else if pairs[0].0 == gid {
        pairs[0].1
    } else {
        width_lookup(pairs.skip(1), default_width, gid)
    }
}

/// How many times value `v` occurs in `s`.
pub open spec fn count_of(s: Seq<int>, v: int) -> int
    decreases s.len(),
{
    if s.len() == 0 {
        0
    } else {
        (if s[0] == v {
            1int
        } else {
            0int
        }) + count_of(s.skip(1), v)
    }
}

/// Whether `v` is the mode of `s`: it occurs, nothing occurs more often,
/// and among the most frequent values it is the smallest.
pub open spec fn is_mode(s: Seq<int>, v: int) -> bool {
    &&& s.contains(v)
    &&& forall|w: int|
        s.contains(w) ==> count_of(s, w) < count_of(s, v) || (count_of(s, w) == count_of(s, v)
            && v <= w)
}

/// Decoding one more run appends that run's pairs.
pub proof fn lemma_decode_snoc(runs: Seq<WidthRunM>, r: WidthRunM)
    ensures
        decode_runs(runs.push(r)) == decode_runs(runs) + run_pairs(r),
    decreases runs.len(),
{
    lemma_decode_snoc_from(runs, r, 0);
}

proof fn lemma_decode_snoc_from(runs: Seq<WidthRunM>, r: WidthRunM, k: int)
    requires
        0 <= k <= runs.len(),
    ensures
        decode_runs_from(runs.push(r), k) == decode_runs_from(runs, k) + run_pairs(r),
    decreases runs.len() - k,
{
    if k == runs.len() {
        assert(decode_runs_from(runs.push(r), k) == run_pairs(r) + decode_runs_from(
            runs.push(r),
            k + 1,
        ));
        assert(decode_runs_from(runs.push(r), k + 1) =~= Seq::<(int, int)>::empty());
        assert(decode_runs_from(runs, k) =~= Seq::<(int, int)>::empty());
        assert(decode_runs_from(runs.push(r), k) =~= decode_runs_from(runs, k) + run_pairs(r));
    } else {
        lemma_decode_snoc_from(runs, r, k + 1);
        assert(runs.push(r)[k] == runs[k]);
        assert(decode_runs_from(runs.push(r), k) =~= decode_runs_from(runs, k) + run_pairs(r));
    }
}

/// Count how many times `v` occurs in a width list.
fn count_in(s: &Vec<i64>, v: i64) -> (r: usize)
    ensures
        r == count_of(s@.map_values(|w: i64| w as int), v as int),
{
    let ghost sm = s@.map_values(|w: i64| w as int);
    let mut n: usize = 0;
    let mut i: usize = 0;
    proof {
        lemma_count_bound(sm);
        assert(count_of(sm.take(0), v as int) == 0) by {
            assert(sm.take(0) =~= Seq::<int>::empty());
        }
    }
    while i < s.len()
        invariant
            0 <= i <= s@.len(),
            sm == s@.map_values(|w: i64| w as int),
            n == count_of(sm.take(i as int), v as int),
            n <= i,
        decreases s@.len() - i,
    {
        proof {
            lemma_count_snoc(sm.take(i as int), sm[i as int], v as int);
            assert(sm.take(i + 1) =~= sm.take(i as int).push(sm[i as int]));
        }
        if s[i] == v {
            n = n + 1;
        }
        i = i + 1;
    }
    proof {
        assert(sm.take(sm.len() as int) =~= sm);
    }
    n
}

/// Counting over one more element adds one exactly when it matches.
pub proof fn lemma_count_snoc(s: Seq<int>, w: int, v: int)
    ensures
        count_of(s.push(w), v) == count_of(s, v) + (if w == v {
            1int
        } else {
            0int
        }),
    decreases s.len(),
{
    if s.len() == 0 {
        assert(s.push(w)[0] == w);
        assert(s.push(w).skip(1) =~= Seq::<int>::empty());
        assert(count_of(Seq::<int>::empty(), v) == 0);
        assert(count_of(s.push(w), v) == (if w == v {
            1int
        } else {
            0int
        }) + count_of(s.push(w).skip(1), v));
    } else {
        assert(s.push(w)[0] == s[0]);
        assert(s.push(w).skip(1) =~= s.skip(1).push(w));
        lemma_count_snoc(s.skip(1), w, v);
        assert(count_of(s.push(w), v) == (if s[0] == v {
            1int
        } else {
            0int
        }) + count_of(s.push(w).skip(1), v));
    }
}

/// A count never exceeds the length.
pub proof fn lemma_count_bound(s: Seq<int>)
    ensures
        forall|v: int| 0 <= #[trigger] count_of(s, v) <= s.len(),
    decreases s.len(),
{
    if s.len() > 0 {
        lemma_count_bound(s.skip(1));
        assert forall|v: int| 0 <= #[trigger] count_of(s, v) <= s.len() by {
            assert(count_of(s, v) == (if s[0] == v {
                1int
            } else {
                0int
            }) + count_of(s.skip(1), v));
        }
    }
}

/// The mode of a non-empty width list: the most frequent value, and the
/// smallest such value on a tie.
fn mode_width(s: &Vec<i64>) -> (r: i64)
    requires
        s@.len() >= 1,
    ensures
        is_mode(s@.map_values(|w: i64| w as int), r as int),
{
    let ghost sm = s@.map_values(|w: i64| w as int);
    let mut best: i64 = s[0];
    let mut best_count: usize = count_in(s, s[0]);
    let mut i: usize = 1;
    proof {
        assert(sm[0] == s@[0] as int);
        assert(sm.contains(sm[0]));
    }
    while i < s.len()
        invariant
            1 <= i <= s@.len(),
            sm == s@.map_values(|w: i64| w as int),
            sm.contains(best as int),
            best_count == count_of(sm, best as int),
            forall|j: int|
                0 <= j < i ==> count_of(sm, #[trigger] sm[j]) < best_count || (count_of(
                    sm,
                    sm[j],
                ) == best_count && best as int <= sm[j]),
        decreases s@.len() - i,
    {
        let c = count_in(s, s[i]);
        proof {
            assert(sm[i as int] == s@[i as int] as int);
            assert(sm.contains(sm[i as int]));
        }
        if c > best_count || (c == best_count && s[i] < best) {
            best = s[i];
            best_count = c;
        }
        i = i + 1;
    }
    proof {
        assert forall|w: int| sm.contains(w) implies count_of(sm, w) < best_count || (count_of(
            sm,
            w,
        ) == best_count && best as int <= w) by {
            let j = choose|j: int| 0 <= j < sm.len() && sm[j] == w;
            assert(count_of(sm, sm[j]) < best_count || (count_of(sm, sm[j]) == best_count
                && best as int <= sm[j]));
        }
    }
    best
}

/// Compress a font's glyph table into the width table the output format
/// embeds: a default width — the mode of the scaled widths — plus maximal
/// runs of consecutive glyph ids with their widths, scaled to a 1000-unit
/// em. Decoding the runs gives back exactly the (glyph id, scaled width)
/// pairs of the glyph table, in glyph-id order; no run is empty, and a new
/// run starts only across a genuine gap in the glyph ids, so the runs are
/// maximal.
#[verifier::loop_isolation(false)]
pub fn compress_widths(font: &FontMetrics) -> (r: (i64, Vec<WidthRun>))
    requires
        font.wf(),
        font.glyphs@.len() >= 1,
    ensures
        decode_runs(runs_view(r.1@)) == width_pairs(font.glyphs@, font.units_per_em as int),
        forall|k: int| 0 <= k < r.1@.len() ==> (#[trigger] runs_view(r.1@)[k]).widths.len() >= 1,
        forall|k: int|
            0 <= k < r.1@.len() - 1 ==> (#[trigger] runs_view(r.1@)[k + 1]).start > runs_view(
                r.1@,
            )[k].start + runs_view(r.1@)[k].widths.len(),
        is_mode(
            font.glyphs@.map_values(
                |e: GlyphWidthEntry| scaled_width(e, font.units_per_em as int),
            ),
            r.0 as int,
        ),
{
    let ghost pairs = width_pairs(font.glyphs@, font.units_per_em as int);
    let mut widths: Vec<i64> = Vec::new();
    let mut i: usize = 0;
    while i < font.glyphs.len()
        invariant
            0 <= i <= font.glyphs@.len(),
            widths@.len() == i,
            forall|j: int|
                0 <= j < i ==> #[trigger] widths@[j] == scaled_width(
                    font.glyphs@[j],
                    font.units_per_em as int,
                ),
        decreases font.glyphs@.len() - i,
    {
        let e = font.glyphs[i];
        let w = crate::font::scale_metric(1000, e.advance as i64, font.units_per_em);
        widths.push(w);
        i = i + 1;
    }
    proof {
        assert(widths@.map_values(|w: i64| w as int) =~= font.glyphs@.map_values(
            |e: GlyphWidthEntry| scaled_width(e, font.units_per_em as int),
        ));
    }
    let default_width = mode_width(&widths);

    let mut runs: Vec<WidthRun> = Vec::new();
    let mut start: u16 = font.glyphs[0].gid;
    let mut cur: Vec<i64> = Vec::new();
    cur.push(widths[0]);
    let mut k: usize = 1;
    proof {
        assert(decode_runs(runs_view(runs@)) =~= Seq::<(int, int)>::empty());
        assert(run_pairs(
            WidthRunM { start: start as int, widths: cur@.map_values(|w: i64| w as int) },
        ) =~= pairs.take(1));
    }
    while k < font.glyphs.len()
        invariant
            1 <= k <= font.glyphs@.len(),
            widths@.len() == font.glyphs@.len(),
            forall|j: int|
                0 <= j < font.glyphs@.len() ==> #[trigger] widths@[j] == scaled_width(
                    font.glyphs@[j],
                    font.units_per_em as int,
                ),
            cur@.len() >= 1,
            start as int + cur@.len() == font.glyphs@[k - 1].gid + 1,
            forall|t: int|
                0 <= t < runs@.len() ==> (#[trigger] runs_view(runs@)[t]).widths.len() >= 1,
            forall|t: int|
                0 <= t < runs@.len() - 1 ==> (#[trigger] runs_view(runs@)[t + 1]).start
                    > runs_view(runs@)[t].start + runs_view(runs@)[t].widths.len(),
            runs@.len() >= 1 ==> start as int > runs_view(runs@).last().start + runs_view(
                runs@,
            ).last().widths.len(),
            decode_runs(runs_view(runs@)) + run_pairs(
                WidthRunM { start: start as int, widths: cur@.map_values(|w: i64| w as int) },
            ) == pairs.take(k as int),
        decreases font.glyphs@.len() - k,
    {
        let ghost cur_m = WidthRunM {
            start: start as int,
            widths: cur@.map_values(|w: i64| w as int),
        };
        let gid = font.glyphs[k].gid;
        let w = widths[k];
        proof {
            assert(font.glyphs@[k - 1].gid < font.glyphs@[k as int].gid);
        }
        if (gid - start) as usize > cur.len() {
            let run = WidthRun { start, widths: cur };
            let ghost runs_old = runs@;
            runs.push(run);
            proof {
                assert(runs_view(runs@) =~~= runs_view(runs_old).push(cur_m));
                lemma_decode_snoc(runs_view(runs_old), cur_m);
                assert(decode_runs(runs_view(runs@)) == pairs.take(k as int));
            }
            start = gid;
            cur = Vec::new();
            cur.push(w);
            proof {
                assert(run_pairs(
                    WidthRunM { start: start as int, widths: cur@.map_values(|v: i64| v as int) },
                ) =~= seq![(gid as int, w as int)]);
                assert(pairs.take(k + 1) =~= pairs.take(k as int) + seq![pairs[k as int]]);
                assert(pairs[k as int] == (gid as int, w as int));
                assert(decode_runs(runs_view(runs@)) + run_pairs(
                    WidthRunM { start: start as int, widths: cur@.map_values(|v: i64| v as int) },
                ) =~= pairs.take(k + 1));
            }
        } else {
            cur.push(w);
            proof {
                assert(run_pairs(
                    WidthRunM { start: start as int, widths: cur@.map_values(|v: i64| v as int) },
                ) =~= run_pairs(cur_m) + seq![(gid as int, w as int)]);
                assert(pairs.take(k + 1) =~= pairs.take(k as int) + seq![pairs[k as int]]);
                assert(pairs[k as int] == (gid as int, w as int));
                assert(decode_runs(runs_view(runs@)) + run_pairs(
                    WidthRunM { start: start as int, widths: cur@.map_values(|v: i64| v as int) },
                ) =~= pairs.take(k + 1));
            }
        }
        k = k + 1;
    }
    let run = WidthRun { start, widths: cur };
    let ghost cur_m = WidthRunM {
        start: start as int,
        widths: run.widths@.map_values(|w: i64| w as int),
    };
    let ghost runs_old = runs@;
    runs.push(run);
    proof {
        assert(runs_view(runs@) =~~= runs_view(runs_old).push(cur_m));
        lemma_decode_snoc(runs_view(runs_old), cur_m);
        assert(pairs.take(pairs.len() as int) =~= pairs);
        assert(decode_runs(runs_view(runs@)) =~= pairs);
    }
    (default_width, runs)
}

/// Looking a glyph id up hits the first pair that names it.
proof fn lemma_width_lookup_hit(pairs: Seq<(int, int)>, default_width: int, gid: int, k: int)
    requires
        0 <= k < pairs.len(),
        pairs[k].0 == gid,
        forall|j: int| 0 <= j < k ==> (#[trigger] pairs[j]).0 != gid,
    ensures
        width_lookup(pairs, default_width, gid) == pairs[k].1,
    decreases k,
{
    if k == 0 {
    } else {
        assert(pairs.skip(1)[k - 1] == pairs[k]);
        assert(forall|j: int| 0 <= j < k - 1 ==> (#[trigger] pairs.skip(1)[j]).0 != gid);
        lemma_width_lookup_hit(pairs.skip(1), default_width, gid, k - 1);
    }
}

/// Glyph table round-trip: for every glyph of the table, the width the
/// compressed run table recovers for its id equals the glyph's scaled
/// advance; ids the table does not list fall back to the default width,
/// which the lookup returns once the pairs are exhausted.
pub proof fn lemma_width_round_trip(
    glyphs: Seq<GlyphWidthEntry>,
    upm: int,
    runs: Seq<WidthRunM>,
    default_width: int,
    k: int,
)
    requires
        forall|i: int, j: int|
            0 <= i < j < glyphs.len() ==> (#[trigger] glyphs[i]).gid < (#[trigger] glyphs[j]).gid,
        decode_runs(runs) == width_pairs(glyphs, upm),
        0 <= k < glyphs.len(),
    ensures
        width_lookup(decode_runs(runs), default_width, glyphs[k].gid as int) == scaled_width(
            glyphs[k],
            upm,
        ),
{
    let pairs = width_pairs(glyphs, upm);
    assert(pairs[k] == (glyphs[k].gid as int, scaled_width(glyphs[k], upm)));
    assert forall|j: int| 0 <= j < k implies (#[trigger] pairs[j]).0 != glyphs[k].gid as int by {
        assert(glyphs[j].gid < glyphs[k].gid);
    }
    lemma_width_lookup_hit(pairs, default_width, glyphs[k].gid as int, k);
}

/// A glyph id that no pair names falls back to the default width.
pub proof fn lemma_width_lookup_default(pairs: Seq<(int, int)>, default_width: int, gid: int)
    requires
        forall|j: int| 0 <= j < pairs.len() ==> (#[trigger] pairs[j]).0 != gid,
    ensures
        width_lookup(pairs, default_width, gid) == default_width,
    decreases pairs.len(),
{
    if pairs.len() > 0 {
        lemma_width_lookup_default(pairs.skip(1), default_width, gid);
    }
}

/// The (glyph id, character) pairs of a glyph table, used for the reverse
/// (text-extraction) table.
pub open spec fn uni_pairs(glyphs: Seq<GlyphWidthEntry>) -> Seq<(u16, char)> {
    glyphs.map_values(|e: GlyphWidthEntry| (e.gid, e.cp))
}

/// The view of a block list.
pub open spec fn blocks_view(s: Seq<Vec<(u16, char)>>) -> Seq<Seq<(u16, char)>> {
    s.map_values(|v: Vec<(u16, char)>| v@)
}

/// The concatenation of a block list from block `k` on.
pub open spec fn blocks_flat_from(bs: Seq<Seq<(u16, char)>>, k: int) -> Seq<(u16, char)>
    decreases bs.len() - k,
{
    if k < 0 || k >= bs.len() {
        Seq::empty()
    } else {
        bs[k] + blocks_flat_from(bs, k + 1)
    }
}

/// The concatenation of a block list.
pub open spec fn blocks_flat(bs: Seq<Seq<(u16, char)>>) -> Seq<(u16, char)> {
    blocks_flat_from(bs, 0)
}

/// Flattening one more block appends its pairs.
proof fn lemma_blocks_flat_snoc(bs: Seq<Seq<(u16, char)>>, b: Seq<(u16, char)>, k: int)
    requires
        0 <= k <= bs.len(),
    ensures
        blocks_flat_from(bs.push(b), k) == blocks_flat_from(bs, k) + b,
    decreases bs.len() - k,
{
    if k == bs.len() {
        assert(blocks_flat_from(bs.push(b), k + 1) =~= Seq::<(u16, char)>::empty());
        assert(blocks_flat_from(bs, k) =~= Seq::<(u16, char)>::empty());
        assert(blocks_flat_from(bs.push(b), k) =~= blocks_flat_from(bs, k) + b);
    } else {
        lemma_blocks_flat_snoc(bs, b, k + 1);
        assert(bs.push(b)[k] == bs[k]);
        assert(blocks_flat_from(bs.push(b), k) =~= blocks_flat_from(bs, k) + b);
    }
}

/// Whether one reverse-table block is well formed: it is never empty, holds
/// at most one hundred pairs, and all its glyph ids share one high byte.
pub open spec fn block_wf(b: Seq<(u16, char)>) -> bool {
    &&& 1 <= b.len() <= 100
    &&& forall|i: int, j: int|
        0 <= i < j < b.len() ==> (#[trigger] b[i]).0 / 256 == (#[trigger] b[j]).0 / 256
}

/// Partition a font's glyph table into the blocks of the reverse
/// (glyph-id-to-character) table: the pairs in glyph-id order, cut so that
/// every block holds at most one hundred pairs, all with one high byte of
/// the glyph id. Concatenating the blocks gives back exactly the table's
/// (glyph id, character) pairs, and every cut is forced: a block ends only
/// full or at a high-byte change.
#[verifier::loop_isolation(false)]
pub fn to_unicode_blocks(font: &FontMetrics) -> (r: Vec<Vec<(u16, char)>>)
    requires
        font.wf(),
    ensures
        blocks_flat(blocks_view(r@)) == uni_pairs(font.glyphs@),
        forall|k: int| 0 <= k < r@.len() ==> block_wf(#[trigger] blocks_view(r@)[k]),
        forall|k: int|
            0 <= k < r@.len() - 1 ==> (#[trigger] blocks_view(r@)[k]).len() == 100 || blocks_view(
                r@,
            )[k][0].0 / 256 != blocks_view(r@)[k + 1][0].0 / 256,
{
    let ghost pairs = uni_pairs(font.glyphs@);
    let mut blocks: Vec<Vec<(u16, char)>> = Vec::new();
    let mut cur: Vec<(u16, char)> = Vec::new();
    let mut i: usize = 0;
    proof {
        assert(blocks_flat(blocks_view(blocks@)) =~= Seq::<(u16, char)>::empty());
        assert(blocks_flat(blocks_view(blocks@)) + cur@ =~= pairs.take(0));
    }
    while i < font.glyphs.len()
        invariant
            0 <= i <= font.glyphs@.len(),
            blocks_flat(blocks_view(blocks@)) + cur@ == pairs.take(i as int),
            forall|k: int| 0 <= k < blocks@.len() ==> block_wf(#[trigger] blocks_view(blocks@)[k]),
            forall|k: int|
                0 <= k < blocks@.len() - 1 ==> (#[trigger] blocks_view(blocks@)[k]).len() == 100
                    || blocks_view(blocks@)[k][0].0 / 256 != blocks_view(blocks@)[k + 1][0].0
                    / 256,
            blocks@.len() >= 1 && cur@.len() >= 1 ==> blocks_view(blocks@).last().len() == 100
                || blocks_view(blocks@).last()[0].0 / 256 != cur@[0].0 / 256,
            blocks@.len() >= 1 ==> cur@.len() >= 1,
            cur@.len() <= 100,
            i == 0 ==> cur@.len() == 0,
            cur@.len() >= 1 ==> i >= 1 && cur@.last() == pairs[i - 1],
            forall|a: int, b: int|
                0 <= a < b < cur@.len() ==> (#[trigger] cur@[a]).0 / 256 == (
                #[trigger] cur@[b]).0 / 256,
        decreases font.glyphs@.len() - i,
    {
        let e = font.glyphs[i];
        proof {
            assert(pairs[i as int] == (e.gid, e.cp));
        }
        if cur.len() > 0 && (cur[cur.len() - 1].0 / 256 != e.gid / 256 || cur.len() >= 100) {
            let ghost blocks_old = blocks@;
            let ghost cur_old = cur@;
            let full = cur;
            blocks.push(full);
            cur = Vec::new();
            proof {
                assert(blocks_view(blocks@) =~~= blocks_view(blocks_old).push(cur_old));
                lemma_blocks_flat_snoc(blocks_view(blocks_old), cur_old, 0);
                assert(blocks_flat(blocks_view(blocks@)) + cur@ =~= pairs.take(i as int));
            }
        }
        cur.push((e.gid, e.cp));
        proof {
            assert(pairs.take(i + 1) =~= pairs.take(i as int).push(pairs[i as int]));
            assert(blocks_flat(blocks_view(blocks@)) + cur@ =~= pairs.take(i + 1));
        }
        i = i + 1;
    }
    if cur.len() > 0 {
        let ghost blocks_old = blocks@;
        let ghost cur_old = cur@;
        blocks.push(cur);
        proof {
            assert(blocks_view(blocks@) =~~= blocks_view(blocks_old).push(cur_old));
            lemma_blocks_flat_snoc(blocks_view(blocks_old), cur_old, 0);
        }
    }
    proof {
        assert(pairs.take(pairs.len() as int) =~= pairs);
        assert(blocks_flat(blocks_view(blocks@)) =~= pairs);
    }
    blocks
}

/// One decimal digit as text.
pub open spec fn dec_digit_str(d: int) -> Seq<char> {
    if d == 0 {
        "0"@
    } else if d == 1 {
        "1"@
    } else if d == 2 {
        "2"@
    } else if d == 3 {
        "3"@
    } else if d == 4 {
        "4"@
    } else if d == 5 {
        "5"@
    } else if d == 6 {
        "6"@
    } else if d == 7 {
        "7"@
    } else if d == 8 {
        "8"@
    } else {
        "9"@
    }
}

/// One lower-case hexadecimal digit as text.
pub open spec fn hex_digit_str(d: int) -> Seq<char> {
    if d < 10 {
        dec_digit_str(d)
    } else if d == 10 {
        "a"@
    } else if d == 11 {
        "b"@
    } else if d == 12 {
        "c"@
    } else if d == 13 {
        "d"@
    } else if d == 14 {
        "e"@
    } else {
        "f"@
    }
}

/// A non-negative number in decimal.
pub open spec fn dec_chars(n: int) -> Seq<char>
    decreases n,
{
    if n < 10 {
        dec_digit_str(n)
    } else {
        dec_chars(n / 10) + dec_digit_str(n % 10)
    }
}

/// A non-negative number in lower-case hexadecimal.
pub open spec fn hex_chars(n: int) -> Seq<char>
    decreases n,
{
    if n < 16 {
        hex_digit_str(n)
    } else {
        hex_chars(n / 16) + hex_digit_str(n % 16)
    }
}

/// A number below 2^16 as exactly four hexadecimal digits.
pub open spec fn hex4_chars(n: int) -> Seq<char> {
    hex_digit_str(n / 4096 % 16) + hex_digit_str(n / 256 % 16) + hex_digit_str(n / 16 % 16)
        + hex_digit_str(n % 16)
}

/// A codepoint in hexadecimal, zero-padded to at least four digits.
pub open spec fn hex_min4_chars(n: int) -> Seq<char> {
    if n < 0x10000 {
        hex4_chars(n)
    } else {
        hex_chars(n)
    }
}

/// One reverse-table association line: the glyph id and the codepoint, each
/// in angle-bracketed hexadecimal.
pub open spec fn pair_line_text(p: (u16, char)) -> Seq<char> {
    "<"@ + hex4_chars(p.0 as int) + "> <"@ + hex_min4_chars(p.1 as int) + ">\n"@
}

/// The association lines of one block, from pair `i` on.
pub open spec fn block_lines_from(b: Seq<(u16, char)>, i: int) -> Seq<char>
    decreases b.len() - i,
{
    if i < 0 || i >= b.len() {
        Seq::empty()
    } else {
        pair_line_text(b[i]) + block_lines_from(b, i + 1)
    }
}

/// One reverse-table block: the pair count, the association lines, and the
/// block footer.
pub open spec fn block_text(b: Seq<(u16, char)>) -> Seq<char> {
    dec_chars(b.len() as int) + " beginbfchar\n"@ + block_lines_from(b, 0) + "endbfchar\n"@
}

/// The blocks of the reverse table from block `k` on, as text.
pub open spec fn blocks_text_from(bs: Seq<Seq<(u16, char)>>, k: int) -> Seq<char>
    decreases bs.len() - k,
{
    if k < 0 || k >= bs.len() {
        Seq::empty()
    } else {
        block_text(bs[k]) + blocks_text_from(bs, k + 1)
    }
}

/// The boilerplate that opens the reverse table's character map.
pub open spec fn cmap_header_text() -> Seq<char> {
    "/CIDInit /ProcSet findresource begin\n12 dict begin\nbegincmap\n/CIDSystemInfo\n<< /Registry (Adobe)\n/Ordering (UCS) /Supplement 0 >> def\n/CMapName /Adobe-Identity-UCS def\n/CMapType 2 def\n1 begincodespacerange\n<0000> <FFFF>\nendcodespacerange\n"@
}

/// The boilerplate that closes the reverse table's character map.
pub open spec fn cmap_footer_text() -> Seq<char> {
    "endcmap CMapName currentdict /CMap defineresource pop end end\n"@
}

/// The whole reverse table as a textual character map.
pub open spec fn to_unicode_text(bs: Seq<Seq<(u16, char)>>) -> Seq<char> {
    cmap_header_text() + blocks_text_from(bs, 0) + cmap_footer_text()
}

/// What the zlib compressor returns for a byte stream. The result is a
/// function of the bytes alone; nothing shorter than the algorithm itself
/// describes it.
pub uninterp spec fn zlib_of(bytes: Seq<u8>) -> Seq<u8>;

/// Compress a byte stream for embedding.
/// Relies on `miniz_oxide::deflate::compress_to_vec_zlib` at its default
/// level: the result depends on the input bytes alone.
#[verifier::external_body]
fn deflate_zlib(data: &Vec<u8>) -> (r: Vec<u8>)
    ensures
        r@ == zlib_of(data@),
{
    miniz_oxide::deflate::compress_to_vec_zlib(
        data.as_slice(),
        miniz_oxide::deflate::CompressionLevel::DefaultCompression as u8,
    )
}

/// Append a non-negative number in decimal.
fn push_dec(out: &mut String, n: usize)
    ensures
        final(out)@ == old(out)@ + dec_chars(n as int),
    decreases n,
{
    if n >= 10 {
        push_dec(out, n / 10);
    }
    let d = n % 10;
    push_digit(out, d);
    proof {
        if n >= 10 {
            assert(final(out)@ =~= old(out)@ + dec_chars(n as int));
        }
    }
}

/// Append one decimal digit.
fn push_digit(out: &mut String, d: usize)
    requires
        d < 10,
    ensures
        final(out)@ == old(out)@ + dec_digit_str(d as int),
{
    if d == 0 {
        out.append("0");
    } else if d == 1 {
        out.append("1");
    } else if d == 2 {
        out.append("2");
    } else if d == 3 {
        out.append("3");
    } else if d == 4 {
        out.append("4");
    } else if d == 5 {
        out.append("5");
    } else if d == 6 {
        out.append("6");
    } else if d == 7 {
        out.append("7");
    } else if d == 8 {
        out.append("8");
    } else {
        out.append("9");
    }
}

/// Append one lower-case hexadecimal digit.
fn push_hex_digit(out: &mut String, d: usize)
    requires
        d < 16,
    ensures
        final(out)@ == old(out)@ + hex_digit_str(d as int),
{
    if d < 10 {
        push_digit(out, d);
    } else if d == 10 {
        out.append("a");
    } else if d == 11 {
        out.append("b");
    } else if d == 12 {
        out.append("c");
    } else if d == 13 {
        out.append("d");
    } else if d == 14 {
        out.append("e");
    } else {
        out.append("f");
    }
}

/// Append a number below 2^16 as exactly four hexadecimal digits.
fn push_hex4(out: &mut String, n: u16)
    ensures
        final(out)@ == old(out)@ + hex4_chars(n as int),
{
    push_hex_digit(out, (n as usize / 4096) % 16);
    push_hex_digit(out, (n as usize / 256) % 16);
    push_hex_digit(out, (n as usize / 16) % 16);
    push_hex_digit(out, n as usize % 16);
    proof {
        assert(final(out)@ =~= old(out)@ + hex4_chars(n as int));
    }
}

/// Append a non-negative number in lower-case hexadecimal.
fn push_hex(out: &mut String, n: u32)
    ensures
        final(out)@ == old(out)@ + hex_chars(n as int),
    decreases n,
{
    if n >= 16 {
        push_hex(out, n / 16);
    }
    push_hex_digit(out, (n % 16) as usize);
    proof {
        if n >= 16 {
            assert(final(out)@ =~= old(out)@ + hex_chars(n as int));
        }
    }
}

/// Append a codepoint in hexadecimal, zero-padded to at least four digits.
fn push_hex_min4(out: &mut String, n: u32)
    ensures
        final(out)@ == old(out)@ + hex_min4_chars(n as int),
{
    if n < 0x10000 {
        push_hex4(out, n as u16);
    } else {
        push_hex(out, n);
    }
}

/// Append one association line of the reverse table.
fn push_pair_line(out: &mut String, p: (u16, char))
    ensures
        final(out)@ == old(out)@ + pair_line_text(p),
{
    out.append("<");
    push_hex4(out, p.0);
    out.append("> <");
    let c: char = p.1;
    let cp: u32 = c as u32;
    proof {
        crate::font::lemma_char_bound(c);
        assert(cp as int == c as int);
    }
    push_hex_min4(out, cp);
    out.append(">\n");
    proof {
        assert(final(out)@ =~= old(out)@ + pair_line_text(p));
    }
}

/// Append one block of the reverse table.
fn push_block(out: &mut String, b: &Vec<(u16, char)>)
    ensures
        final(out)@ == old(out)@ + block_text(b@),
{
    push_dec(out, b.len());
    out.append(" beginbfchar\n");
    let mut i: usize = 0;
    let ghost base = out@;
    while i < b.len()
        invariant
            0 <= i <= b@.len(),
            out@ + block_lines_from(b@, i as int) == base + block_lines_from(b@, 0),
        decreases b@.len() - i,
    {
        let p = b[i];
        push_pair_line(out, p);
        proof {
            assert(out@ + block_lines_from(b@, i + 1) =~= base + block_lines_from(b@, 0));
        }
        i = i + 1;
    }
    out.append("endbfchar\n");
    proof {
        assert(block_lines_from(b@, b@.len() as int) =~= Seq::<char>::empty());
        assert(final(out)@ =~= old(out)@ + block_text(b@));
    }
}

/// Render the reverse table's blocks as the textual character map the
/// output format embeds: the boilerplate header, one association block per
/// partition block, and the boilerplate footer.
pub fn to_unicode_cmap(blocks: &Vec<Vec<(u16, char)>>) -> (r: String)
    ensures
        r@ == to_unicode_text(blocks_view(blocks@)),
{
    let ghost bs = blocks_view(blocks@);
    let mut out = String::new();
    out.append(
        "/CIDInit /ProcSet findresource begin\n12 dict begin\nbegincmap\n/CIDSystemInfo\n<< /Registry (Adobe)\n/Ordering (UCS) /Supplement 0 >> def\n/CMapName /Adobe-Identity-UCS def\n/CMapType 2 def\n1 begincodespacerange\n<0000> <FFFF>\nendcodespacerange\n",
    );
    let mut k: usize = 0;
    proof {
        assert(out@ + blocks_text_from(bs, 0) =~= cmap_header_text() + blocks_text_from(bs, 0));
    }
    while k < blocks.len()
        invariant
            0 <= k <= bs.len(),
            bs == blocks_view(blocks@),
            out@ + blocks_text_from(bs, k as int) == cmap_header_text() + blocks_text_from(bs, 0),
        decreases bs.len() - k,
    {
        let b = &blocks[k];
        proof {
            assert(bs[k as int] == b@);
        }
        push_block(&mut out, b);
        proof {
            assert(out@ + blocks_text_from(bs, k + 1) =~= cmap_header_text() + blocks_text_from(
                bs,
                0,
            ));
        }
        k = k + 1;
    }
    out.append("endcmap CMapName currentdict /CMap defineresource pop end end\n");
    proof {
        assert(blocks_text_from(bs, bs.len() as int) =~= Seq::<char>::empty());
        assert(out@ =~= to_unicode_text(bs));
    }
    out
}

/// Build the embedded form of a font's reverse table: its blocks, and the
/// textual character map rendered from them and compressed with zlib.
pub fn to_unicode_table(font: &FontMetrics) -> (r: (Vec<Vec<(u16, char)>>, Vec<u8>))
    requires
        font.wf(),
    ensures
        blocks_flat(blocks_view(r.0@)) == uni_pairs(font.glyphs@),
        forall|k: int| 0 <= k < r.0@.len() ==> block_wf(#[trigger] blocks_view(r.0@)[k]),
        r.1@ == zlib_of(vstd::utf8::encode_utf8(to_unicode_text(blocks_view(r.0@)))),
{
    let blocks = to_unicode_blocks(font);
    let text = to_unicode_cmap(&blocks);
    let bytes = text.as_str().as_bytes_vec();
    let compressed = deflate_zlib(&bytes);
    (blocks, compressed)
}

} // verus!
