//! Paragraph layout: places glyphs left to right, wrapping lines that run
//! past a width and breaking lines at newlines.
//!
//! Lengths are integers in a fixed-point unit that the caller picks (for
//! example 1/64 of a pixel); the engine only adds and compares them.
use crate::chars::{is_control, is_control_char, is_whitespace, is_whitespace_char};
use vstd::prelude::*;

verus! {

/// The most characters that one call lays out.
pub const MAX_CHARS: usize = 0x4000_0000;

/// Layout units in one pixel.
pub const UNITS_PER_PIXEL: i64 = 64;

/// The margin, in pixels, that a text block leaves of the canvas width.
pub const TEXT_MARGIN: i64 = 180;

/// The width of a text block on a canvas `canvas_width` pixels wide: the
/// canvas width less the margin, in layout units, kept within `i32`.
pub open spec fn text_width_spec(canvas_width: int) -> int {
    let w = (canvas_width - TEXT_MARGIN) * UNITS_PER_PIXEL;
    if w > i32::MAX { i32::MAX as int } else if w < i32::MIN { i32::MIN as int } else { w }
}

/// The maximum line width for text on a canvas `canvas_width` pixels wide.
pub fn text_width(canvas_width: u32) -> (r: i32)
    ensures
        r == text_width_spec(canvas_width as int),
{
    let w: i64 = (canvas_width as i64 - TEXT_MARGIN) * UNITS_PER_PIXEL;
    if w > i32::MAX as i64 {
        i32::MAX
    } else if w < i32::MIN as i64 {
        i32::MIN
    } else {
        w as i32
    }
}

/// The vertical metrics of a font at one scale.
#[derive(Clone, Copy, Debug, PartialEq, Eq, Structural)]
pub struct LineMetrics {
    /// From the baseline up to the top of the tallest glyph.
    pub ascent: i32,
    /// The height of a line.
    pub height: i32,
    /// The extra space between two lines.
    pub line_gap: i32,
}

/// One character of the text with what the font says of it at the scale in use.
#[derive(Clone, Copy, Debug, PartialEq, Eq, Structural)]
pub struct CharMetrics {
    pub ch: char,
    /// The font's glyph for the character.
    pub glyph: u16,
    /// How far the pen moves after the glyph.
    pub advance: i32,
    /// The kerning between the glyph of the last non-control character
    /// before this one and this glyph (0 for the first).
    pub kern: i32,
}

/// A point in layout units.
#[derive(Clone, Copy, Debug, PartialEq, Eq, Structural)]
pub struct Point {
    pub x: i32,
    pub y: i32,
}

/// A glyph placed at a pen position.
#[derive(Clone, Copy, Debug, PartialEq, Eq, Structural)]
pub struct Glyph {
    pub id: u16,
    pub x: i64,
    pub y: i64,
}

/// The pen between two characters: where the next glyph goes, and whether a
/// glyph precedes it on the current line (so that kerning applies).
pub struct Pen {
    pub x: int,
    pub y: int,
    pub has_prev: bool,
}

/// A placed glyph, with the index of the character it came from.
pub struct GlyphAt {
    pub id: u16,
    pub x: int,
    pub y: int,
    pub src: int,
}

/// The distance from one baseline to the next.
pub open spec fn line_advance(m: LineMetrics) -> int {
    m.height + m.line_gap
}

/// The pen before the first character: the anchor is the top left of the
/// block, the first baseline one ascent below it.
pub open spec fn start_pen(m: LineMetrics, anchor: Point) -> Pen {
    Pen { x: anchor.x as int, y: anchor.y + m.ascent, has_prev: false }
}

/// The pen at the start of the next line.
pub open spec fn next_line(m: LineMetrics, anchor: Point, p: Pen) -> Pen {
    Pen { x: anchor.x as int, y: p.y + line_advance(m), has_prev: false }
}

/// Where the glyph of a non-control character goes.
pub open spec fn glyph_x(p: Pen, c: CharMetrics) -> int {
    if p.has_prev { p.x + c.kern } else { p.x }
}

/// Whether placing this glyph at pen `p` wraps the line after it.
pub open spec fn wraps(anchor: Point, max_width: int, p: Pen, c: CharMetrics) -> bool {
    !is_whitespace_char(c.ch) && glyph_x(p, c) + c.advance > anchor.x + max_width
}

/// The pen after character `c`.
pub open spec fn pen_after(m: LineMetrics, anchor: Point, max_width: int, p: Pen, c: CharMetrics) -> Pen {
    if is_control_char(c.ch) {
        if c.ch == '\n' { next_line(m, anchor, p) } else { p }
    } else if wraps(anchor, max_width, p, c) {
        next_line(m, anchor, p)
    } else {
        Pen { x: glyph_x(p, c) + c.advance, y: p.y, has_prev: true }
    }
}

/// The pen after the characters `cs`, starting from `p`.
pub open spec fn pen_through(m: LineMetrics, anchor: Point, max_width: int, p: Pen, cs: Seq<CharMetrics>) -> Pen
    decreases cs.len(),
{
    if cs.len() == 0 {
        p
    } else {
        pen_after(m, anchor, max_width, pen_through(m, anchor, max_width, p, cs.drop_last()), cs.last())
    }
}

/// The glyphs placed for the characters `cs`, starting from pen `p`; the
/// `src` of each counts from `base`.
pub open spec fn glyphs_from(m: LineMetrics, anchor: Point, max_width: int, p: Pen, cs: Seq<CharMetrics>, base: int) -> Seq<GlyphAt>
    decreases cs.len(),
{
    if cs.len() == 0 {
        Seq::empty()
    } else {
        let gs = glyphs_from(m, anchor, max_width, p, cs.drop_last(), base);
        let q = pen_through(m, anchor, max_width, p, cs.drop_last());
        let c = cs.last();
        if is_control_char(c.ch) {
            gs
        } else {
            gs.push(GlyphAt { id: c.glyph, x: glyph_x(q, c), y: q.y, src: base + cs.len() - 1 })
        }
    }
}

/// The glyphs that laying out `cs` from `anchor` places, in order.
pub open spec fn layout(m: LineMetrics, anchor: Point, max_width: int, cs: Seq<CharMetrics>) -> Seq<GlyphAt> {
    glyphs_from(m, anchor, max_width, start_pen(m, anchor), cs, 0)
}

/// Whether a placed glyph is the one that `g` describes.
pub open spec fn same_glyph(a: Glyph, g: GlyphAt) -> bool {
    a.id == g.id && a.x == g.x && a.y == g.y
}

/// The index of the last non-control character of `cs` before index `i`.
pub open spec fn kern_partner(cs: Seq<char>, i: int) -> Option<int>
    decreases i,
{
    if i <= 0 {
        None
    } else if !is_control_char(cs[i - 1]) {
        Some(i - 1)
    } else {
        kern_partner(cs, i - 1)
    }
}

/// An index as a `usize`.
pub open spec fn as_index(o: Option<int>) -> Option<usize> {
    match o {
        Some(k) => Some(k as usize),
        None => None,
    }
}

/// For each character of `text`, the index of the last non-control
/// character before it: the glyph whose kerning with this one the layout
/// applies, when the two share a line.
pub fn kern_partners(text: &Vec<char>) -> (r: Vec<Option<usize>>)
    ensures
        r@.len() == text@.len(),
        forall|i: int| 0 <= i < text@.len() ==> #[trigger] r@[i] == as_index(kern_partner(text@, i)),
{
    let mut r: Vec<Option<usize>> = Vec::new();
    let mut last: Option<usize> = None;
    let mut i: usize = 0;
    while i < text.len()
        invariant
            i <= text.len(),
            r@.len() == i,
            last == as_index(kern_partner(text@, i as int)),
            forall|j: int| 0 <= j < i ==> #[trigger] r@[j] == as_index(kern_partner(text@, j)),
        decreases text.len() - i,
    {
        r.push(last);
        if !is_control(text[i]) {
            last = Some(i);
        }
        i = i + 1;
    }
    r
}

/// A bound on how far the pen gets from the origin after `i` characters.
pub open spec fn pen_bound(i: int) -> int {
    0x1_0000_0000 + i * 0x1_0000_0000
}

/// Lays out `text` from `position` and appends the placed glyphs to `target`.
///
/// The first baseline lies one ascent below `position`. Control characters
/// place nothing; a newline starts a new line. Each other character places
/// its glyph at the pen, after the kerning with the glyph before it on the
/// same line, and moves the pen by its advance. When a non-whitespace
/// glyph takes the pen past `position.x + max_width`, the next glyph starts
/// a new line.
pub fn layout_paragraph(
    metrics: &LineMetrics,
    position: Point,
    max_width: i32,
    text: &Vec<CharMetrics>,
    target: &mut Vec<Glyph>,
)
    requires
        text.len() <= MAX_CHARS,
    ensures
        final(target)@.len() == old(target)@.len() + layout(*metrics, position, max_width as int, text@).len(),
        forall|k: int| 0 <= k < old(target)@.len() ==> #[trigger] final(target)@[k] == old(target)@[k],
        forall|k: int|
            0 <= k < layout(*metrics, position, max_width as int, text@).len() ==> same_glyph(
                #[trigger] final(target)@[old(target)@.len() + k],
                layout(*metrics, position, max_width as int, text@)[k],
            ),
{
    let ghost m = *metrics;
    let ghost w = max_width as int;
    let ghost p0 = start_pen(m, position);
    let ghost base = target@.len();
    let ghost before = target@;
    let v_advance: i64 = metrics.height as i64 + metrics.line_gap as i64;
    let limit: i64 = position.x as i64 + max_width as i64;
    let mut x: i64 = position.x as i64;
    let mut y: i64 = position.y as i64 + metrics.ascent as i64;
    let mut has_prev: bool = false;
    let mut i: usize = 0;
    while i < text.len()
        invariant
            m == *metrics,
            w == max_width as int,
            p0 == start_pen(m, position),
            v_advance == line_advance(m),
            limit == position.x + w,
            text.len() <= MAX_CHARS,
            i <= text.len(),
            pen_through(m, position, w, p0, text@.take(i as int)).x == x,
            pen_through(m, position, w, p0, text@.take(i as int)).y == y,
            pen_through(m, position, w, p0, text@.take(i as int)).has_prev == has_prev,
            -pen_bound(i as int) <= x <= pen_bound(i as int),
            -pen_bound(i as int) <= y <= pen_bound(i as int),
            target@.len() == base + glyphs_from(m, position, w, p0, text@.take(i as int), 0).len(),
            forall|k: int| 0 <= k < base ==> #[trigger] target@[k] == before[k],
            forall|k: int|
                0 <= k < glyphs_from(m, position, w, p0, text@.take(i as int), 0).len() ==> same_glyph(
                    #[trigger] target@[base + k],
                    glyphs_from(m, position, w, p0, text@.take(i as int), 0)[k],
                ),
        decreases text.len() - i,
    {
        let c = text[i];
        proof {
            assert(text@.take(i + 1).drop_last() == text@.take(i as int));
            assert(text@.take(i + 1).last() == c);
        }
        if is_control(c.ch) {
            if c.ch == '\n' {
                x = position.x as i64;
                y = y + v_advance;
                has_prev = false;
            }
        } else {
            let gx: i64 = if has_prev { x + c.kern as i64 } else { x };
            target.push(Glyph { id: c.glyph, x: gx, y });
            let nx: i64 = gx + c.advance as i64;
            if !is_whitespace(c.ch) && nx > limit {
                x = position.x as i64;
                y = y + v_advance;
                has_prev = false;
            } else {
                x = nx;
                has_prev = true;
            }
        }
        i = i + 1;
    }
    proof {
        assert(text@.take(text.len() as int) == text@);
    }
}

} // verus!

verus! {

/// The pen moved down by `d`.
pub open spec fn shift_pen(p: Pen, d: int) -> Pen {
    Pen { x: p.x, y: p.y + d, has_prev: p.has_prev }
}

/// Moving the starting pen down moves every later pen down by as much.
pub proof fn lemma_pen_shift(m: LineMetrics, anchor: Point, w: int, p: Pen, d: int, cs: Seq<CharMetrics>)
    ensures
        pen_through(m, anchor, w, shift_pen(p, d), cs) == shift_pen(pen_through(m, anchor, w, p, cs), d),
    decreases cs.len(),
{
    if cs.len() > 0 {
        lemma_pen_shift(m, anchor, w, p, d, cs.drop_last());
    }
}

/// Moving the starting pen down moves every glyph down by as much.
pub proof fn lemma_glyphs_shift(
    m: LineMetrics,
    anchor: Point,
    w: int,
    p: Pen,
    d: int,
    cs: Seq<CharMetrics>,
    base: int,
    base2: int,
)
    ensures
        glyphs_from(m, anchor, w, shift_pen(p, d), cs, base2).len() == glyphs_from(m, anchor, w, p, cs, base).len(),
        forall|i: int|
            0 <= i < glyphs_from(m, anchor, w, p, cs, base).len() ==> {
                let g = glyphs_from(m, anchor, w, p, cs, base)[i];
                #[trigger] glyphs_from(m, anchor, w, shift_pen(p, d), cs, base2)[i] == (GlyphAt {
                    id: g.id,
                    x: g.x,
                    y: g.y + d,
                    src: g.src + base2 - base,
                })
            },
    decreases cs.len(),
{
    if cs.len() > 0 {
        lemma_glyphs_shift(m, anchor, w, p, d, cs.drop_last(), base, base2);
        lemma_pen_shift(m, anchor, w, p, d, cs.drop_last());
    }
}

/// Laying out `cs + ds` lays out `cs`, then `ds` from the pen that `cs` left.
pub proof fn lemma_split(m: LineMetrics, anchor: Point, w: int, p: Pen, cs: Seq<CharMetrics>, ds: Seq<CharMetrics>, base: int)
    ensures
        pen_through(m, anchor, w, p, cs + ds) == pen_through(m, anchor, w, pen_through(m, anchor, w, p, cs), ds),
        glyphs_from(m, anchor, w, p, cs + ds, base) == glyphs_from(m, anchor, w, p, cs, base) + glyphs_from(
            m,
            anchor,
            w,
            pen_through(m, anchor, w, p, cs),
            ds,
            base + cs.len(),
        ),
    decreases ds.len(),
{
    if ds.len() == 0 {
        assert(cs + ds == cs);
    } else {
        lemma_split(m, anchor, w, p, cs, ds.drop_last(), base);
        assert((cs + ds).drop_last() == cs + ds.drop_last());
    }
}

/// A newline places no glyph and starts a new line: the glyphs of the text
/// after it are those that the same text alone places, moved down to one
/// line advance below the baseline that the text before it ended on.
pub proof fn lemma_newline_starts_line(
    m: LineMetrics,
    anchor: Point,
    w: int,
    cs: Seq<CharMetrics>,
    nl: CharMetrics,
    ds: Seq<CharMetrics>,
)
    requires
        nl.ch == '\n',
    ensures
        ({
            let gs = layout(m, anchor, w, cs.push(nl) + ds);
            let pre = layout(m, anchor, w, cs);
            let post = layout(m, anchor, w, ds);
            let d = pen_through(m, anchor, w, start_pen(m, anchor), cs).y + line_advance(m) - start_pen(m, anchor).y;
            &&& gs.len() == pre.len() + post.len()
            &&& forall|i: int| 0 <= i < pre.len() ==> #[trigger] gs[i] == pre[i]
            &&& forall|j: int|
                0 <= j < post.len() ==> {
                    let g = #[trigger] gs[pre.len() + j];
                    g.id == post[j].id && g.x == post[j].x && g.y == post[j].y + d
                }
        }),
{
    let p0 = start_pen(m, anchor);
    let q = pen_through(m, anchor, w, p0, cs);
    let d = q.y + line_advance(m) - p0.y;
    lemma_split(m, anchor, w, p0, cs.push(nl), ds, 0);
    assert(cs.push(nl).drop_last() == cs);
    assert(pen_through(m, anchor, w, p0, cs.push(nl)) == shift_pen(p0, d));
    lemma_glyphs_shift(m, anchor, w, p0, d, ds, 0, cs.len() + 1 as int);
}

/// With a non-negative line advance, every glyph lies between the starting
/// pen's baseline and the final pen's baseline.
pub proof fn lemma_baselines_descend(m: LineMetrics, anchor: Point, w: int, p: Pen, cs: Seq<CharMetrics>, base: int)
    requires
        line_advance(m) >= 0,
    ensures
        p.y <= pen_through(m, anchor, w, p, cs).y,
        forall|i: int|
            0 <= i < glyphs_from(m, anchor, w, p, cs, base).len() ==> p.y <= #[trigger] glyphs_from(
                m,
                anchor,
                w,
                p,
                cs,
                base,
            )[i].y <= pen_through(m, anchor, w, p, cs).y,
    decreases cs.len(),
{
    if cs.len() > 0 {
        lemma_baselines_descend(m, anchor, w, p, cs.drop_last(), base);
        let prev = glyphs_from(m, anchor, w, p, cs.drop_last(), base);
        let gs = glyphs_from(m, anchor, w, p, cs, base);
        let q = pen_through(m, anchor, w, p, cs.drop_last());
        assert(q.y <= pen_through(m, anchor, w, p, cs).y);
        assert forall|i: int| 0 <= i < gs.len() implies p.y <= #[trigger] gs[i].y <= pen_through(
            m,
            anchor,
            w,
            p,
            cs,
        ).y by {
            if i < prev.len() {
                assert(gs[i] == prev[i]);
            }
        }
    }
}

/// With a positive line advance, every glyph after a newline lies on a
/// lower baseline than every glyph before it.
pub proof fn lemma_newline_moves_down(
    m: LineMetrics,
    anchor: Point,
    w: int,
    cs: Seq<CharMetrics>,
    nl: CharMetrics,
    ds: Seq<CharMetrics>,
)
    requires
        nl.ch == '\n',
        line_advance(m) > 0,
    ensures
        forall|i: int, j: int|
            0 <= i < layout(m, anchor, w, cs).len() <= j < layout(m, anchor, w, cs.push(nl) + ds).len()
                ==> #[trigger] layout(m, anchor, w, cs.push(nl) + ds)[j].y >= #[trigger] layout(
                m,
                anchor,
                w,
                cs.push(nl) + ds,
            )[i].y + line_advance(m),
{
    let p0 = start_pen(m, anchor);
    lemma_newline_starts_line(m, anchor, w, cs, nl, ds);
    lemma_baselines_descend(m, anchor, w, p0, cs, 0);
    lemma_baselines_descend(m, anchor, w, p0, ds, 0);
    let pre = layout(m, anchor, w, cs);
    let gs = layout(m, anchor, w, cs.push(nl) + ds);
    assert forall|i: int, j: int| 0 <= i < pre.len() <= j < gs.len() implies #[trigger] gs[j].y >= #[trigger] gs[i].y
        + line_advance(m) by {
        assert(gs[pre.len() + (j - pre.len())] == gs[j]);
    }
}

} // verus!

verus! {

/// The number of non-control characters in `cs`.
pub open spec fn glyph_count(cs: Seq<CharMetrics>) -> nat
    decreases cs.len(),
{
    if cs.len() == 0 {
        0
    } else if is_control_char(cs.last().ch) {
        glyph_count(cs.drop_last())
    } else {
        glyph_count(cs.drop_last()) + 1
    }
}

/// Whether `cs` holds a non-control character.
pub open spec fn has_glyph(cs: Seq<CharMetrics>) -> bool {
    glyph_count(cs) > 0
}

/// The advance of the last non-control character of `cs`.
pub open spec fn last_advance(cs: Seq<CharMetrics>) -> int
    decreases cs.len(),
{
    if cs.len() == 0 {
        0
    } else if is_control_char(cs.last().ch) {
        last_advance(cs.drop_last())
    } else {
        cs.last().advance as int
    }
}

/// Layout places one glyph for each non-control character, in the order of
/// the text, with that character's glyph id.
pub proof fn lemma_one_glyph_per_character(m: LineMetrics, anchor: Point, w: int, cs: Seq<CharMetrics>)
    ensures
        layout(m, anchor, w, cs).len() == glyph_count(cs),
        forall|i: int|
            0 <= i < layout(m, anchor, w, cs).len() ==> {
                let g = #[trigger] layout(m, anchor, w, cs)[i];
                &&& 0 <= g.src < cs.len()
                &&& !is_control_char(cs[g.src].ch)
                &&& g.id == cs[g.src].glyph
            },
        forall|i: int, j: int|
            0 <= i < j < layout(m, anchor, w, cs).len() ==> #[trigger] layout(m, anchor, w, cs)[i].src
                < #[trigger] layout(m, anchor, w, cs)[j].src,
    decreases cs.len(),
{
    if cs.len() > 0 {
        let prev = cs.drop_last();
        lemma_one_glyph_per_character(m, anchor, w, prev);
        let gp = layout(m, anchor, w, prev);
        let gs = layout(m, anchor, w, cs);
        assert forall|i: int| 0 <= i < gp.len() implies #[trigger] gs[i] == gp[i] && cs[gp[i].src] == prev[gp[i].src] by {
        }
    }
}

/// In a font whose ascent and line advance are not negative, and in a text
/// where no kerning pulls a glyph back past the start of the glyph before
/// it, every glyph lies at or right of the anchor and at or below it, and
/// each glyph's baseline is at or below the one before.
pub proof fn lemma_glyphs_follow_anchor(m: LineMetrics, anchor: Point, w: int, cs: Seq<CharMetrics>)
    requires
        m.ascent >= 0,
        line_advance(m) >= 0,
        forall|i: int|
            0 <= i < cs.len() && !is_control_char(cs[i].ch) && has_glyph(cs.take(i)) ==> last_advance(
                cs.take(i),
            ) + (#[trigger] cs[i]).kern >= 0,
    ensures
        forall|i: int|
            0 <= i < layout(m, anchor, w, cs).len() ==> #[trigger] layout(m, anchor, w, cs)[i].x >= anchor.x
                && layout(m, anchor, w, cs)[i].y >= anchor.y,
        forall|i: int, j: int|
            0 <= i < j < layout(m, anchor, w, cs).len() ==> #[trigger] layout(m, anchor, w, cs)[i].y
                <= #[trigger] layout(m, anchor, w, cs)[j].y,
{
    lemma_pen_follows_anchor(m, anchor, w, cs);
}

/// The pen stays where `lemma_glyphs_follow_anchor` needs it.
proof fn lemma_pen_follows_anchor(m: LineMetrics, anchor: Point, w: int, cs: Seq<CharMetrics>)
    requires
        m.ascent >= 0,
        line_advance(m) >= 0,
        forall|i: int|
            0 <= i < cs.len() && !is_control_char(cs[i].ch) && has_glyph(cs.take(i)) ==> last_advance(
                cs.take(i),
            ) + (#[trigger] cs[i]).kern >= 0,
    ensures
        ({
            let p = pen_through(m, anchor, w, start_pen(m, anchor), cs);
            &&& p.y >= anchor.y + m.ascent
            &&& !p.has_prev ==> p.x == anchor.x
            &&& p.has_prev ==> has_glyph(cs) && p.x - last_advance(cs) >= anchor.x
            &&& forall|i: int|
                0 <= i < layout(m, anchor, w, cs).len() ==> #[trigger] layout(m, anchor, w, cs)[i].x >= anchor.x
                    && layout(m, anchor, w, cs)[i].y >= anchor.y + m.ascent
                    && layout(m, anchor, w, cs)[i].y <= p.y
        }),
        forall|i: int, j: int|
            0 <= i < j < layout(m, anchor, w, cs).len() ==> #[trigger] layout(m, anchor, w, cs)[i].y
                <= #[trigger] layout(m, anchor, w, cs)[j].y,
    decreases cs.len(),
{
    if cs.len() > 0 {
        let prev = cs.drop_last();
        assert forall|i: int|
            0 <= i < prev.len() && !is_control_char(prev[i].ch) && has_glyph(prev.take(i)) implies last_advance(
            prev.take(i),
        ) + (#[trigger] prev[i]).kern >= 0 by {
            assert(prev.take(i) == cs.take(i));
            assert(prev[i] == cs[i]);
        }
        lemma_pen_follows_anchor(m, anchor, w, prev);
        assert(cs.take(prev.len() as int) == prev);
        let gp = layout(m, anchor, w, prev);
        let gs = layout(m, anchor, w, cs);
        assert forall|i: int| 0 <= i < gp.len() implies #[trigger] gs[i] == gp[i] by {}
        assert forall|i: int, j: int| 0 <= i < j < gs.len() implies #[trigger] gs[i].y <= #[trigger] gs[j].y by {
            if j < gp.len() {
                assert(gs[i] == gp[i] && gs[j] == gp[j]);
            } else {
                let q = pen_through(m, anchor, w, start_pen(m, anchor), prev);
                assert(gs[i] == gp[i]);
                assert(gp[i].x >= anchor.x);
                assert(gp[i].y <= q.y);
                assert(gs == gp.push(GlyphAt { id: cs.last().glyph, x: glyph_x(q, cs.last()), y: q.y, src: cs.len() - 1 }));
            }
        }
    }
}

/// With a non-negative line advance: when a non-whitespace glyph takes the
/// pen past `anchor.x + w`, the next glyph starts a line of its own, at the
/// anchor's x and at least one line advance lower.
pub proof fn lemma_wrap_after_overflow(m: LineMetrics, anchor: Point, w: int, cs: Seq<CharMetrics>)
    requires
        line_advance(m) >= 0,
    ensures
        forall|i: int|
            0 <= i && i + 1 < layout(m, anchor, w, cs).len() ==> {
                let g = #[trigger] layout(m, anchor, w, cs)[i];
                let c = cs[g.src];
                let h = layout(m, anchor, w, cs)[i + 1];
                !is_whitespace_char(c.ch) && g.x + c.advance > anchor.x + w ==> h.x == anchor.x && h.y >= g.y
                    + line_advance(m)
            },
{
    lemma_wrap_pen(m, anchor, w, cs);
}

/// The pen after a glyph that overflowed the line is at the start of a
/// lower line.
proof fn lemma_wrap_pen(m: LineMetrics, anchor: Point, w: int, cs: Seq<CharMetrics>)
    requires
        line_advance(m) >= 0,
    ensures
        ({
            let gs = layout(m, anchor, w, cs);
            let p = pen_through(m, anchor, w, start_pen(m, anchor), cs);
            &&& forall|i: int| 0 <= i < gs.len() ==> 0 <= #[trigger] gs[i].src < cs.len()
            &&& forall|i: int| 0 <= i < gs.len() ==> #[trigger] gs[i].y <= p.y
            &&& gs.len() > 0 && !is_whitespace_char(cs[gs.last().src].ch) && gs.last().x + cs[gs.last().src].advance
                > anchor.x + w ==> p.x == anchor.x && !p.has_prev && p.y >= gs.last().y + line_advance(m)
            &&& forall|i: int|
                0 <= i && i + 1 < gs.len() ==> {
                    let g = #[trigger] gs[i];
                    let c = cs[g.src];
                    let h = gs[i + 1];
                    !is_whitespace_char(c.ch) && g.x + c.advance > anchor.x + w ==> h.x == anchor.x && h.y >= g.y
                        + line_advance(m)
                }
        }),
    decreases cs.len(),
{
    if cs.len() > 0 {
        let prev = cs.drop_last();
        lemma_wrap_pen(m, anchor, w, prev);
        let gp = layout(m, anchor, w, prev);
        let gs = layout(m, anchor, w, cs);
        assert forall|i: int| 0 <= i < gp.len() implies #[trigger] gs[i] == gp[i] && cs[gp[i].src] == prev[gp[i].src] by {
        }
    }
}

} // verus!

verus! {

/// Whether a newline stands in `cs` strictly between indices `i` and `j`.
pub open spec fn newline_between(cs: Seq<CharMetrics>, i: int, j: int) -> bool {
    exists|k: int| i < k < j && (#[trigger] cs[k]).ch == '\n'
}

/// Two glyphs in a row share a line unless a newline stands between their
/// characters or the first is a non-whitespace glyph that took the pen past
/// `anchor.x + w`: then the second follows the first by its advance and the
/// kerning, on the same baseline.
pub proof fn lemma_same_line_unless_broken(m: LineMetrics, anchor: Point, w: int, cs: Seq<CharMetrics>)
    ensures
        forall|i: int|
            0 <= i && i + 1 < layout(m, anchor, w, cs).len() ==> {
                let g = #[trigger] layout(m, anchor, w, cs)[i];
                let h = layout(m, anchor, w, cs)[i + 1];
                let c = cs[g.src];
                !(!is_whitespace_char(c.ch) && g.x + c.advance > anchor.x + w) && !newline_between(cs, g.src, h.src)
                    ==> h.y == g.y && h.x == g.x + c.advance + cs[h.src].kern
            },
{
    lemma_one_glyph_per_character(m, anchor, w, cs);
    lemma_line_pen(m, anchor, w, cs);
}

/// The pen after a glyph that did not overflow, with no newline since,
/// stands right after that glyph.
proof fn lemma_line_pen(m: LineMetrics, anchor: Point, w: int, cs: Seq<CharMetrics>)
    ensures
        ({
            let gs = layout(m, anchor, w, cs);
            let p = pen_through(m, anchor, w, start_pen(m, anchor), cs);
            &&& gs.len() > 0 && !(!is_whitespace_char(cs[gs.last().src].ch) && gs.last().x + cs[gs.last().src].advance
                > anchor.x + w) && !newline_between(cs, gs.last().src, cs.len() as int) ==> p.has_prev && p.x
                == gs.last().x + cs[gs.last().src].advance && p.y == gs.last().y
            &&& forall|i: int|
                0 <= i && i + 1 < gs.len() ==> {
                    let g = #[trigger] gs[i];
                    let h = gs[i + 1];
                    let c = cs[g.src];
                    !(!is_whitespace_char(c.ch) && g.x + c.advance > anchor.x + w) && !newline_between(cs, g.src, h.src)
                        ==> h.y == g.y && h.x == g.x + c.advance + cs[h.src].kern
                }
        }),
    decreases cs.len(),
{
    lemma_one_glyph_per_character(m, anchor, w, cs);
    if cs.len() > 0 {
        let prev = cs.drop_last();
        lemma_line_pen(m, anchor, w, prev);
        lemma_one_glyph_per_character(m, anchor, w, prev);
        let gp = layout(m, anchor, w, prev);
        let gs = layout(m, anchor, w, cs);
        let n = cs.len() - 1;
        assert forall|i: int| 0 <= i < gp.len() implies #[trigger] gs[i] == gp[i] && cs[gp[i].src] == prev[gp[i].src] by {}
        if gp.len() > 0 {
            let g = gp.last();
            assert(gp[gp.len() - 1] == g);
            if !newline_between(cs, g.src, cs.len() as int) {
                assert forall|k: int| g.src < k < prev.len() implies (#[trigger] prev[k]).ch != '\n' by {
                    assert(prev[k] == cs[k]);
                }
            }
            if !newline_between(cs, g.src, n) {
                assert forall|k: int| g.src < k < prev.len() implies (#[trigger] prev[k]).ch != '\n' by {
                    assert(prev[k] == cs[k]);
                }
            }
        }
        assert forall|i: int| 0 <= i && i + 1 < gs.len() implies {
            let g = #[trigger] gs[i];
            let h = gs[i + 1];
            let c = cs[g.src];
            !(!is_whitespace_char(c.ch) && g.x + c.advance > anchor.x + w) && !newline_between(cs, g.src, h.src)
                ==> h.y == g.y && h.x == g.x + c.advance + cs[h.src].kern
        } by {
            if i + 1 < gp.len() {
                assert(gs[i + 1] == gp[i + 1]);
                let g = gp[i];
                let h = gp[i + 1];
                if !newline_between(cs, g.src, h.src) {
                    assert forall|k: int| g.src < k < h.src implies (#[trigger] prev[k]).ch != '\n' by {
                        assert(prev[k] == cs[k]);
                    }
                }
            }
        }
    }
}

} // verus!

verus! {

/// With a non-negative width, no whitespace but control characters, and
/// kerning that never moves a glyph right nor back past the start of the
/// glyph before it, every glyph starts within `[anchor.x, anchor.x + w]`:
/// the line wraps on the first glyph that crosses the limit.
pub proof fn lemma_glyphs_within_width(m: LineMetrics, anchor: Point, w: int, cs: Seq<CharMetrics>)
    requires
        w >= 0,
        forall|i: int| 0 <= i < cs.len() ==> is_whitespace_char((#[trigger] cs[i]).ch) ==> is_control_char(cs[i].ch),
        forall|i: int| 0 <= i < cs.len() ==> (#[trigger] cs[i]).kern <= 0,
        forall|i: int|
            0 <= i < cs.len() && !is_control_char(cs[i].ch) && has_glyph(cs.take(i)) ==> last_advance(
                cs.take(i),
            ) + (#[trigger] cs[i]).kern >= 0,
    ensures
        forall|i: int|
            0 <= i < layout(m, anchor, w, cs).len() ==> anchor.x <= #[trigger] layout(m, anchor, w, cs)[i].x
                <= anchor.x + w,
{
    lemma_pen_within_width(m, anchor, w, cs);
}

/// The pen stays where `lemma_glyphs_within_width` needs it.
proof fn lemma_pen_within_width(m: LineMetrics, anchor: Point, w: int, cs: Seq<CharMetrics>)
    requires
        w >= 0,
        forall|i: int| 0 <= i < cs.len() ==> is_whitespace_char((#[trigger] cs[i]).ch) ==> is_control_char(cs[i].ch),
        forall|i: int| 0 <= i < cs.len() ==> (#[trigger] cs[i]).kern <= 0,
        forall|i: int|
            0 <= i < cs.len() && !is_control_char(cs[i].ch) && has_glyph(cs.take(i)) ==> last_advance(
                cs.take(i),
            ) + (#[trigger] cs[i]).kern >= 0,
    ensures
        ({
            let p = pen_through(m, anchor, w, start_pen(m, anchor), cs);
            &&& p.x <= anchor.x + w
            &&& !p.has_prev ==> p.x == anchor.x
            &&& p.has_prev ==> has_glyph(cs) && p.x - last_advance(cs) >= anchor.x
            &&& forall|i: int|
                0 <= i < layout(m, anchor, w, cs).len() ==> anchor.x <= #[trigger] layout(m, anchor, w, cs)[i].x
                    <= anchor.x + w
        }),
    decreases cs.len(),
{
    if cs.len() > 0 {
        let prev = cs.drop_last();
        assert forall|i: int|
            0 <= i < prev.len() && !is_control_char(prev[i].ch) && has_glyph(prev.take(i)) implies last_advance(
            prev.take(i),
        ) + (#[trigger] prev[i]).kern >= 0 by {
            assert(prev.take(i) == cs.take(i));
            assert(prev[i] == cs[i]);
        }
        assert forall|i: int| 0 <= i < prev.len() implies is_whitespace_char((#[trigger] prev[i]).ch)
            ==> is_control_char(prev[i].ch) by {
            assert(prev[i] == cs[i]);
        }
        assert forall|i: int| 0 <= i < prev.len() implies (#[trigger] prev[i]).kern <= 0 by {
            assert(prev[i] == cs[i]);
        }
        lemma_pen_within_width(m, anchor, w, prev);
        assert(cs.take(prev.len() as int) == prev);
        assert(cs[prev.len() as int] == cs.last());
        let gp = layout(m, anchor, w, prev);
        let gs = layout(m, anchor, w, cs);
        assert forall|i: int| 0 <= i < gp.len() implies #[trigger] gs[i] == gp[i] by {}
    }
}

} // verus!

verus! {

/// With a positive line advance, and kerning that never pulls a glyph back
/// past the start of the glyph before it, the pen only moves right or down:
/// of two glyphs, the later lies on the same baseline or a lower one, and on
/// the same baseline at the same x or further right.
pub proof fn lemma_reading_order(m: LineMetrics, anchor: Point, w: int, cs: Seq<CharMetrics>)
    requires
        line_advance(m) > 0,
        forall|i: int|
            0 <= i < cs.len() && !is_control_char(cs[i].ch) && has_glyph(cs.take(i)) ==> last_advance(
                cs.take(i),
            ) + (#[trigger] cs[i]).kern >= 0,
    ensures
        forall|i: int, j: int|
            0 <= i < j < layout(m, anchor, w, cs).len() ==> {
                let g = #[trigger] layout(m, anchor, w, cs)[i];
                let h = #[trigger] layout(m, anchor, w, cs)[j];
                g.y <= h.y && (g.y == h.y ==> g.x <= h.x)
            },
{
    lemma_pen_reading_order(m, anchor, w, cs);
}

/// The pen stays where `lemma_reading_order` needs it.
proof fn lemma_pen_reading_order(m: LineMetrics, anchor: Point, w: int, cs: Seq<CharMetrics>)
    requires
        line_advance(m) > 0,
        forall|i: int|
            0 <= i < cs.len() && !is_control_char(cs[i].ch) && has_glyph(cs.take(i)) ==> last_advance(
                cs.take(i),
            ) + (#[trigger] cs[i]).kern >= 0,
    ensures
        ({
            let p = pen_through(m, anchor, w, start_pen(m, anchor), cs);
            let gs = layout(m, anchor, w, cs);
            &&& forall|i: int| 0 <= i < gs.len() ==> (#[trigger] gs[i]).y <= p.y
            &&& !p.has_prev ==> forall|i: int| 0 <= i < gs.len() ==> (#[trigger] gs[i]).y < p.y
            &&& p.has_prev ==> has_glyph(cs) && forall|i: int|
                0 <= i < gs.len() && (#[trigger] gs[i]).y == p.y ==> gs[i].x <= p.x - last_advance(cs)
            &&& forall|i: int, j: int|
                0 <= i < j < gs.len() ==> {
                    let g = #[trigger] gs[i];
                    let h = #[trigger] gs[j];
                    g.y <= h.y && (g.y == h.y ==> g.x <= h.x)
                }
        }),
    decreases cs.len(),
{
    if cs.len() > 0 {
        let prev = cs.drop_last();
        assert forall|i: int|
            0 <= i < prev.len() && !is_control_char(prev[i].ch) && has_glyph(prev.take(i)) implies last_advance(
            prev.take(i),
        ) + (#[trigger] prev[i]).kern >= 0 by {
            assert(prev.take(i) == cs.take(i));
            assert(prev[i] == cs[i]);
        }
        lemma_pen_reading_order(m, anchor, w, prev);
        assert(cs.take(prev.len() as int) == prev);
        assert(cs[prev.len() as int] == cs.last());
        let gp = layout(m, anchor, w, prev);
        let gs = layout(m, anchor, w, cs);
        assert forall|i: int| 0 <= i < gp.len() implies #[trigger] gs[i] == gp[i] by {}
        assert forall|i: int, j: int| 0 <= i < j < gs.len() implies {
            let g = #[trigger] gs[i];
            let h = #[trigger] gs[j];
            g.y <= h.y && (g.y == h.y ==> g.x <= h.x)
        } by {
            if j < gp.len() {
                assert(gs[i] == gp[i] && gs[j] == gp[j]);
            } else {
                assert(gs[i] == gp[i]);
            }
        }
    }
}

} // verus!

verus! {

/// Whether the glyph `g` of character `c` takes the pen past the limit.
pub open spec fn overflows(anchor: Point, w: int, g: GlyphAt, c: CharMetrics) -> bool {
    !is_whitespace_char(c.ch) && g.x + c.advance > anchor.x + w
}

/// In a text without control characters, glyph `i` is that of character
/// `i`, and the next glyph moves to a new line exactly when glyph `i`
/// overflows: then it stands at the anchor's x one line advance lower;
/// otherwise it follows on the same baseline after the advance and the
/// kerning. A character that the font lacks is placed the same way, with
/// the glyph id and advance that the font gives it.
pub proof fn lemma_control_free_lines(m: LineMetrics, anchor: Point, w: int, cs: Seq<CharMetrics>)
    requires
        line_advance(m) > 0,
        forall|i: int| 0 <= i < cs.len() ==> !is_control_char((#[trigger] cs[i]).ch),
    ensures
        layout(m, anchor, w, cs).len() == cs.len(),
        forall|i: int|
            0 <= i < cs.len() ==> (#[trigger] layout(m, anchor, w, cs)[i]).src == i && layout(m, anchor, w, cs)[i].id
                == cs[i].glyph,
        forall|i: int|
            0 <= i && i + 1 < cs.len() ==> {
                let g = #[trigger] layout(m, anchor, w, cs)[i];
                let h = layout(m, anchor, w, cs)[i + 1];
                &&& (h.y != g.y <==> overflows(anchor, w, g, cs[i]))
                &&& overflows(anchor, w, g, cs[i]) ==> h.x == anchor.x && h.y == g.y + line_advance(m)
                &&& !overflows(anchor, w, g, cs[i]) ==> h.x == g.x + cs[i].advance + cs[i + 1].kern
            },
{
    lemma_control_free_pen(m, anchor, w, cs);
}

/// The pen after a control-free text follows from its last glyph.
proof fn lemma_control_free_pen(m: LineMetrics, anchor: Point, w: int, cs: Seq<CharMetrics>)
    requires
        line_advance(m) > 0,
        forall|i: int| 0 <= i < cs.len() ==> !is_control_char((#[trigger] cs[i]).ch),
    ensures
        ({
            let gs = layout(m, anchor, w, cs);
            let p = pen_through(m, anchor, w, start_pen(m, anchor), cs);
            &&& gs.len() == cs.len()
            &&& forall|i: int| 0 <= i < cs.len() ==> (#[trigger] gs[i]).src == i && gs[i].id == cs[i].glyph
            &&& cs.len() == 0 ==> p == start_pen(m, anchor)
            &&& cs.len() > 0 && overflows(anchor, w, gs.last(), cs.last()) ==> p == next_line(
                m,
                anchor,
                Pen { x: gs.last().x, y: gs.last().y, has_prev: true },
            )
            &&& cs.len() > 0 && !overflows(anchor, w, gs.last(), cs.last()) ==> p == (Pen {
                x: gs.last().x + cs.last().advance,
                y: gs.last().y,
                has_prev: true,
            })
            &&& forall|i: int|
                0 <= i && i + 1 < cs.len() ==> {
                    let g = #[trigger] gs[i];
                    let h = gs[i + 1];
                    &&& (h.y != g.y <==> overflows(anchor, w, g, cs[i]))
                    &&& overflows(anchor, w, g, cs[i]) ==> h.x == anchor.x && h.y == g.y + line_advance(m)
                    &&& !overflows(anchor, w, g, cs[i]) ==> h.x == g.x + cs[i].advance + cs[i + 1].kern
                }
        }),
    decreases cs.len(),
{
    if cs.len() > 0 {
        let prev = cs.drop_last();
        assert forall|i: int| 0 <= i < prev.len() implies !is_control_char((#[trigger] prev[i]).ch) by {
            assert(prev[i] == cs[i]);
        }
        lemma_control_free_pen(m, anchor, w, prev);
        let gp = layout(m, anchor, w, prev);
        let gs = layout(m, anchor, w, cs);
        assert(!is_control_char(cs[cs.len() - 1].ch));
        assert forall|i: int| 0 <= i < gp.len() implies #[trigger] gs[i] == gp[i] && cs[i] == prev[i] by {}
        if prev.len() > 0 {
            assert(gp.last() == gs[prev.len() - 1]);
            assert(prev.last() == cs[prev.len() - 1]);
        }
    }
}

} // verus!
