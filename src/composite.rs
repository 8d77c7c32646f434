//! Compositing glyph coverage masks onto a canvas.
use crate::canvas::{canvas_rows, in_canvas, pixel_at, rows_of_width, Canvas, Rgba8};
use crate::layout::{layout, CharMetrics, LineMetrics, Point};
use vstd::prelude::*;

verus! {

/// How a covered pixel takes the text color.
#[derive(Clone, Copy, Debug, PartialEq, Eq, Structural)]
pub enum BlendPolicy {
    /// Each color channel moves from the pixel's value toward the text color
    /// in proportion to the coverage; alpha becomes fully opaque.
    ColorOver,
    /// The color channels become the text color, and the coverage is added
    /// to alpha, saturating at 255.
    AlphaAccumulate,
}

/// A text color.
#[derive(Clone, Copy, Debug, PartialEq, Eq, Structural)]
pub struct Rgb8 {
    pub r: u8,
    pub g: u8,
    pub b: u8,
}

/// The coverage of one glyph: `rows[y][x]` is how much of the canvas pixel
/// `(min_x + x, min_y + y)` the glyph fills, from 0 (none) to 255 (all).
#[derive(Clone, Debug)]
pub struct CoverageMask {
    pub min_x: i32,
    pub min_y: i32,
    pub rows: Vec<Vec<u8>>,
}

/// The coverage that a mask gives the canvas pixel `(x, y)`: 0 outside it.
pub open spec fn coverage_at(m: CoverageMask, x: int, y: int) -> int {
    let lx = x - m.min_x;
    let ly = y - m.min_y;
    if 0 <= ly < m.rows@.len() && 0 <= lx < m.rows@[ly]@.len() {
        m.rows@[ly]@[lx] as int
    } else {
        0
    }
}

/// One channel moved toward `c` by coverage `v` out of 255.
pub open spec fn mix(bg: u8, c: u8, v: int) -> u8 {
    ((bg * (255 - v) + c * v) / 255) as u8
}

/// A pixel after a glyph covers it by `v` out of 255.
pub open spec fn blend(policy: BlendPolicy, p: Rgba8, color: Rgb8, v: int) -> Rgba8 {
    match policy {
        BlendPolicy::ColorOver => Rgba8 {
            r: mix(p.r, color.r, v),
            g: mix(p.g, color.g, v),
            b: mix(p.b, color.b, v),
            a: 255,
        },
        BlendPolicy::AlphaAccumulate => Rgba8 {
            r: color.r,
            g: color.g,
            b: color.b,
            a: if p.a + v > 255 { 255 } else { (p.a + v) as u8 },
        },
    }
}

/// The pixel `(x, y)`, first `p`, after the masks are painted in order; a
/// mask that does not cover it leaves it as it is.
pub open spec fn paint(policy: BlendPolicy, p: Rgba8, color: Rgb8, masks: Seq<CoverageMask>, x: int, y: int) -> Rgba8
    decreases masks.len(),
{
    if masks.len() == 0 {
        p
    } else {
        mask_step(policy, paint(policy, p, color, masks.drop_last(), x, y), color, masks.last(), x, y)
    }
}

/// The pixel `(x, y)`, first `q`, after the mask `m` is painted.
pub open spec fn mask_step(policy: BlendPolicy, q: Rgba8, color: Rgb8, m: CoverageMask, x: int, y: int) -> Rgba8 {
    let v = coverage_at(m, x, y);
    if v == 0 { q } else { blend(policy, q, color, v) }
}

/// Whether the pixel `(x, y)` lies in a row of `m` before `ly`, or in row
/// `ly` before column `lx`.
pub open spec fn visited(m: CoverageMask, ly: int, lx: int, x: int, y: int) -> bool {
    let dy = y - m.min_y;
    let dx = x - m.min_x;
    (0 <= dy < ly) || (dy == ly && 0 <= dx < lx)
}

/// Channel arithmetic of the color-over blend.
fn mix_channel(bg: u8, c: u8, v: u8) -> (r: u8)
    ensures
        r == mix(bg, c, v as int),
{
    let bg32: u32 = bg as u32;
    let c32: u32 = c as u32;
    let v32: u32 = v as u32;
    assert(bg32 * (255 - v32) + c32 * v32 <= 255 * 255) by (nonlinear_arith)
        requires
            bg32 <= 255,
            c32 <= 255,
            v32 <= 255,
    ;
    let n: u32 = bg32 * (255 - v32) + c32 * v32;
    (n / 255) as u8
}

/// A pixel after a glyph covers it by `v` out of 255.
pub fn blend_pixel(policy: BlendPolicy, p: Rgba8, color: Rgb8, v: u8) -> (r: Rgba8)
    ensures
        r == blend(policy, p, color, v as int),
{
    match policy {
        BlendPolicy::ColorOver => Rgba8 {
            r: mix_channel(p.r, color.r, v),
            g: mix_channel(p.g, color.g, v),
            b: mix_channel(p.b, color.b, v),
            a: 255,
        },
        BlendPolicy::AlphaAccumulate => Rgba8 {
            r: color.r,
            g: color.g,
            b: color.b,
            a: p.a.saturating_add(v),
        },
    }
}

/// Paints the coverage masks onto the canvas in order, each covered pixel
/// blended with `text_color` by `policy`. Pixels of a mask that fall outside
/// the canvas are left out.
pub fn render_glyphs(masks: &Vec<CoverageMask>, canvas: &mut Canvas, text_color: Rgb8, policy: BlendPolicy)
    ensures
        canvas_rows(*final(canvas)).len() == canvas_rows(*old(canvas)).len(),
        forall|y: int|
            0 <= y < canvas_rows(*old(canvas)).len() ==> #[trigger] canvas_rows(*final(canvas))[y].len()
                == canvas_rows(*old(canvas))[y].len(),
        forall|x: int, y: int|
            in_canvas(*old(canvas), x, y) ==> #[trigger] pixel_at(*final(canvas), x, y) == paint(
                policy,
                pixel_at(*old(canvas), x, y),
                text_color,
                masks@,
                x,
                y,
            ),
{
    let ghost init = canvas_rows(*canvas);
    let width: u32 = canvas.width();
    let height: u32 = canvas.height();
    let mut k: usize = 0;
    while k < masks.len()
        invariant
            k <= masks.len(),
            init.len() == height,
            rows_of_width(*canvas, width as nat),
            canvas_rows(*canvas).len() == height,
            forall|y: int| 0 <= y < height ==> #[trigger] init[y].len() == width,
            forall|x: int, y: int|
                0 <= x < width && 0 <= y < height ==> #[trigger] canvas_rows(*canvas)[y][x] == paint(
                    policy,
                    init[y][x],
                    text_color,
                    masks@.take(k as int),
                    x,
                    y,
                ),
        decreases masks.len() - k,
    {
        let m = &masks[k];
        let ghost before = canvas_rows(*canvas);
        let mut ly: usize = 0;
        while ly < m.rows.len()
            invariant
                k < masks.len(),
                *m == masks@[k as int],
                ly <= m.rows.len(),
                rows_of_width(*canvas, width as nat),
                canvas_rows(*canvas).len() == height,
                before.len() == height,
                forall|y: int| 0 <= y < height ==> #[trigger] before[y].len() == width,
                forall|x: int, y: int|
                    0 <= x < width && 0 <= y < height ==> #[trigger] canvas_rows(*canvas)[y][x] == if visited(
                        *m,
                        ly as int,
                        0,
                        x,
                        y,
                    ) {
                        mask_step(policy, before[y][x], text_color, *m, x, y)
                    } else {
                        before[y][x]
                    },
            decreases m.rows.len() - ly,
        {
            let row = &m.rows[ly];
            let mut lx: usize = 0;
            while lx < row.len()
                invariant
                    k < masks.len(),
                    *m == masks@[k as int],
                    ly < m.rows.len(),
                    *row == m.rows@[ly as int],
                    lx <= row.len(),
                    rows_of_width(*canvas, width as nat),
                    canvas_rows(*canvas).len() == height,
                    before.len() == height,
                    forall|y: int| 0 <= y < height ==> #[trigger] before[y].len() == width,
                    forall|x: int, y: int|
                        0 <= x < width && 0 <= y < height ==> #[trigger] canvas_rows(*canvas)[y][x] == if visited(
                            *m,
                            ly as int,
                            lx as int,
                            x,
                            y,
                        ) {
                            mask_step(policy, before[y][x], text_color, *m, x, y)
                        } else {
                            before[y][x]
                        },
                decreases row.len() - lx,
            {
                let v: u8 = row[lx];
                let cx: i128 = m.min_x as i128 + lx as i128;
                let cy: i128 = m.min_y as i128 + ly as i128;
                if v != 0 && 0 <= cx && cx < width as i128 && 0 <= cy && cy < height as i128 {
                    let p = canvas.image_get(cx as u32, cy as u32);
                    let q = blend_pixel(policy, p, text_color, v);
                    canvas.image_put(cx as u32, cy as u32, q);
                }
                proof {
                    assert forall|x: int, y: int|
                        0 <= x < width && 0 <= y < height implies #[trigger] canvas_rows(*canvas)[y][x] == if visited(
                            *m,
                            ly as int,
                            lx + 1,
                            x,
                            y,
                        ) {
                            mask_step(policy, before[y][x], text_color, *m, x, y)
                        } else {
                            before[y][x]
                        } by {
                        if x == cx && y == cy {
                            assert(coverage_at(*m, x, y) == v);
                        }
                    }
                }
                lx = lx + 1;
            }
            ly = ly + 1;
        }
        proof {
            assert(masks@.take(k + 1).drop_last() == masks@.take(k as int));
            assert(masks@.take(k + 1).last() == masks@[k as int]);
        }
        k = k + 1;
    }
    proof {
        assert(masks@.take(masks.len() as int) == masks@);
    }
}

} // verus!

verus! {

/// Whether some mask covers the pixel `(x, y)`.
pub open spec fn any_cover(masks: Seq<CoverageMask>, x: int, y: int) -> bool {
    exists|k: int| 0 <= k < masks.len() && coverage_at(#[trigger] masks[k], x, y) != 0
}

/// The sum of the coverage that the masks give the pixel `(x, y)`.
pub open spec fn total_coverage(masks: Seq<CoverageMask>, x: int, y: int) -> int
    decreases masks.len(),
{
    if masks.len() == 0 {
        0
    } else {
        total_coverage(masks.drop_last(), x, y) + coverage_at(masks.last(), x, y)
    }
}

/// Whether every coverage value of the masks is none or full.
pub open spec fn full_or_empty(masks: Seq<CoverageMask>) -> bool {
    forall|k: int, ly: int, lx: int|
        0 <= k < masks.len() && 0 <= ly < masks[k].rows@.len() && 0 <= lx < masks[k].rows@[ly]@.len() ==> {
            let v = #[trigger] masks[k].rows@[ly]@[lx];
            v == 0 || v == 255
        }
}

/// The text color as an opaque pixel.
pub open spec fn opaque(color: Rgb8) -> Rgba8 {
    Rgba8 { r: color.r, g: color.g, b: color.b, a: 255 }
}

/// A pixel that no mask covers keeps its value, whatever the policy: only
/// pixels inside a glyph's box can change.
pub proof fn lemma_paint_outside_masks(
    policy: BlendPolicy,
    p: Rgba8,
    color: Rgb8,
    masks: Seq<CoverageMask>,
    x: int,
    y: int,
)
    requires
        !any_cover(masks, x, y),
    ensures
        paint(policy, p, color, masks, x, y) == p,
    decreases masks.len(),
{
    if masks.len() > 0 {
        assert(masks.drop_last().len() < masks.len());
        assert forall|k: int| 0 <= k < masks.drop_last().len() implies coverage_at(
            #[trigger] masks.drop_last()[k],
            x,
            y,
        ) == 0 by {
            assert(masks.drop_last()[k] == masks[k]);
        }
        lemma_paint_outside_masks(policy, p, color, masks.drop_last(), x, y);
        assert(coverage_at(masks[masks.len() - 1], x, y) == 0);
    }
}

/// Under the color-over policy with full coverage, a pixel ends as the
/// opaque text color if some mask covers it and as it was otherwise.
proof fn lemma_color_over_full(p: Rgba8, color: Rgb8, masks: Seq<CoverageMask>, x: int, y: int)
    requires
        full_or_empty(masks),
    ensures
        paint(BlendPolicy::ColorOver, p, color, masks, x, y) == if any_cover(masks, x, y) {
            opaque(color)
        } else {
            p
        },
    decreases masks.len(),
{
    if masks.len() > 0 {
        let prev = masks.drop_last();
        assert forall|k: int, ly: int, lx: int|
            0 <= k < prev.len() && 0 <= ly < prev[k].rows@.len() && 0 <= lx < prev[k].rows@[ly]@.len() implies {
            let v = #[trigger] prev[k].rows@[ly]@[lx];
            v == 0 || v == 255
        } by {
            assert(prev[k] == masks[k]);
        }
        lemma_color_over_full(p, color, prev, x, y);
        let last = masks[masks.len() - 1];
        let v = coverage_at(last, x, y);
        if v != 0 {
            let ly = y - last.min_y;
            let lx = x - last.min_x;
            assert(last.rows@[ly]@[lx] == v);
            assert(v == 255);
            assert forall|bg: u8, c: u8| mix(bg, c, 255) == c by {
                assert((bg * (255 - 255int) + c * 255int) / 255 == c) by (nonlinear_arith);
            }
            assert(any_cover(masks, x, y));
        } else {
            if any_cover(masks, x, y) {
                let k = choose|k: int| 0 <= k < masks.len() && coverage_at(#[trigger] masks[k], x, y) != 0;
                assert(k < prev.len());
                assert(prev[k] == masks[k]);
            }
            if any_cover(prev, x, y) {
                let k = choose|k: int| 0 <= k < prev.len() && coverage_at(#[trigger] prev[k], x, y) != 0;
                assert(prev[k] == masks[k]);
            }
        }
    }
}

/// Under the color-over policy, painting the same full-or-empty coverage
/// masks a second time changes nothing.
pub proof fn lemma_color_over_repaint(p: Rgba8, color: Rgb8, masks: Seq<CoverageMask>, x: int, y: int)
    requires
        full_or_empty(masks),
    ensures
        paint(
            BlendPolicy::ColorOver,
            paint(BlendPolicy::ColorOver, p, color, masks, x, y),
            color,
            masks,
            x,
            y,
        ) == paint(BlendPolicy::ColorOver, p, color, masks, x, y),
{
    lemma_color_over_full(p, color, masks, x, y);
    lemma_color_over_full(paint(BlendPolicy::ColorOver, p, color, masks, x, y), color, masks, x, y);
}

/// Under the alpha-accumulating policy, the coverage of all masks adds up
/// in alpha, up to 255, and a covered pixel takes the text color.
pub proof fn lemma_alpha_accumulates(p: Rgba8, color: Rgb8, masks: Seq<CoverageMask>, x: int, y: int)
    ensures
        ({
            let q = paint(BlendPolicy::AlphaAccumulate, p, color, masks, x, y);
            let t = total_coverage(masks, x, y);
            &&& t >= 0
            &&& q.a == if p.a + t > 255 { 255 } else { p.a + t }
            &&& t > 0 ==> q.r == color.r && q.g == color.g && q.b == color.b
            &&& t == 0 ==> q == p
        }),
    decreases masks.len(),
{
    if masks.len() > 0 {
        lemma_alpha_accumulates(p, color, masks.drop_last(), x, y);
        let last = masks[masks.len() - 1];
        let v = coverage_at(last, x, y);
        if v != 0 {
            let ly = y - last.min_y;
            let lx = x - last.min_x;
            assert(last.rows@[ly]@[lx] == v);
        }
    }
}

/// Under the alpha-accumulating policy, painting the same masks a second
/// time keeps the colors and adds their coverage to alpha once more.
pub proof fn lemma_alpha_accumulate_repaint(p: Rgba8, color: Rgb8, masks: Seq<CoverageMask>, x: int, y: int)
    ensures
        ({
            let once = paint(BlendPolicy::AlphaAccumulate, p, color, masks, x, y);
            let twice = paint(BlendPolicy::AlphaAccumulate, once, color, masks, x, y);
            let t = total_coverage(masks, x, y);
            &&& twice.r == once.r && twice.g == once.g && twice.b == once.b
            &&& once.a == if p.a + t > 255 { 255 } else { p.a + t }
            &&& twice.a == if p.a + 2 * t > 255 { 255 } else { p.a + 2 * t }
        }),
{
    lemma_alpha_accumulates(p, color, masks, x, y);
    lemma_alpha_accumulates(paint(BlendPolicy::AlphaAccumulate, p, color, masks, x, y), color, masks, x, y);
}

/// An empty text places no glyph, and painting no masks leaves every pixel
/// as it was: drawing an empty string leaves the canvas untouched.
pub proof fn lemma_empty_text_leaves_canvas(
    m: LineMetrics,
    anchor: Point,
    w: int,
    policy: BlendPolicy,
    p: Rgba8,
    color: Rgb8,
    x: int,
    y: int,
)
    ensures
        layout(m, anchor, w, Seq::<CharMetrics>::empty()).len() == 0,
        paint(policy, p, color, Seq::<CoverageMask>::empty(), x, y) == p,
{
}

} // verus!
