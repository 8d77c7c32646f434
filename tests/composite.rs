use ogp_render::canvas::{Canvas, Rgba8};
use ogp_render::composite::{blend_pixel, render_glyphs, BlendPolicy, CoverageMask, Rgb8};

const WHITE: Rgba8 = Rgba8 { r: 255, g: 255, b: 255, a: 255 };
const CLEAR: Rgba8 = Rgba8 { r: 0, g: 0, b: 0, a: 0 };
const BLACK: Rgb8 = Rgb8 { r: 0, g: 0, b: 0 };

fn square(min_x: i32, min_y: i32, size: usize, v: u8) -> CoverageMask {
    CoverageMask { min_x, min_y, rows: vec![vec![v; size]; size] }
}

#[test]
fn color_over_blends_by_coverage() {
    let p = blend_pixel(BlendPolicy::ColorOver, WHITE, BLACK, 128);
    assert_eq!(p, Rgba8 { r: 127, g: 127, b: 127, a: 255 });
    let q = blend_pixel(BlendPolicy::ColorOver, Rgba8 { r: 10, g: 20, b: 30, a: 0 }, Rgb8 { r: 200, g: 100, b: 0 }, 255);
    assert_eq!(q, Rgba8 { r: 200, g: 100, b: 0, a: 255 });
}

#[test]
fn alpha_accumulate_sets_color_and_adds_alpha() {
    let p = blend_pixel(BlendPolicy::AlphaAccumulate, Rgba8 { r: 1, g: 2, b: 3, a: 100 }, Rgb8 { r: 9, g: 8, b: 7 }, 100);
    assert_eq!(p, Rgba8 { r: 9, g: 8, b: 7, a: 200 });
    let q = blend_pixel(BlendPolicy::AlphaAccumulate, p, Rgb8 { r: 9, g: 8, b: 7 }, 100);
    assert_eq!(q.a, 255);
}

#[test]
fn pixels_change_only_inside_glyph_boxes() {
    let mut canvas = Canvas::new(20, 10, WHITE).unwrap();
    let masks = vec![square(2, 3, 2, 255), square(10, 1, 3, 90)];
    render_glyphs(&masks, &mut canvas, BLACK, BlendPolicy::ColorOver);
    for y in 0..10u32 {
        for x in 0..20u32 {
            let inside_a = (2..4).contains(&x) && (3..5).contains(&y);
            let inside_b = (10..13).contains(&x) && (1..4).contains(&y);
            let p = canvas.get_pixel(x, y).unwrap();
            if inside_a {
                assert_eq!(p, Rgba8 { r: 0, g: 0, b: 0, a: 255 });
            } else if inside_b {
                assert_eq!(p, Rgba8 { r: 165, g: 165, b: 165, a: 255 });
            } else {
                assert_eq!(p, WHITE);
            }
        }
    }
}

#[test]
fn masks_past_the_edge_are_clipped() {
    let mut canvas = Canvas::new(4, 4, WHITE).unwrap();
    let masks = vec![square(-2, -2, 3, 255), square(3, 3, 5, 255)];
    render_glyphs(&masks, &mut canvas, BLACK, BlendPolicy::ColorOver);
    let black = Rgba8 { r: 0, g: 0, b: 0, a: 255 };
    assert_eq!(canvas.get_pixel(0, 0).unwrap(), black);
    assert_eq!(canvas.get_pixel(1, 0).unwrap(), WHITE);
    assert_eq!(canvas.get_pixel(3, 3).unwrap(), black);
    assert_eq!(canvas.get_pixel(2, 3).unwrap(), WHITE);
}

#[test]
fn color_over_repaint_with_full_coverage_is_idempotent() {
    let masks = vec![square(1, 1, 3, 255), square(2, 2, 3, 255)];
    let mut once = Canvas::new(8, 8, WHITE).unwrap();
    render_glyphs(&masks, &mut once, Rgb8 { r: 10, g: 20, b: 30 }, BlendPolicy::ColorOver);
    let mut twice = Canvas::new(8, 8, WHITE).unwrap();
    render_glyphs(&masks, &mut twice, Rgb8 { r: 10, g: 20, b: 30 }, BlendPolicy::ColorOver);
    render_glyphs(&masks, &mut twice, Rgb8 { r: 10, g: 20, b: 30 }, BlendPolicy::ColorOver);
    assert_eq!(once.to_raw(), twice.to_raw());
}

#[test]
fn alpha_accumulate_repaint_adds_alpha_again() {
    let masks = vec![square(0, 0, 2, 60)];
    let mut once = Canvas::new(3, 3, CLEAR).unwrap();
    render_glyphs(&masks, &mut once, BLACK, BlendPolicy::AlphaAccumulate);
    let mut twice = Canvas::new(3, 3, CLEAR).unwrap();
    render_glyphs(&masks, &mut twice, BLACK, BlendPolicy::AlphaAccumulate);
    render_glyphs(&masks, &mut twice, BLACK, BlendPolicy::AlphaAccumulate);
    assert_eq!(once.get_pixel(1, 1).unwrap().a, 60);
    assert_eq!(twice.get_pixel(1, 1).unwrap().a, 120);
    assert_eq!(twice.get_pixel(2, 2).unwrap(), CLEAR);
    assert_ne!(once.to_raw(), twice.to_raw());
}

#[test]
fn empty_text_leaves_canvas_untouched() {
    let mut canvas = Canvas::new(5, 4, Rgba8 { r: 1, g: 2, b: 3, a: 4 }).unwrap();
    let before = canvas.to_raw();
    render_glyphs(&Vec::new(), &mut canvas, BLACK, BlendPolicy::ColorOver);
    assert_eq!(canvas.to_raw(), before);
}

#[test]
fn glyph_without_outline_changes_nothing() {
    let mut canvas = Canvas::new(5, 5, WHITE).unwrap();
    let before = canvas.to_raw();
    let masks = vec![CoverageMask { min_x: 1, min_y: 1, rows: vec![vec![0, 0], vec![0, 0]] }];
    render_glyphs(&masks, &mut canvas, BLACK, BlendPolicy::AlphaAccumulate);
    assert_eq!(canvas.to_raw(), before);
}

#[test]
fn canvas_pixels_and_raw_bytes() {
    let mut canvas = Canvas::new(3, 2, WHITE).unwrap();
    assert_eq!(canvas.width(), 3);
    assert_eq!(canvas.height(), 2);
    let masks = vec![CoverageMask { min_x: 1, min_y: 1, rows: vec![vec![255]] }];
    render_glyphs(&masks, &mut canvas, Rgb8 { r: 5, g: 6, b: 7 }, BlendPolicy::ColorOver);
    assert_eq!(canvas.get_pixel(1, 1), Some(Rgba8 { r: 5, g: 6, b: 7, a: 255 }));
    assert_eq!(canvas.get_pixel(3, 0), None);
    assert_eq!(canvas.get_pixel(0, 2), None);
    let raw = canvas.to_raw();
    assert_eq!(raw.len(), 24);
    assert_eq!(&raw[16..20], &[5, 6, 7, 255]);
    assert_eq!(&raw[0..4], &[255, 255, 255, 255]);
}

#[test]
fn oversized_canvas_is_refused() {
    assert!(Canvas::new(u32::MAX, u32::MAX, WHITE).is_none());
    assert!(Canvas::new(0, 0, WHITE).is_some());
}
