use ogp_render::layout::{kern_partners, layout_paragraph, text_width, CharMetrics, Glyph, LineMetrics, Point};

const PX: i32 = 64;

fn metrics() -> LineMetrics {
    LineMetrics { ascent: 56 * PX, height: 70 * PX, line_gap: 4 * PX }
}

fn chars(text: &str, advance: i32, kern: i32) -> Vec<CharMetrics> {
    text.chars()
        .map(|ch| CharMetrics { ch, glyph: ch as u16, advance, kern })
        .collect()
}

fn run(text: &Vec<CharMetrics>, anchor: Point, max_width: i32) -> Vec<Glyph> {
    let mut out = Vec::new();
    layout_paragraph(&metrics(), anchor, max_width, text, &mut out);
    out
}

#[test]
fn hello_lays_out_on_one_line() {
    let anchor = Point { x: 80 * PX, y: 230 * PX };
    let text = chars("Hello", 30 * PX, 0);
    let gs = run(&text, anchor, 1020 * PX);
    assert_eq!(gs.len(), 5);
    for (i, g) in gs.iter().enumerate() {
        assert_eq!(g.id, "Hello".chars().nth(i).unwrap() as u16);
        assert_eq!(g.y, (230 + 56) as i64 * 64);
    }
    for w in gs.windows(2) {
        assert!(w[0].x < w[1].x);
    }
    assert_eq!(gs[0].x, 80 * 64);
    assert_eq!(gs[4].x, (80 + 4 * 30) * 64);
}

#[test]
fn long_line_wraps_at_overflow() {
    let anchor = Point { x: 0, y: 0 };
    let text = chars("A very long line of words", 40 * PX, 0);
    let gs = run(&text, anchor, 100 * PX);
    assert_eq!(gs.len(), 25);
    let mut ys: Vec<i64> = gs.iter().map(|g| g.y).collect();
    ys.dedup();
    assert!(ys.len() >= 2);
    let line = (70 + 4) as i64 * 64;
    // "A" ends at 40, " " at 80, "v" at 120 > 100: wrap after "v".
    assert_eq!(gs[2].x, 80 * 64);
    assert_eq!(gs[3].x, 0);
    assert_eq!(gs[3].y, gs[2].y + line);
    for i in 0..gs.len() - 1 {
        if gs[i + 1].y > gs[i].y {
            let c = text[i].ch;
            assert!(!c.is_whitespace());
            assert!(gs[i].x + 40 * 64 > 100 * 64);
        }
    }
}

#[test]
fn whitespace_never_triggers_a_wrap() {
    let text = chars("a    ", 40 * PX, 0);
    let gs = run(&text, Point { x: 0, y: 0 }, 50 * PX);
    assert_eq!(gs.len(), 5);
    assert!(gs.iter().all(|g| g.y == gs[0].y));
    assert_eq!(gs[4].x, 160 * 64);
}

#[test]
fn newline_places_nothing_and_moves_down() {
    let text = chars("ab\ncd", 10 * PX, 0);
    let gs = run(&text, Point { x: 5 * PX, y: 7 * PX }, 1000 * PX);
    assert_eq!(gs.len(), 4);
    let line = (70 + 4) as i64 * 64;
    assert_eq!(gs[2].x, 5 * 64);
    assert_eq!(gs[2].y, gs[1].y + line);
    assert_eq!(gs[3].y, gs[2].y);
    assert_eq!(gs[0].y, (7 + 56) as i64 * 64);
}

#[test]
fn other_control_characters_are_skipped() {
    let text = chars("a\u{1}\tb", 10 * PX, 0);
    let gs = run(&text, Point { x: 0, y: 0 }, 1000 * PX);
    assert_eq!(gs.len(), 2);
    assert_eq!(gs[1].x, 10 * 64);
    assert_eq!(gs[1].y, gs[0].y);
}

#[test]
fn kerning_applies_within_a_line_only() {
    let text = chars("ab\nc", 10 * PX, -2 * PX);
    let gs = run(&text, Point { x: 0, y: 0 }, 1000 * PX);
    assert_eq!(gs[0].x, 0);
    assert_eq!(gs[1].x, 8 * 64);
    assert_eq!(gs[2].x, 0);
}

#[test]
fn plain_text_gives_one_glyph_per_character() {
    let text = chars("Verified!", 12 * PX, 1 * PX);
    let anchor = Point { x: 3, y: 4 };
    let gs = run(&text, anchor, 40 * PX);
    assert_eq!(gs.len(), text.len());
    for (g, c) in gs.iter().zip(text.iter()) {
        assert_eq!(g.id, c.glyph);
        assert!(g.x >= 3 && g.y >= 4);
    }
}

#[test]
fn missing_glyph_still_takes_a_place() {
    let mut text = chars("a?b", 10 * PX, 0);
    text[1].glyph = 0;
    text[1].advance = 0;
    let gs = run(&text, Point { x: 0, y: 0 }, 1000 * PX);
    assert_eq!(gs.len(), 3);
    assert_eq!(gs[1].id, 0);
    assert_eq!(gs[1].x, 10 * 64);
    assert_eq!(gs[2].x, 10 * 64);
}

#[test]
fn empty_text_places_nothing() {
    let gs = run(&Vec::new(), Point { x: 0, y: 0 }, 10);
    assert!(gs.is_empty());
}

#[test]
fn glyphs_are_appended_after_existing_ones() {
    let mut out = vec![Glyph { id: 9, x: 1, y: 2 }];
    layout_paragraph(&metrics(), Point { x: 0, y: 0 }, 1000, &chars("x", 5, 0), &mut out);
    assert_eq!(out.len(), 2);
    assert_eq!(out[0], Glyph { id: 9, x: 1, y: 2 });
    assert_eq!(out[1].id, 'x' as u16);
}

#[test]
fn text_width_leaves_the_margin() {
    assert_eq!(text_width(1200), 1020 * 64);
    assert_eq!(text_width(0), -180 * 64);
    assert_eq!(text_width(u32::MAX), i32::MAX);
}

#[test]
fn kerning_pairs_skip_control_characters() {
    let text: Vec<char> = "a\u{1}b\ncd".chars().collect();
    let partners = kern_partners(&text);
    assert_eq!(partners, vec![None, Some(0), Some(0), Some(2), Some(2), Some(4)]);
    assert!(kern_partners(&Vec::new()).is_empty());
}
