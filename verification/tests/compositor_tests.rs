use ctrl_space::compositor::{
    Rgb, GlyphMetrics, GlyphEntry, GlyphCache, fill_rect, draw_text, measure_text, downscale,
    blend,
};
use ctrl_space::render::{render_frame, Palette};
use ctrl_space::filter::FilteredApp;

fn glyph(width: usize, height: usize, advance: u32, alpha: u8) -> GlyphEntry {
    GlyphEntry {
        metrics: GlyphMetrics { width, height, xmin: 0, ymin: 0, advance },
        coverage: std::iter::repeat(alpha).take(width * height).collect(),
    }
}

#[test]
fn blend_is_the_integer_alpha_formula() {
    assert_eq!(blend(100, 200, 255), 200);
    assert_eq!(blend(100, 200, 0), 100);
    assert_eq!(blend(0, 255, 128), 128);
    assert_eq!(blend(10, 20, 51) as u32, (20u32 * 51 + 10 * 204) / 255);
}

#[test]
fn fill_rect_paints_and_clips() {
    // 2 wide, 2 tall, zeroed
    let mut buf: Vec<u8> = vec![0; 16];
    let c = Rgb { r: 1, g: 2, b: 3 };
    fill_rect(&mut buf, 2, 2, 0, 0, 1, 2, c);
    // left column painted BGR, alpha untouched
    assert_eq!(&buf[0..4], &[3, 2, 1, 0]);
    assert_eq!(&buf[8..12], &[3, 2, 1, 0]);
    // right column untouched
    assert_eq!(&buf[4..8], &[0, 0, 0, 0]);
    assert_eq!(&buf[12..16], &[0, 0, 0, 0]);
    // negative origin and oversize extent clip silently
    let mut buf2: Vec<u8> = vec![0; 16];
    fill_rect(&mut buf2, 2, 2, -5, -5, 100, 100, c);
    for p in 0..4 {
        assert_eq!(&buf2[p * 4..p * 4 + 3], &[3, 2, 1]);
    }
}

#[test]
fn cache_is_append_only() {
    let mut cache = GlyphCache::new();
    assert!(cache.get('a', 16).is_none());
    cache.insert('a', 16, glyph(1, 1, 7, 255));
    assert_eq!(cache.get('a', 16).unwrap().metrics.advance, 7);
    assert!(cache.get('a', 17).is_none());
    // a second insert for the same key keeps the first entry
    cache.insert('a', 16, glyph(1, 1, 9, 255));
    assert_eq!(cache.get('a', 16).unwrap().metrics.advance, 7);
}

#[test]
fn measure_sums_cached_advances() {
    let mut cache = GlyphCache::new();
    cache.insert('a', 16, glyph(1, 1, 7, 255));
    cache.insert('b', 16, glyph(1, 1, 9, 255));
    let text: Vec<char> = "aba".chars().collect();
    assert_eq!(measure_text(&cache, &text, 16), 23);
    // a missing glyph contributes nothing
    let text2: Vec<char> = "axb".chars().collect();
    assert_eq!(measure_text(&cache, &text2, 16), 16);
}

#[test]
fn draw_text_blends_and_returns_the_width() {
    let mut cache = GlyphCache::new();
    cache.insert('a', 16, glyph(1, 1, 5, 255));
    // 4 wide, 1 tall, black
    let mut buf: Vec<u8> = vec![0; 16];
    let fg = Rgb { r: 10, g: 20, b: 30 };
    let hl = Rgb { r: 100, g: 110, b: 120 };
    let text: Vec<char> = "aa".chars().collect();
    let w = draw_text(&mut buf, 4, 1, &cache, &text, 0, 1, fg, &vec![1], hl, 16);
    assert_eq!(w, 10);
    // first character in the base color at x=0 (gy = baseline-1 = 0)
    assert_eq!(&buf[0..3], &[30, 20, 10]);
    // second character highlighted at x=5... clipped? advance 5 puts it at x=5,
    // outside the 4-wide buffer, so nothing is drawn there
    assert_eq!(&buf[4..8], &[0, 0, 0, 0]);

    // redo with a narrower advance so both land inside
    let mut cache2 = GlyphCache::new();
    cache2.insert('a', 16, glyph(1, 1, 1, 255));
    let mut buf2: Vec<u8> = vec![0; 16];
    let w2 = draw_text(&mut buf2, 4, 1, &cache2, &text, 0, 1, fg, &vec![1], hl, 16);
    assert_eq!(w2, 2);
    assert_eq!(&buf2[0..3], &[30, 20, 10]);
    assert_eq!(&buf2[4..7], &[120, 110, 100]);
}

#[test]
fn draw_text_half_alpha_blends() {
    let mut cache = GlyphCache::new();
    cache.insert('m', 10, glyph(1, 1, 1, 128));
    let mut buf: Vec<u8> = vec![100; 4];
    let fg = Rgb { r: 200, g: 200, b: 200 };
    let text: Vec<char> = "m".chars().collect();
    draw_text(&mut buf, 1, 1, &cache, &text, 0, 1, fg, &Vec::new(), fg, 10);
    let expected = ((200u32 * 128 + 100u32 * 127) / 255) as u8;
    assert_eq!(buf[0], expected);
    assert_eq!(buf[1], expected);
    assert_eq!(buf[2], expected);
    assert_eq!(buf[3], 100);
}

#[test]
fn downscale_averages_blocks() {
    // 2x2 source, scale 2 -> one output pixel
    let mut src: Vec<u8> = Vec::new();
    for v in [[10u8, 20, 30, 255], [20u8, 40, 60, 255], [30u8, 60, 90, 255], [40u8, 80, 120, 255]] {
        src.extend_from_slice(&v);
    }
    let dst = downscale(&src, 2, 2, 2);
    assert_eq!(dst.len(), 4);
    assert_eq!(dst[0] as u32, (10 + 20 + 30 + 40) / 4);
    assert_eq!(dst[1] as u32, (20 + 40 + 60 + 80) / 4);
    assert_eq!(dst[2] as u32, (30 + 60 + 90 + 120) / 4);
    assert_eq!(dst[3], 255);
}

#[test]
fn downscale_identity_at_scale_one() {
    let src: Vec<u8> = vec![7, 8, 9, 0, 1, 2, 3, 0];
    let dst = downscale(&src, 2, 1, 1);
    assert_eq!(dst, vec![7, 8, 9, 255, 1, 2, 3, 255]);
}

#[test]
fn frame_composition_paints_background_caret_and_selection() {
    // no glyphs cached: only the fills land, at exactly their rectangles
    let cache = GlyphCache::new();
    let pal = Palette {
        bg: Rgb { r: 1, g: 1, b: 1 },
        fg: Rgb { r: 2, g: 2, b: 2 },
        sel_bg: Rgb { r: 3, g: 3, b: 3 },
        sel_fg: Rgb { r: 4, g: 4, b: 4 },
        match_hl: Rgb { r: 5, g: 5, b: 5 },
        prompt: Rgb { r: 6, g: 6, b: 6 },
        caret: Rgb { r: 7, g: 7, b: 7 },
    };
    let mut buf: Vec<u8> = vec![9; 8 * 2 * 4];
    let query: Vec<char> = "x".chars().collect();
    let results = vec![FilteredApp {
        name: "a".to_string(),
        score: 0,
        match_indices: Vec::new(),
    }];
    let widths: Vec<u64> = vec![3];
    render_frame(
        &mut buf, 8, 2, &cache, &query, 0, &results, &widths, 0, 0, 0, 2, 4, 1, pal, 1, 1,
    );
    // caret: x = text_start + 0 - scale = 1, w = 2, y = baseline - px = 0, h = 1
    for col in 0..8usize {
        for row in 0..2usize {
            let idx = (row * 8 + col) * 4;
            let expect = if row == 0 && (col == 1 || col == 2) {
                7
            } else if col >= 4 && col < 7 {
                3
            } else {
                1
            };
            assert_eq!(buf[idx], expect, "col {} row {}", col, row);
            assert_eq!(buf[idx + 1], expect);
            assert_eq!(buf[idx + 2], expect);
            // alpha bytes are left alone by fills
            assert_eq!(buf[idx + 3], 9);
        }
    }
}
