//! Frame composition: the whole result-strip frame as one verified function
//! over the compositor's primitives — background, query text, caret, and the
//! page of candidate cells the selection controller chose.

use vstd::prelude::*;

use crate::compositor::{
    Rgb, GlyphCache, fill_rect, fill_rect_spec, draw_text, draw_text_from, measure_text,
    measure_spec, lemma_draw_text_len, lemma_measure_bounds,
};
use crate::filter::FilteredApp;

verus! {

/// The frame's colors.
#[derive(Clone, Copy, PartialEq, Eq, Structural, Debug)]
pub struct Palette {
    pub bg: Rgb,
    pub fg: Rgb,
    pub sel_bg: Rgb,
    pub sel_fg: Rgb,
    pub match_hl: Rgb,
    pub prompt: Rgb,
    pub caret: Rgb,
}

/// The strip after drawing result cells `i` through `end`, left to right from
/// pen position `x`: the selected cell gets a full-height selection
/// background, every cell its name with highlighted match positions inset
/// into the cell, and the pen advances by the cell's width.
pub open spec fn strip_from(
    buf: Seq<u8>,
    bw: int,
    rows: int,
    cache: GlyphCache,
    results: Seq<FilteredApp>,
    widths: Seq<u64>,
    i: int,
    end: int,
    selected: int,
    x: int,
    baseline: int,
    pal: Palette,
    px: u32,
    inset: int,
) -> Seq<u8>
    decreases end + 1 - i,
{
    if i < 0 || i > end || i >= results.len() {
        buf
    } else {
        let cell = widths[i] as int;
        let buf1 = if i == selected {
            fill_rect_spec(buf, bw, x, 0, cell, rows, pal.sel_bg)
        } else {
            buf
        };
        let color = if i == selected {
            pal.sel_fg
        } else {
            pal.fg
        };
        let buf2 = draw_text_from(
            buf1,
            bw,
            cache,
            results[i].name@,
            0,
            x + inset,
            baseline,
            color,
            results[i].match_indices@,
            pal.match_hl,
            px,
        ).0;
        strip_from(
            buf2,
            bw,
            rows,
            cache,
            results,
            widths,
            i + 1,
            end,
            selected,
            x + cell,
            baseline,
            pal,
            px,
            inset,
        )
    }
}

/// Drawing the strip never changes the buffer's size.
proof fn lemma_strip_len(
    buf: Seq<u8>,
    bw: int,
    rows: int,
    cache: GlyphCache,
    results: Seq<FilteredApp>,
    widths: Seq<u64>,
    i: int,
    end: int,
    selected: int,
    x: int,
    baseline: int,
    pal: Palette,
    px: u32,
    inset: int,
)
    ensures
        strip_from(
            buf,
            bw,
            rows,
            cache,
            results,
            widths,
            i,
            end,
            selected,
            x,
            baseline,
            pal,
            px,
            inset,
        ).len() == buf.len(),
    decreases end + 1 - i,
{
    if !(i < 0 || i > end || i >= results.len()) {
        let cell = widths[i] as int;
        let buf1 = if i == selected {
            fill_rect_spec(buf, bw, x, 0, cell, rows, pal.sel_bg)
        } else {
            buf
        };
        let color = if i == selected {
            pal.sel_fg
        } else {
            pal.fg
        };
        lemma_draw_text_len(
            buf1,
            bw,
            cache,
            results[i].name@,
            0,
            x + inset,
            baseline,
            color,
            results[i].match_indices@,
            pal.match_hl,
            px,
        );
        let buf2 = draw_text_from(
            buf1,
            bw,
            cache,
            results[i].name@,
            0,
            x + inset,
            baseline,
            color,
            results[i].match_indices@,
            pal.match_hl,
            px,
        ).0;
        lemma_strip_len(
            buf2,
            bw,
            rows,
            cache,
            results,
            widths,
            i + 1,
            end,
            selected,
            x + cell,
            baseline,
            pal,
            px,
            inset,
        );
    }
}

/// A whole frame: the background in the panel color, the query in the prompt
/// color with a caret block after its first `caret` characters, and the
/// controller's page of results from `scroll` through `last_visible`.
pub open spec fn frame_spec(
    buf: Seq<u8>,
    bw: int,
    rows: int,
    cache: GlyphCache,
    query: Seq<char>,
    caret: int,
    results: Seq<FilteredApp>,
    widths: Seq<u64>,
    scroll: int,
    last_visible: int,
    selected: int,
    text_start: int,
    strip_start: int,
    baseline: int,
    pal: Palette,
    px: u32,
    scale: int,
) -> Seq<u8> {
    let b0 = fill_rect_spec(buf, bw, 0, 0, bw, rows, pal.bg);
    let b1 = draw_text_from(
        b0,
        bw,
        cache,
        query,
        0,
        text_start,
        baseline,
        pal.prompt,
        Seq::empty(),
        pal.prompt,
        px,
    ).0;
    let caret_x = text_start + measure_spec(cache, query.take(caret), px) - scale;
    let b2 = fill_rect_spec(b1, bw, caret_x, baseline - px, 2 * scale, px * 7 / 5, pal.caret);
    strip_from(
        b2,
        bw,
        rows,
        cache,
        results,
        widths,
        scroll,
        last_visible,
        selected,
        strip_start,
        baseline,
        pal,
        px,
        6 * scale,
    )
}

/// Composes one frame of the launcher strip at the supersampled resolution.
pub fn render_frame(
    buffer: &mut Vec<u8>,
    bw: usize,
    rows: usize,
    cache: &GlyphCache,
    query: &Vec<char>,
    caret: usize,
    results: &Vec<FilteredApp>,
    widths: &Vec<u64>,
    scroll: usize,
    last_visible: usize,
    selected: usize,
    text_start: i64,
    strip_start: i64,
    baseline: i64,
    pal: Palette,
    px: u32,
    scale: i64,
)
    requires
        old(buffer)@.len() == bw * rows * 4,
        1 <= bw <= 0x7fff_ffff,
        rows <= 0x7fff_ffff,
        cache.wf(),
        caret <= query@.len(),
        query@.len() <= 0x1000,
        widths@.len() == results@.len(),
        results@.len() <= 0x1000,
        scroll <= results@.len(),
        forall|k: int| 0 <= k < results@.len() ==> (#[trigger] results@[k]).name@.len() <= 0x1000,
        forall|k: int| 0 <= k < widths@.len() ==> #[trigger] widths@[k] <= 0x1_0000,
        0 <= text_start <= 0x1000_0000,
        0 <= strip_start <= 0x1000_0000,
        0 <= baseline <= 0x1000_0000,
        1 <= scale <= 16,
        px <= 0x8000,
    ensures
        final(buffer)@ == frame_spec(
            old(buffer)@,
            bw as int,
            rows as int,
            *cache,
            query@,
            caret as int,
            results@,
            widths@,
            scroll as int,
            last_visible as int,
            selected as int,
            text_start as int,
            strip_start as int,
            baseline as int,
            pal,
            px,
            scale as int,
        ),
{
    fill_rect(buffer, bw, rows, 0, 0, bw as i32, rows as i32, pal.bg);
    let ghost b0 = buffer@;
    draw_text(
        buffer,
        bw,
        rows,
        cache,
        query,
        text_start,
        baseline,
        pal.prompt,
        &Vec::new(),
        pal.prompt,
        px,
    );
    proof {
        lemma_draw_text_len(
            b0,
            bw as int,
            *cache,
            query@,
            0,
            text_start as int,
            baseline as int,
            pal.prompt,
            Seq::empty(),
            pal.prompt,
            px,
        );
    }
    let mut before: Vec<char> = Vec::new();
    let mut k: usize = 0;
    while k < caret
        invariant
            k <= caret <= query@.len(),
            before@ == query@.take(k as int),
        decreases caret - k,
    {
        before.push(query[k]);
        k = k + 1;
        proof {
            assert(before@ =~= query@.take(k as int));
        }
    }
    proof {
        lemma_measure_bounds(*cache, before@, px);
    }
    let caret_w = measure_text(cache, &before, px);
    let caret_x: i64 = text_start + caret_w as i64 - scale;
    proof {
        assert(before@.len() <= 0x1000);
        assert(caret_w <= 0x8000 * 0x1000);
    }
    fill_rect(
        buffer,
        bw,
        rows,
        caret_x as i32,
        (baseline - px as i64) as i32,
        (2 * scale) as i32,
        ((px as i64 * 7) / 5) as i32,
        pal.caret,
    );
    let ghost b2 = buffer@;
    let mut i: usize = scroll;
    let mut x: i64 = strip_start;
    let ghost target = strip_from(
        b2,
        bw as int,
        rows as int,
        *cache,
        results@,
        widths@,
        scroll as int,
        last_visible as int,
        selected as int,
        strip_start as int,
        baseline as int,
        pal,
        px,
        6 * scale as int,
    );
    while i <= last_visible && i < results.len()
        invariant
            scroll <= i <= results@.len(),
            cache.wf(),
            buffer@.len() == bw * rows * 4,
            1 <= bw <= 0x7fff_ffff,
            rows <= 0x7fff_ffff,
            px <= 0x8000,
            1 <= scale <= 16,
            widths@.len() == results@.len(),
            results@.len() <= 0x1000,
            forall|k2: int| 0 <= k2 < results@.len() ==> (#[trigger] results@[k2]).name@.len()
                <= 0x1000,
            forall|k2: int| 0 <= k2 < widths@.len() ==> #[trigger] widths@[k2] <= 0x1_0000,
            0 <= strip_start <= 0x1000_0000,
            0 <= baseline <= 0x1000_0000,
            strip_start <= x <= strip_start + 0x1_0000 * (i - scroll),
            target == strip_from(
                buffer@,
                bw as int,
                rows as int,
                *cache,
                results@,
                widths@,
                i as int,
                last_visible as int,
                selected as int,
                x as int,
                baseline as int,
                pal,
                px,
                6 * scale as int,
            ),
        decreases results@.len() - i,
    {
        let ghost bpre = buffer@;
        let ghost xpre = x as int;
        let cell = widths[i];
        if i == selected {
            fill_rect(buffer, bw, rows, x as i32, 0, cell as i32, rows as i32, pal.sel_bg);
        }
        let color = if i == selected {
            pal.sel_fg
        } else {
            pal.fg
        };
        let name = crate::text::chars_of(results[i].name.as_str());
        proof {
            let buf1 = if i == selected {
                fill_rect_spec(
                    bpre,
                    bw as int,
                    xpre,
                    0,
                    widths@[i as int] as int,
                    rows as int,
                    pal.sel_bg,
                )
            } else {
                bpre
            };
            assert(buffer@ == buf1);
            assert(name@ == results@[i as int].name@);
        }
        draw_text(
            buffer,
            bw,
            rows,
            cache,
            &name,
            x + 6 * scale,
            baseline,
            color,
            &results[i].match_indices,
            pal.match_hl,
            px,
        );
        proof {
            let buf1 = if i == selected {
                fill_rect_spec(
                    bpre,
                    bw as int,
                    xpre,
                    0,
                    widths@[i as int] as int,
                    rows as int,
                    pal.sel_bg,
                )
            } else {
                bpre
            };
            let buf2 = draw_text_from(
                buf1,
                bw as int,
                *cache,
                results@[i as int].name@,
                0,
                xpre + 6 * scale,
                baseline as int,
                color,
                results@[i as int].match_indices@,
                pal.match_hl,
                px,
            ).0;
            assert(buffer@ == buf2);
            assert(strip_from(
                bpre,
                bw as int,
                rows as int,
                *cache,
                results@,
                widths@,
                i as int,
                last_visible as int,
                selected as int,
                xpre,
                baseline as int,
                pal,
                px,
                6 * scale as int,
            ) == strip_from(
                buf2,
                bw as int,
                rows as int,
                *cache,
                results@,
                widths@,
                i as int + 1,
                last_visible as int,
                selected as int,
                xpre + widths@[i as int],
                baseline as int,
                pal,
                px,
                6 * scale as int,
            ));
            lemma_draw_text_len(
                buf1,
                bw as int,
                *cache,
                results@[i as int].name@,
                0,
                xpre + 6 * scale,
                baseline as int,
                color,
                results@[i as int].match_indices@,
                pal.match_hl,
                px,
            );
        }
        x = x + cell as i64;
        i = i + 1;
    }
    proof {
        assert(query@.take(caret as int) == before@);
    }
}

} // verus!
