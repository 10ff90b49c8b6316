//! The software glyph compositor: a process-lifetime glyph cache, text
//! measurement, per-pixel alpha-blended text drawing, rectangle fills and
//! supersample downscaling, all on raw BGRA pixel buffers.

use vstd::prelude::*;

verus! {

/// An opaque color.
#[derive(Clone, Copy, PartialEq, Eq, Structural, Debug)]
pub struct Rgb {
    pub r: u8,
    pub g: u8,
    pub b: u8,
}

/// Integer glyph metrics: bitmap size, bearings, and the advance width.
#[derive(Clone, Copy, PartialEq, Eq, Structural, Debug)]
pub struct GlyphMetrics {
    pub width: usize,
    pub height: usize,
    pub xmin: i32,
    pub ymin: i32,
    pub advance: u32,
}

/// A rasterized glyph: metrics and a row-major coverage bitmap, one alpha
/// byte per pixel.
pub struct GlyphEntry {
    pub metrics: GlyphMetrics,
    pub coverage: Vec<u8>,
}

/// Bound on glyph dimensions, bearings and advances: keeps all compositing
/// arithmetic comfortably inside 64 bits.
pub const GLYPH_DIM_MAX: usize = 0x8000;

impl GlyphEntry {
    /// The coverage bitmap matches the metrics, and the metrics are of
    /// plausible glyph size.
    pub open spec fn wf(&self) -> bool {
        &&& self.coverage@.len() == self.metrics.width * self.metrics.height
        &&& self.metrics.width <= GLYPH_DIM_MAX
        &&& self.metrics.height <= GLYPH_DIM_MAX
        &&& -0x8000 <= self.metrics.xmin <= 0x8000
        &&& -0x8000 <= self.metrics.ymin <= 0x8000
        &&& self.metrics.advance <= GLYPH_DIM_MAX
    }
}

/// First entry for a (character, pixel size) key.
pub open spec fn lookup_in(
    entries: Seq<((char, u32), GlyphEntry)>,
    ch: char,
    size: u32,
) -> Option<GlyphEntry>
    decreases entries.len(),
{
    if entries.len() == 0 {
        None
    } else if entries[0].0 == (ch, size) {
        Some(entries[0].1)
    } else {
        lookup_in(entries.drop_first(), ch, size)
    }
}

/// The glyph cache: append-only for the process lifetime, keyed by character
/// and integer pixel size.
pub struct GlyphCache {
    entries: Vec<((char, u32), GlyphEntry)>,
}

impl GlyphCache {
    /// What the cache holds for a key.
    pub closed spec fn lookup(&self, ch: char, size: u32) -> Option<GlyphEntry> {
        lookup_in(self.entries@, ch, size)
    }

    /// Every cached glyph is well-formed.
    pub closed spec fn wf(&self) -> bool {
        forall|i: int| 0 <= i < self.entries@.len() ==> (#[trigger] self.entries@[i]).1.wf()
    }

    /// Every lookup of a well-formed cache yields a well-formed glyph.
    pub proof fn lemma_lookup_wf(&self, ch: char, size: u32)
        requires
            self.wf(),
        ensures
            self.lookup(ch, size) matches Some(e) ==> e.wf(),
    {
        lemma_lookup_in_wf(self.entries@, ch, size);
    }

    /// An empty cache.
    pub fn new() -> (r: GlyphCache)
        ensures
            r.wf(),
            forall|ch: char, size: u32| r.lookup(ch, size) is None,
    {
        GlyphCache { entries: Vec::new() }
    }

    /// The cached glyph for a key, if any.
    pub fn get(&self, ch: char, size: u32) -> (r: Option<&GlyphEntry>)
        ensures
            match r {
                Some(e) => self.lookup(ch, size) == Some(*e),
                None => self.lookup(ch, size) is None,
            },
    {
        let mut i: usize = 0;
        proof {
            assert(self.entries@.skip(0) =~= self.entries@);
        }
        while i < self.entries.len()
            invariant
                i <= self.entries@.len(),
                lookup_in(self.entries@, ch, size) == lookup_in(
                    self.entries@.skip(i as int),
                    ch,
                    size,
                ),
            decreases self.entries@.len() - i,
        {
            proof {
                assert(self.entries@.skip(i as int)[0] == self.entries@[i as int]);
                assert(self.entries@.skip(i as int).drop_first() =~= self.entries@.skip(
                    i as int + 1,
                ));
            }
            let (ref key, ref e) = self.entries[i];
            if key.0 == ch && key.1 == size {
                return Some(e);
            }
            i = i + 1;
        }
        proof {
            assert(self.entries@.skip(i as int) =~= Seq::<((char, u32), GlyphEntry)>::empty());
        }
        None
    }

    /// Caches a glyph for a key that has no entry yet; a present key keeps its
    /// first entry (the cache never evicts or replaces).
    pub fn insert(&mut self, ch: char, size: u32, e: GlyphEntry)
        requires
            old(self).wf(),
            e.wf(),
        ensures
            final(self).wf(),
            final(self).lookup(ch, size) == (if old(self).lookup(ch, size) is Some {
                old(self).lookup(ch, size)
            } else {
                Some(e)
            }),
            forall|c2: char, s2: u32|
                !(c2 == ch && s2 == size) ==> #[trigger] final(self).lookup(c2, s2) == old(
                    self,
                ).lookup(c2, s2),
    {
        let present = match self.get(ch, size) {
            Some(_) => true,
            None => false,
        };
        if !present {
            let ghost entries0 = self.entries@;
            self.entries.push(((ch, size), e));
            proof {
                lemma_lookup_in_push(entries0, ch, size, e);
                assert forall|i: int| 0 <= i < self.entries@.len() implies (
                #[trigger] self.entries@[i]).1.wf() by {
                    if i < entries0.len() {
                        assert(self.entries@[i] == entries0[i]);
                    }
                }
            }
        }
    }
}

proof fn lemma_lookup_in_wf(entries: Seq<((char, u32), GlyphEntry)>, ch: char, size: u32)
    requires
        forall|i: int| 0 <= i < entries.len() ==> (#[trigger] entries[i]).1.wf(),
    ensures
        lookup_in(entries, ch, size) matches Some(e) ==> e.wf(),
    decreases entries.len(),
{
    if entries.len() > 0 && entries[0].0 != (ch, size) {
        assert forall|i: int| 0 <= i < entries.drop_first().len() implies (
        #[trigger] entries.drop_first()[i]).1.wf() by {
            assert(entries.drop_first()[i] == entries[i + 1]);
        }
        lemma_lookup_in_wf(entries.drop_first(), ch, size);
    }
}

proof fn lemma_lookup_in_push(
    entries: Seq<((char, u32), GlyphEntry)>,
    ch: char,
    size: u32,
    e: GlyphEntry,
)
    requires
        lookup_in(entries, ch, size) is None,
    ensures
        lookup_in(entries.push(((ch, size), e)), ch, size) == Some(e),
        forall|c2: char, s2: u32|
            !(c2 == ch && s2 == size) ==> #[trigger] lookup_in(
                entries.push(((ch, size), e)),
                c2,
                s2,
            ) == lookup_in(entries, c2, s2),
    decreases entries.len(),
{
    if entries.len() == 0 {
        let p = entries.push(((ch, size), e));
        assert(p[0] == ((ch, size), e));
        assert forall|c2: char, s2: u32|
            !(c2 == ch && s2 == size) implies #[trigger] lookup_in(p, c2, s2) == lookup_in(
            entries,
            c2,
            s2,
        ) by {
            assert(p.drop_first() =~= Seq::<((char, u32), GlyphEntry)>::empty());
            assert(lookup_in(p.drop_first(), c2, s2) is None);
            assert(p[0].0 != (c2, s2));
        }
    } else {
        let p = entries.push(((ch, size), e));
        assert(p[0] == entries[0]);
        assert(p.drop_first() =~= entries.drop_first().push(((ch, size), e)));
        lemma_lookup_in_push(entries.drop_first(), ch, size, e);
        assert(lookup_in(p, ch, size) == Some(e)) by {
            if entries[0].0 == (ch, size) {
                assert(lookup_in(entries, ch, size) is Some);
            }
        }
        assert forall|c2: char, s2: u32|
            !(c2 == ch && s2 == size) implies #[trigger] lookup_in(p, c2, s2) == lookup_in(
            entries,
            c2,
            s2,
        ) by {
            if p[0].0 == (c2, s2) {
            } else {
                assert(lookup_in(p.drop_first(), c2, s2) == lookup_in(entries.drop_first(), c2, s2));
            }
        }
    }
}

// ---------------------------------------------------------------------------
// Measurement
// ---------------------------------------------------------------------------

/// Advance width the cache records for one character; a missing glyph
/// contributes nothing.
pub open spec fn advance_of(cache: GlyphCache, ch: char, size: u32) -> int {
    match cache.lookup(ch, size) {
        Some(e) => e.metrics.advance as int,
        None => 0,
    }
}

/// Width of a text: the sum of the advance widths of its characters.
pub open spec fn measure_spec(cache: GlyphCache, text: Seq<char>, size: u32) -> int
    decreases text.len(),
{
    if text.len() == 0 {
        0
    } else {
        advance_of(cache, text[0], size) + measure_spec(cache, text.drop_first(), size)
    }
}

pub proof fn lemma_measure_bounds(cache: GlyphCache, text: Seq<char>, size: u32)
    requires
        cache.wf(),
    ensures
        0 <= measure_spec(cache, text, size) <= GLYPH_DIM_MAX * text.len(),
    decreases text.len(),
{
    if text.len() > 0 {
        cache.lemma_lookup_wf(text[0], size);
        lemma_measure_bounds(cache, text.drop_first(), size);
    }
}

/// Measures a text at a pixel size: the sum of its cached advance widths.
pub fn measure_text(cache: &GlyphCache, text: &Vec<char>, size: u32) -> (w: u64)
    requires
        cache.wf(),
        text@.len() <= 0xffff_ffff,
    ensures
        w as int == measure_spec(*cache, text@, size),
{
    let mut w: u64 = 0;
    let mut i: usize = 0;
    proof {
        lemma_measure_bounds(*cache, text@, size);
        assert(text@.skip(0) =~= text@);
    }
    while i < text.len()
        invariant
            i <= text@.len(),
            cache.wf(),
            text@.len() <= 0xffff_ffff,
            w as int + measure_spec(*cache, text@.skip(i as int), size) == measure_spec(
                *cache,
                text@,
                size,
            ),
            w as int <= GLYPH_DIM_MAX * i,
        decreases text@.len() - i,
    {
        proof {
            assert(text@.skip(i as int)[0] == text@[i as int]);
            assert(text@.skip(i as int).drop_first() =~= text@.skip(i as int + 1));
            cache.lemma_lookup_wf(text@[i as int], size);
        }
        match cache.get(text[i], size) {
            Some(e) => {
                w = w + e.metrics.advance as u64;
            },
            None => {},
        }
        i = i + 1;
    }
    proof {
        assert(text@.skip(i as int) =~= Seq::<char>::empty());
    }
    w
}

// ---------------------------------------------------------------------------
// Rectangle fill
// ---------------------------------------------------------------------------

/// The byte a color contributes to channel `c` of a BGRA pixel.
pub open spec fn rgb_channel(color: Rgb, c: int) -> u8 {
    if c == 0 {
        color.b
    } else if c == 1 {
        color.g
    } else {
        color.r
    }
}

/// A buffer after an opaque rectangle fill: every color channel of every
/// pixel inside the rectangle takes the fill color; alpha bytes and all other
/// pixels keep their values. Clipping at the buffer edges falls out of the
/// pixel coordinates.
pub open spec fn fill_rect_spec(
    buf: Seq<u8>,
    bw: int,
    x: int,
    y: int,
    w: int,
    h: int,
    color: Rgb,
) -> Seq<u8> {
    Seq::new(
        buf.len(),
        |i: int|
            {
                let p = i / 4;
                let c = i % 4;
                let px = p % bw;
                let py = p / bw;
                if x <= px < x + w && y <= py < y + h && c < 3 {
                    rgb_channel(color, c)
                } else {
                    buf[i]
                }
            },
    )
}

/// Fills a rectangle with an opaque color, clipping silently at the buffer
/// edges.
pub fn fill_rect(
    buffer: &mut Vec<u8>,
    bw: usize,
    rows: usize,
    x: i32,
    y: i32,
    w: i32,
    h: i32,
    color: Rgb,
)
    requires
        old(buffer)@.len() == bw * rows * 4,
        1 <= bw <= 0x7fff_ffff,
        rows <= 0x7fff_ffff,
    ensures
        final(buffer)@ == fill_rect_spec(old(buffer)@, bw as int, x as int, y as int, w as int, h as int, color),
{
    let ghost target = fill_rect_spec(
        old(buffer)@,
        bw as int,
        x as int,
        y as int,
        w as int,
        h as int,
        color,
    );
    let blen = buffer.len();
    let y0: usize = if y <= 0 {
        0
    } else {
        y as usize
    };
    let yend: i64 = y as i64 + h as i64;
    let y1: usize = if yend <= 0 {
        0
    } else if yend >= rows as i64 {
        rows
    } else {
        yend as usize
    };
    let x0: usize = if x <= 0 {
        0
    } else {
        x as usize
    };
    let xend: i64 = x as i64 + w as i64;
    let x1: usize = if xend <= 0 {
        0
    } else if xend >= bw as i64 {
        bw
    } else {
        xend as usize
    };
    proof {
        lemma_outside_unchanged(
            old(buffer)@,
            bw as int,
            rows as int,
            x as int,
            y as int,
            w as int,
            h as int,
            color,
            x0 as int,
            x1 as int,
            y0 as int,
            y1 as int,
        );
    }
    if y1 <= y0 || x1 <= x0 {
        proof {
            assert forall|i: int| 0 <= i < buffer@.len() implies buffer@[i] == target[i] by {}
            assert(buffer@ =~= target);
        }
        return ;
    }
    let mut py: usize = y0;
    while py < y1
        invariant
            y0 <= py <= y1,
            x0 < x1 <= bw,
            y1 <= rows,
            blen == bw * rows * 4,
            buffer@.len() == blen,
            1 <= bw <= 0x7fff_ffff,
            rows <= 0x7fff_ffff,
            target == fill_rect_spec(
                old(buffer)@,
                bw as int,
                x as int,
                y as int,
                w as int,
                h as int,
                color,
            ),
            target.len() == buffer@.len(),
            x as int <= x0 && x1 as int <= x as int + w as int,
            y as int <= y0 && y1 as int <= y as int + h as int,
            forall|i: int|
                0 <= i < buffer@.len() ==> #[trigger] buffer@[i] == (if y0 <= (i / 4) / (bw as int)
                    < py {
                    target[i]
                } else {
                    old(buffer)@[i]
                }),
            forall|i: int|
                0 <= i < target.len() ==> (((i / 4) / (bw as int) < y0 || (i / 4) / (bw as int)
                    >= y1 || (i / 4) % (bw as int) < x0 || (i / 4) % (bw as int) >= x1)
                    ==> #[trigger] target[i] == old(buffer)@[i]),
        decreases y1 - py,
    {
        let mut px: usize = x0;
        while px < x1
            invariant
                y0 <= py < y1,
                x0 <= px <= x1,
                x0 < x1 <= bw,
                y1 <= rows,
                blen == bw * rows * 4,
                buffer@.len() == blen,
                1 <= bw <= 0x7fff_ffff,
                rows <= 0x7fff_ffff,
                target == fill_rect_spec(
                    old(buffer)@,
                    bw as int,
                    x as int,
                    y as int,
                    w as int,
                    h as int,
                    color,
                ),
                target.len() == buffer@.len(),
                x as int <= x0 && x1 as int <= x as int + w as int,
                y as int <= y0 && y1 as int <= y as int + h as int,
                forall|i: int|
                    0 <= i < buffer@.len() ==> #[trigger] buffer@[i] == (if (y0 <= (i / 4) / (
                    bw as int) < py) || ((i / 4) / (bw as int) == py && x0 <= (i / 4) % (bw as int)
                        < px) {
                        target[i]
                    } else {
                        old(buffer)@[i]
                    }),
                forall|i: int|
                    0 <= i < target.len() ==> (((i / 4) / (bw as int) < y0 || (i / 4) / (bw as int)
                        >= y1 || (i / 4) % (bw as int) < x0 || (i / 4) % (bw as int) >= x1)
                        ==> #[trigger] target[i] == old(buffer)@[i]),
            decreases x1 - px,
        {
            proof {
                assert((py * bw + px) * 4 + 3 < bw * rows * 4) by (nonlinear_arith)
                    requires
                        py < rows,
                        px < bw,
                        0 <= py,
                        0 <= px,
                        1 <= bw,
                ;
            }
            let idx: usize = (py * bw + px) * 4;
            proof {
                assert((py * bw + px) % (bw as int) == px && (py * bw + px) / (bw as int)
                    == py) by (nonlinear_arith)
                    requires
                        px < bw,
                        1 <= bw,
                        0 <= py,
                        0 <= px,
                ;
                assert(idx as int / 4 == py * bw + px && idx as int % 4 == 0 && (idx as int + 1) / 4
                    == py * bw + px && (idx as int + 1) % 4 == 1 && (idx as int + 2) / 4 == py * bw
                    + px && (idx as int + 2) % 4 == 2) by (nonlinear_arith)
                    requires
                        idx == (py * bw + px) * 4,
                        0 <= py * bw + px,
                ;
                assert(target[idx as int] == color.b);
                assert(target[idx as int + 1] == color.g);
                assert(target[idx as int + 2] == color.r);
            }
            let ghost bufpre = buffer@;
            buffer[idx] = color.b;
            buffer[idx + 1] = color.g;
            buffer[idx + 2] = color.r;
            proof {
                assert forall|i: int| 0 <= i < buffer@.len() implies #[trigger] buffer@[i] == (if (
                y0 <= (i / 4) / (bw as int) < py) || ((i / 4) / (bw as int) == py && x0 <= (i / 4)
                    % (bw as int) < px + 1) {
                    target[i]
                } else {
                    old(buffer)@[i]
                }) by {
                    if idx <= i < idx + 3 {
                        assert(i / 4 == py * bw + px && i % 4 < 3);
                        assert(buffer@[i] == target[i]);
                    } else {
                        assert(buffer@[i] == bufpre[i]);
                        if (i / 4) / (bw as int) == py && (i / 4) % (bw as int) == px {
                            assert(i / 4 == (bw as int) * ((i / 4) / (bw as int)) + (i / 4) % (
                            bw as int)) by (nonlinear_arith)
                                requires
                                    1 <= bw,
                            ;
                            assert(i / 4 == py * bw + px) by (nonlinear_arith)
                                requires
                                    i / 4 == (bw as int) * py + px,
                            ;
                            assert(i % 4 == 3);
                            assert(target[i] == old(buffer)@[i]);
                        }
                    }
                }
            }
            px = px + 1;
        }
        py = py + 1;
    }
    proof {
        assert forall|i: int| 0 <= i < buffer@.len() implies buffer@[i] == target[i] by {}
        assert(buffer@ =~= target);
    }
}

/// Pixels outside the clipped rectangle keep their bytes.
proof fn lemma_outside_unchanged(
    buf: Seq<u8>,
    bw: int,
    rows: int,
    x: int,
    y: int,
    w: int,
    h: int,
    color: Rgb,
    x0: int,
    x1: int,
    y0: int,
    y1: int,
)
    requires
        buf.len() == bw * rows * 4,
        1 <= bw,
        0 <= rows,
        x <= x0,
        x1 <= bw,
        y <= y0,
        y1 <= rows,
        x1 >= bw || x1 >= x + w,
        y1 >= rows || y1 >= y + h,
        x0 <= 0 || x0 <= x,
        y0 <= 0 || y0 <= y,
    ensures
        forall|i: int|
            0 <= i < buf.len() ==> (((i / 4) / bw < y0 || (i / 4) / bw >= y1 || (i / 4) % bw < x0
                || (i / 4) % bw >= x1) ==> #[trigger] fill_rect_spec(buf, bw, x, y, w, h, color)[i]
                == buf[i]),
{
    let target = fill_rect_spec(buf, bw, x, y, w, h, color);
    assert forall|i: int|
        0 <= i < buf.len() && ((i / 4) / bw < y0 || (i / 4) / bw >= y1 || (i / 4) % bw < x0 || (i
            / 4) % bw >= x1) implies #[trigger] target[i] == buf[i] by {
        let p = i / 4;
        assert(4 * p <= i && i < 4 * p + 4 && 0 <= p);
        assert(p < bw * rows) by (nonlinear_arith)
            requires
                4 * p <= i,
                i < bw * rows * 4,
        ;
        let pd = p / bw;
        let pm = p % bw;
        vstd::arithmetic::div_mod::lemma_fundamental_div_mod(p, bw);
        vstd::arithmetic::div_mod::lemma_mod_division_less_than_divisor(p, bw);
        assert(0 <= pd) by (nonlinear_arith)
            requires
                p == bw * pd + pm,
                0 <= pm < bw,
                0 <= p,
                1 <= bw,
        ;
        assert(p == bw * pd + pm && 0 <= pm < bw && 0 <= pd);
        assert(pd < rows) by (nonlinear_arith)
            requires
                p == bw * pd + pm,
                0 <= pm < bw,
                0 <= pd,
                p < bw * rows,
                1 <= bw,
        ;
        if p / bw < y0 || p / bw >= y1 || p % bw < x0 || p % bw >= x1 {
            assert(!(x <= p % bw < x + w) || !(y <= p / bw < y + h));
            assert(target[i] == buf[i]);
        }
    }
}

// ---------------------------------------------------------------------------
// Text drawing
// ---------------------------------------------------------------------------

/// Linear alpha blend of one channel: `src*(a/255) + dst*(1 - a/255)` in
/// integer arithmetic.
pub open spec fn blend_channel(dst: u8, src: u8, alpha: u8) -> u8 {
    (((src as int) * (alpha as int) + (dst as int) * (255 - alpha as int)) / 255) as u8
}

/// Blends one channel byte.
pub fn blend(dst: u8, src: u8, alpha: u8) -> (r: u8)
    ensures
        r == blend_channel(dst, src, alpha),
{
    proof {
        assert((src as int) * (alpha as int) + (dst as int) * (255 - alpha as int) <= 255
            * 255) by (nonlinear_arith)
            requires
                src <= 255,
                dst <= 255,
                alpha <= 255,
        ;
    }
    let v: u32 = (src as u32) * (alpha as u32) + (dst as u32) * (255 - alpha as u32);
    (v / 255) as u8
}

/// A buffer after one glyph is blended at `(gx, gy)`: each color channel of
/// each buffer pixel the bitmap covers is alpha-blended with the glyph color;
/// alpha bytes and uncovered pixels keep their values; bitmap parts outside
/// the buffer fall away.
pub open spec fn draw_glyph_spec(
    buf: Seq<u8>,
    bw: int,
    met: GlyphMetrics,
    cov: Seq<u8>,
    gx: int,
    gy: int,
    color: Rgb,
) -> Seq<u8> {
    Seq::new(
        buf.len(),
        |i: int|
            {
                let p = i / 4;
                let c = i % 4;
                let lx = p % bw - gx;
                let ly = p / bw - gy;
                if 0 <= lx < met.width && 0 <= ly < met.height && c < 3 {
                    blend_channel(buf[i], rgb_channel(color, c), cov[ly * met.width + lx])
                } else {
                    buf[i]
                }
            },
    )
}

/// Blends one glyph bitmap onto the buffer, clipping at the edges.
fn draw_glyph(
    buffer: &mut Vec<u8>,
    bw: usize,
    rows: usize,
    e: &GlyphEntry,
    gx: i64,
    gy: i64,
    color: Rgb,
)
    requires
        old(buffer)@.len() == bw * rows * 4,
        1 <= bw <= 0x7fff_ffff,
        rows <= 0x7fff_ffff,
        e.wf(),
        -0x1_0000_0000_0000 <= gx <= 0x1_0000_0000_0000,
        -0x1_0000_0000_0000 <= gy <= 0x1_0000_0000_0000,
    ensures
        final(buffer)@ == draw_glyph_spec(
            old(buffer)@,
            bw as int,
            e.metrics,
            e.coverage@,
            gx as int,
            gy as int,
            color,
        ),
{
    let ghost target = draw_glyph_spec(
        old(buffer)@,
        bw as int,
        e.metrics,
        e.coverage@,
        gx as int,
        gy as int,
        color,
    );
    let blen = buffer.len();
    let width = e.metrics.width;
    let height = e.metrics.height;
    let clen = e.coverage.len();
    proof {
        assert(clen == width * height);
    }
    let mut ly: usize = 0;
    while ly < height
        invariant
            ly <= height,
            width == e.metrics.width,
            height == e.metrics.height,
            clen == width * height,
            e.wf(),
            blen == bw * rows * 4,
            buffer@.len() == blen,
            1 <= bw <= 0x7fff_ffff,
            rows <= 0x7fff_ffff,
            -0x1_0000_0000_0000 <= gx <= 0x1_0000_0000_0000,
            -0x1_0000_0000_0000 <= gy <= 0x1_0000_0000_0000,
            target == draw_glyph_spec(
                old(buffer)@,
                bw as int,
                e.metrics,
                e.coverage@,
                gx as int,
                gy as int,
                color,
            ),
            target.len() == buffer@.len(),
            forall|i: int|
                0 <= i < buffer@.len() ==> #[trigger] buffer@[i] == (if 0 <= (i / 4) / (bw as int)
                    - gy < ly && 0 <= (i / 4) % (bw as int) - gx < width {
                    target[i]
                } else {
                    old(buffer)@[i]
                }),
        decreases height - ly,
    {
        let dy: i64 = gy + ly as i64;
        if 0 <= dy && dy < rows as i64 {
            let mut lx: usize = 0;
            while lx < width
                invariant
                    ly < height,
                    lx <= width,
                    width == e.metrics.width,
                    height == e.metrics.height,
                    clen == width * height,
                    e.wf(),
                    blen == bw * rows * 4,
                    buffer@.len() == blen,
                    1 <= bw <= 0x7fff_ffff,
                    rows <= 0x7fff_ffff,
                    -0x1_0000_0000_0000 <= gx <= 0x1_0000_0000_0000,
                    dy == gy + ly,
                    0 <= dy < rows,
                    target == draw_glyph_spec(
                        old(buffer)@,
                        bw as int,
                        e.metrics,
                        e.coverage@,
                        gx as int,
                        gy as int,
                        color,
                    ),
                    target.len() == buffer@.len(),
                    forall|i: int|
                        0 <= i < buffer@.len() ==> #[trigger] buffer@[i] == (if (0 <= (i / 4) / (
                        bw as int) - gy < ly && 0 <= (i / 4) % (bw as int) - gx < width) || ((i / 4)
                            / (bw as int) - gy == ly && 0 <= (i / 4) % (bw as int) - gx < lx) {
                            target[i]
                        } else {
                            old(buffer)@[i]
                        }),
                decreases width - lx,
            {
                let dx: i64 = gx + lx as i64;
                if 0 <= dx && dx < bw as i64 {
                    let pyu: usize = dy as usize;
                    let pxu: usize = dx as usize;
                    proof {
                        assert((pyu * bw + pxu) * 4 + 3 < bw * rows * 4) by (nonlinear_arith)
                            requires
                                pyu < rows,
                                pxu < bw,
                                0 <= pyu,
                                0 <= pxu,
                                1 <= bw,
                        ;
                        assert(lx + ly * width < width * height && 0 <= ly * width) by (nonlinear_arith)
                            requires
                                lx < width,
                                ly < height,
                                0 <= lx,
                                0 <= ly,
                        ;
                        assert(e.coverage@.len() == width * height);
                    }
                    let idx: usize = (pyu * bw + pxu) * 4;
                    let cidx: usize = ly * width + lx;
                    let a = e.coverage[cidx];
                    proof {
                        assert((pyu * bw + pxu) % (bw as int) == pxu && (pyu * bw + pxu) / (
                        bw as int) == pyu) by (nonlinear_arith)
                            requires
                                pxu < bw,
                                1 <= bw,
                                0 <= pyu,
                                0 <= pxu,
                        ;
                        assert(idx as int / 4 == pyu * bw + pxu && idx as int % 4 == 0 && (idx as int
                            + 1) / 4 == pyu * bw + pxu && (idx as int + 1) % 4 == 1 && (idx as int
                            + 2) / 4 == pyu * bw + pxu && (idx as int + 2) % 4 == 2) by (nonlinear_arith)
                            requires
                                idx == (pyu * bw + pxu) * 4,
                                0 <= pyu * bw + pxu,
                        ;
                        assert(buffer@[idx as int] == old(buffer)@[idx as int]);
                        assert(buffer@[idx as int + 1] == old(buffer)@[idx as int + 1]);
                        assert(buffer@[idx as int + 2] == old(buffer)@[idx as int + 2]);
                        assert(target[idx as int] == blend_channel(
                            old(buffer)@[idx as int],
                            color.b,
                            e.coverage@[cidx as int],
                        ));
                        assert(target[idx as int + 1] == blend_channel(
                            old(buffer)@[idx as int + 1],
                            color.g,
                            e.coverage@[cidx as int],
                        ));
                        assert(target[idx as int + 2] == blend_channel(
                            old(buffer)@[idx as int + 2],
                            color.r,
                            e.coverage@[cidx as int],
                        ));
                    }
                    let d0 = buffer[idx];
                    let d1 = buffer[idx + 1];
                    let d2 = buffer[idx + 2];
                    let ghost bufpre = buffer@;
                    let v0 = blend(d0, color.b, a);
                    let v1 = blend(d1, color.g, a);
                    let v2 = blend(d2, color.r, a);
                    buffer[idx] = v0;
                    buffer[idx + 1] = v1;
                    buffer[idx + 2] = v2;
                    proof {
                        assert forall|i: int| 0 <= i < buffer@.len() implies #[trigger] buffer@[i]
                            == (if (0 <= (i / 4) / (bw as int) - gy < ly && 0 <= (i / 4) % (
                        bw as int) - gx < width) || ((i / 4) / (bw as int) - gy == ly && 0 <= (i
                            / 4) % (bw as int) - gx < lx + 1) {
                            target[i]
                        } else {
                            old(buffer)@[i]
                        }) by {
                            if idx <= i < idx + 3 {
                                assert(i / 4 == pyu * bw + pxu && i % 4 < 3);
                            } else {
                                assert(buffer@[i] == bufpre[i]);
                                if (i / 4) / (bw as int) == pyu && (i / 4) % (bw as int) == pxu {
                                    assert(i / 4 == (bw as int) * ((i / 4) / (bw as int)) + (i / 4)
                                        % (bw as int)) by (nonlinear_arith)
                                        requires
                                            1 <= bw,
                                    ;
                                    assert(i / 4 == pyu * bw + pxu) by (nonlinear_arith)
                                        requires
                                            i / 4 == (bw as int) * pyu + pxu,
                                    ;
                                    assert(i % 4 == 3);
                                    assert(target[i] == old(buffer)@[i]);
                                }
                            }
                        }
                    }
                } else {
                    proof {
                        assert forall|i: int| 0 <= i < buffer@.len() implies #[trigger] buffer@[i]
                            == (if (0 <= (i / 4) / (bw as int) - gy < ly && 0 <= (i / 4) % (
                        bw as int) - gx < width) || ((i / 4) / (bw as int) - gy == ly && 0 <= (i
                            / 4) % (bw as int) - gx < lx + 1) {
                            target[i]
                        } else {
                            old(buffer)@[i]
                        }) by {
                            let p = i / 4;
                            assert(4 * p <= i && i < 4 * p + 4 && 0 <= p);
                            assert(p < bw * rows) by (nonlinear_arith)
                                requires
                                    4 * p <= i,
                                    i < bw * rows * 4,
                            ;
                            vstd::arithmetic::div_mod::lemma_fundamental_div_mod(p, bw as int);
                            vstd::arithmetic::div_mod::lemma_mod_division_less_than_divisor(
                                p,
                                bw as int,
                            );
                            assert(0 <= p / (bw as int)) by (nonlinear_arith)
                                requires
                                    p == (bw as int) * (p / (bw as int)) + p % (bw as int),
                                    0 <= p % (bw as int) < bw,
                                    0 <= p,
                                    1 <= bw,
                            ;
                            if p / (bw as int) - gy == ly && p % (bw as int) - gx == lx {
                                // the skipped pixel lies outside the buffer: no such i exists
                                assert(p % (bw as int) < bw);
                                assert(false);
                            }
                        }
                    }
                }
                lx = lx + 1;
            }
        } else {
            proof {
                assert forall|i: int| 0 <= i < buffer@.len() implies #[trigger] buffer@[i] == (if 0
                    <= (i / 4) / (bw as int) - gy < ly + 1 && 0 <= (i / 4) % (bw as int) - gx
                    < width {
                    target[i]
                } else {
                    old(buffer)@[i]
                }) by {
                    let p = i / 4;
                    assert(4 * p <= i && i < 4 * p + 4 && 0 <= p);
                    assert(p < bw * rows) by (nonlinear_arith)
                        requires
                            4 * p <= i,
                            i < bw * rows * 4,
                    ;
                    vstd::arithmetic::div_mod::lemma_fundamental_div_mod(p, bw as int);
                    vstd::arithmetic::div_mod::lemma_mod_division_less_than_divisor(p, bw as int);
                    assert(0 <= p / (bw as int) < rows) by (nonlinear_arith)
                        requires
                            p == (bw as int) * (p / (bw as int)) + p % (bw as int),
                            0 <= p % (bw as int) < bw,
                            0 <= p,
                            p < bw * rows,
                            1 <= bw,
                    ;
                    if p / (bw as int) - gy == ly {
                        // the skipped row lies outside the buffer: no such i exists
                        assert(false);
                    }
                }
            }
        }
        ly = ly + 1;
    }
    proof {
        assert forall|i: int| 0 <= i < buffer@.len() implies buffer@[i] == target[i] by {
            if !(0 <= (i / 4) / (bw as int) - gy < height && 0 <= (i / 4) % (bw as int) - gx
                < width) {
                assert(target[i] == old(buffer)@[i]);
            }
        }
        assert(buffer@ =~= target);
    }
}

/// Buffer and pen position after drawing `text[k..]` left to right from pen
/// position `cx`: each cached glyph is blended at its bearing-adjusted
/// position in its per-character color (the highlight color for characters
/// whose index is a match position) and advances the pen; characters without
/// a cached glyph draw nothing and advance nothing.
pub open spec fn draw_text_from(
    buf: Seq<u8>,
    bw: int,
    cache: GlyphCache,
    text: Seq<char>,
    k: int,
    cx: int,
    baseline: int,
    color: Rgb,
    hl: Seq<usize>,
    hlc: Rgb,
    size: u32,
) -> (Seq<u8>, int)
    decreases text.len() - k,
{
    if k < 0 || k >= text.len() {
        (buf, cx)
    } else {
        let gcol = if hl.contains(k as usize) {
            hlc
        } else {
            color
        };
        match cache.lookup(text[k], size) {
            None => draw_text_from(buf, bw, cache, text, k + 1, cx, baseline, color, hl, hlc, size),
            Some(e) => {
                let gx = cx + e.metrics.xmin;
                let gy = baseline - e.metrics.height - e.metrics.ymin;
                let buf2 = draw_glyph_spec(buf, bw, e.metrics, e.coverage@, gx, gy, gcol);
                draw_text_from(
                    buf2,
                    bw,
                    cache,
                    text,
                    k + 1,
                    cx + e.metrics.advance,
                    baseline,
                    color,
                    hl,
                    hlc,
                    size,
                )
            },
        }
    }
}

/// The pen travels exactly the measured width of the text it draws.
pub proof fn lemma_draw_text_width(
    buf: Seq<u8>,
    bw: int,
    cache: GlyphCache,
    text: Seq<char>,
    k: int,
    cx: int,
    baseline: int,
    color: Rgb,
    hl: Seq<usize>,
    hlc: Rgb,
    size: u32,
)
    requires
        0 <= k <= text.len(),
    ensures
        draw_text_from(buf, bw, cache, text, k, cx, baseline, color, hl, hlc, size).1 == cx
            + measure_spec(cache, text.skip(k), size),
    decreases text.len() - k,
{
    if k >= text.len() {
        assert(text.skip(k) =~= Seq::<char>::empty());
    } else {
        assert(text.skip(k)[0] == text[k]);
        assert(text.skip(k).drop_first() =~= text.skip(k + 1));
        let gcol = if hl.contains(k as usize) {
            hlc
        } else {
            color
        };
        match cache.lookup(text[k], size) {
            None => {
                lemma_draw_text_width(buf, bw, cache, text, k + 1, cx, baseline, color, hl, hlc, size);
            },
            Some(e) => {
                let gx = cx + e.metrics.xmin;
                let gy = baseline - e.metrics.height - e.metrics.ymin;
                let buf2 = draw_glyph_spec(buf, bw, e.metrics, e.coverage@, gx, gy, gcol);
                lemma_draw_text_width(
                    buf2,
                    bw,
                    cache,
                    text,
                    k + 1,
                    cx + e.metrics.advance,
                    baseline,
                    color,
                    hl,
                    hlc,
                    size,
                );
            },
        }
    }
}

/// Tests whether a match-position list holds `k`.
pub fn contains_index(v: &Vec<usize>, k: usize) -> (r: bool)
    ensures
        r == v@.contains(k),
{
    let mut i: usize = 0;
    while i < v.len()
        invariant
            i <= v@.len(),
            forall|j: int| 0 <= j < i ==> v@[j] != k,
        decreases v@.len() - i,
    {
        if v[i] == k {
            return true;
        }
        i = i + 1;
    }
    false
}

/// Draws a text onto the buffer: per character, the cached glyph is blended
/// at the pen position (highlight color at match positions), and the pen
/// advances by the glyph's advance width; returns the total width consumed.
pub fn draw_text(
    buffer: &mut Vec<u8>,
    bw: usize,
    rows: usize,
    cache: &GlyphCache,
    text: &Vec<char>,
    x: i64,
    baseline: i64,
    color: Rgb,
    highlight_indices: &Vec<usize>,
    highlight: Rgb,
    size: u32,
) -> (advance: i64)
    requires
        old(buffer)@.len() == bw * rows * 4,
        1 <= bw <= 0x7fff_ffff,
        rows <= 0x7fff_ffff,
        cache.wf(),
        -0x8000_0000 <= x <= 0x8000_0000,
        -0x8000_0000 <= baseline <= 0x8000_0000,
        text@.len() <= 0x8000_0000,
    ensures
        ({
            let (b2, cx2) = draw_text_from(
                old(buffer)@,
                bw as int,
                *cache,
                text@,
                0,
                x as int,
                baseline as int,
                color,
                highlight_indices@,
                highlight,
                size,
            );
            final(buffer)@ == b2 && advance == cx2 - x
        }),
        advance == measure_spec(*cache, text@, size),
{
    let ghost goal = draw_text_from(
        old(buffer)@,
        bw as int,
        *cache,
        text@,
        0,
        x as int,
        baseline as int,
        color,
        highlight_indices@,
        highlight,
        size,
    );
    let mut cx: i64 = x;
    let mut k: usize = 0;
    while k < text.len()
        invariant
            k <= text@.len(),
            text@.len() <= 0x8000_0000,
            cache.wf(),
            buffer@.len() == bw * rows * 4,
            1 <= bw <= 0x7fff_ffff,
            rows <= 0x7fff_ffff,
            -0x8000_0000 <= x <= 0x8000_0000,
            -0x8000_0000 <= baseline <= 0x8000_0000,
            x <= cx <= x + 0x8000 * k,
            goal == draw_text_from(
                old(buffer)@,
                bw as int,
                *cache,
                text@,
                0,
                x as int,
                baseline as int,
                color,
                highlight_indices@,
                highlight,
                size,
            ),
            goal == draw_text_from(
                buffer@,
                bw as int,
                *cache,
                text@,
                k as int,
                cx as int,
                baseline as int,
                color,
                highlight_indices@,
                highlight,
                size,
            ),
        decreases text@.len() - k,
    {
        let gcol = if contains_index(highlight_indices, k) {
            highlight
        } else {
            color
        };
        proof {
            cache.lemma_lookup_wf(text@[k as int], size);
        }
        match cache.get(text[k], size) {
            None => {},
            Some(e) => {
                let gx: i64 = cx + e.metrics.xmin as i64;
                let gy: i64 = baseline - e.metrics.height as i64 - e.metrics.ymin as i64;
                draw_glyph(buffer, bw, rows, e, gx, gy, gcol);
                cx = cx + e.metrics.advance as i64;
            },
        }
        k = k + 1;
    }
    proof {
        lemma_draw_text_width(
            old(buffer)@,
            bw as int,
            *cache,
            text@,
            0,
            x as int,
            baseline as int,
            color,
            highlight_indices@,
            highlight,
            size,
        );
        assert(text@.skip(0) =~= text@);
    }
    cx - x
}

/// Drawing text never changes the buffer's size.
pub proof fn lemma_draw_text_len(
    buf: Seq<u8>,
    bw: int,
    cache: GlyphCache,
    text: Seq<char>,
    k: int,
    cx: int,
    baseline: int,
    color: Rgb,
    hl: Seq<usize>,
    hlc: Rgb,
    size: u32,
)
    ensures
        draw_text_from(buf, bw, cache, text, k, cx, baseline, color, hl, hlc, size).0.len()
            == buf.len(),
    decreases text.len() - k,
{
    if 0 <= k < text.len() {
        let gcol = if hl.contains(k as usize) {
            hlc
        } else {
            color
        };
        match cache.lookup(text[k], size) {
            None => {
                lemma_draw_text_len(buf, bw, cache, text, k + 1, cx, baseline, color, hl, hlc, size);
            },
            Some(e) => {
                let gx = cx + e.metrics.xmin;
                let gy = baseline - e.metrics.height - e.metrics.ymin;
                let buf2 = draw_glyph_spec(buf, bw, e.metrics, e.coverage@, gx, gy, gcol);
                lemma_draw_text_len(
                    buf2,
                    bw,
                    cache,
                    text,
                    k + 1,
                    cx + e.metrics.advance,
                    baseline,
                    color,
                    hl,
                    hlc,
                    size,
                );
            },
        }
    }
}

// ---------------------------------------------------------------------------
// Supersample downscaling
// ---------------------------------------------------------------------------

/// Sum of channel `c` over the first `n` pixels (row-major within the block)
/// of the `scale`-by-`scale` block whose top-left source pixel is `(x0, y0)`.
pub open spec fn block_sum(
    src: Seq<u8>,
    sw: int,
    x0: int,
    y0: int,
    scale: int,
    c: int,
    n: int,
) -> int
    decreases n,
{
    if n <= 0 {
        0
    } else {
        let k = n - 1;
        let sy = k / scale;
        let sx = k % scale;
        block_sum(src, sw, x0, y0, scale, c, n - 1) + src[((y0 + sy) * sw + (x0 + sx)) * 4 + c]
    }
}

/// A supersampled frame reduced by an integer factor: each output channel is
/// the average of its block's channel bytes, and every output alpha byte is
/// opaque.
pub open spec fn downscale_spec(src: Seq<u8>, sw: int, scale: int) -> Seq<u8> {
    let dw = sw / scale;
    Seq::new(
        (src.len() as int / (scale * scale)) as nat,
        |i: int|
            {
                let p = i / 4;
                let c = i % 4;
                let dx = p % dw;
                let dy = p / dw;
                if c == 3 {
                    255
                } else {
                    (block_sum(src, sw, dx * scale, dy * scale, scale, c, scale * scale) / (scale
                        * scale)) as u8
                }
            },
    )
}

proof fn lemma_block_sum_bound(src: Seq<u8>, sw: int, x0: int, y0: int, scale: int, c: int, n: int)
    requires
        0 <= n,
        forall|j: int| 0 <= j < n ==> 0 <= ((y0 + #[trigger] (j / scale)) * sw + (x0 + j % scale))
            * 4 + c < src.len(),
    ensures
        0 <= block_sum(src, sw, x0, y0, scale, c, n) <= 255 * n,
    decreases n,
{
    if n > 0 {
        lemma_block_sum_bound(src, sw, x0, y0, scale, c, n - 1);
        let k = n - 1;
        assert(0 <= ((y0 + k / scale) * sw + (x0 + k % scale)) * 4 + c < src.len());
    }
}

/// Averages channel `c` of one block.
fn block_avg(src: &Vec<u8>, sw: usize, sh: usize, scale: usize, dx: usize, dy: usize, c: usize) -> (r: u8)
    requires
        src@.len() == sw * sh * 4,
        1 <= scale <= 0xff,
        sw <= 0xffff,
        sh <= 0xffff,
        c < 3,
        (dx + 1) * scale <= sw,
        (dy + 1) * scale <= sh,
    ensures
        r as int == block_sum(
            src@,
            sw as int,
            dx * scale,
            dy * scale,
            scale as int,
            c as int,
            scale * scale,
        ) / (scale * scale),
{
    proof {
        assert(dx * scale < sw && dy * scale < sh) by (nonlinear_arith)
            requires
                (dx + 1) * scale <= sw,
                (dy + 1) * scale <= sh,
                0 <= dx,
                0 <= dy,
                1 <= scale,
        ;
    }
    let x0 = dx * scale;
    let y0 = dy * scale;
    let slen = src.len();
    proof {
        assert forall|j: int| 0 <= j < scale * scale implies 0 <= ((y0 + #[trigger] (j
            / (scale as int))) * (sw as int) + (x0 + j % (scale as int))) * 4 + c < src@.len() by {
            vstd::arithmetic::div_mod::lemma_fundamental_div_mod(j, scale as int);
            vstd::arithmetic::div_mod::lemma_mod_division_less_than_divisor(j, scale as int);
            assert(0 <= j / (scale as int) < scale) by (nonlinear_arith)
                requires
                    j == (scale as int) * (j / (scale as int)) + j % (scale as int),
                    0 <= j % (scale as int) < scale,
                    0 <= j < scale * scale,
                    1 <= scale,
            ;
            assert(0 <= ((y0 + j / (scale as int)) * (sw as int) + (x0 + j % (scale as int))) * 4
                + c < sw * sh * 4) by (nonlinear_arith)
                requires
                    0 <= j / (scale as int) < scale,
                    0 <= j % (scale as int) < scale,
                    x0 == dx * scale,
                    y0 == dy * scale,
                    (dx + 1) * scale <= sw,
                    (dy + 1) * scale <= sh,
                    0 <= c < 3,
                    1 <= scale,
                    0 <= dx,
                    0 <= dy,
                    1 <= sw,
            ;
        }
        assert(1 <= scale * scale <= 0xff * 0xff) by (nonlinear_arith)
            requires
                1 <= scale <= 0xff,
        ;
        lemma_block_sum_bound(
            src@,
            sw as int,
            x0 as int,
            y0 as int,
            scale as int,
            c as int,
            scale * scale,
        );
    }
    let mut acc: u32 = 0;
    let mut sy: usize = 0;
    while sy < scale
        invariant
            sy <= scale,
            1 <= scale <= 0xff,
            sw <= 0xffff,
            sh <= 0xffff,
            c < 3,
            x0 == dx * scale,
            y0 == dy * scale,
            (dx + 1) * scale <= sw,
            (dy + 1) * scale <= sh,
            src@.len() == sw * sh * 4,
            slen == sw * sh * 4,
            acc as int == block_sum(
                src@,
                sw as int,
                x0 as int,
                y0 as int,
                scale as int,
                c as int,
                sy * scale,
            ),
            acc <= 255 * (sy * scale),
            forall|j: int| 0 <= j < scale * scale ==> 0 <= ((y0 as int + #[trigger] (j / (
            scale as int))) * (sw as int) + (x0 + j % (scale as int))) * 4 + c < src@.len(),
        decreases scale - sy,
    {
        let mut sx: usize = 0;
        proof {
            assert(sy * scale + scale <= scale * scale && 255 * (sy * scale + scale) <= 255 * 255
                * 255) by (nonlinear_arith)
                requires
                    sy < scale,
                    scale <= 0xff,
                    0 <= sy,
            ;
        }
        while sx < scale
            invariant
                sy < scale,
                sx <= scale,
                1 <= scale <= 0xff,
                sw <= 0xffff,
                sh <= 0xffff,
                c < 3,
                x0 == dx * scale,
                y0 == dy * scale,
                (dx + 1) * scale <= sw,
                (dy + 1) * scale <= sh,
                src@.len() == sw * sh * 4,
                slen == sw * sh * 4,
                acc as int == block_sum(
                    src@,
                    sw as int,
                    x0 as int,
                    y0 as int,
                    scale as int,
                    c as int,
                    sy * scale + sx,
                ),
                acc <= 255 * (sy * scale + sx),
                sy * scale + scale <= scale * scale,
                255 * (sy * scale + scale) <= 255 * 255 * 255,
                forall|j: int| 0 <= j < scale * scale ==> 0 <= ((y0 as int + #[trigger] (j / (
                scale as int))) * (sw as int) + (x0 + j % (scale as int))) * 4 + c < src@.len(),
            decreases scale - sx,
        {
            let ghost k = sy * scale + sx;
            proof {
                assert(k / (scale as int) == sy && k % (scale as int) == sx) by (nonlinear_arith)
                    requires
                        k == sy * scale + sx,
                        0 <= sx < scale,
                        0 <= sy,
                        1 <= scale,
                ;
                assert(0 <= k < scale * scale) by (nonlinear_arith)
                    requires
                        k == sy * scale + sx,
                        0 <= sx < scale,
                        0 <= sy < scale,
                        1 <= scale,
                ;
                assert(0 <= ((y0 as int + k / (scale as int)) * (sw as int) + (x0 + k % (
                scale as int))) * 4 + c < src@.len());
                assert(((y0 + sy) * sw + (x0 + sx)) * 4 + c < src@.len());
                assert(y0 + sy < sh && x0 + sx < sw && (y0 + sy) * sw + (x0 + sx) < sw * sh && ((y0
                    + sy) * sw + (x0 + sx)) * 4 + c < sw * sh * 4) by (nonlinear_arith)
                    requires
                        x0 == dx * scale,
                        y0 == dy * scale,
                        (dx + 1) * scale <= sw,
                        (dy + 1) * scale <= sh,
                        0 <= sx < scale,
                        0 <= sy < scale,
                        0 <= dx,
                        0 <= dy,
                        0 <= c < 3,
                        1 <= scale,
                        1 <= sw,
                ;
                assert(slen == sw * sh * 4);
            }
            let sidx: usize = ((y0 + sy) * sw + (x0 + sx)) * 4 + c;
            acc = acc + src[sidx] as u32;
            sx = sx + 1;
        }
        proof {
            assert(sy * scale + scale == (sy + 1) * scale) by (nonlinear_arith);
        }
        sy = sy + 1;
    }
    proof {
        assert(sy * scale == scale * scale) by (nonlinear_arith)
            requires
                sy == scale,
        ;
        assert(block_sum(
            src@,
            sw as int,
            x0 as int,
            y0 as int,
            scale as int,
            c as int,
            scale * scale,
        ) / (scale * scale) <= 255) by (nonlinear_arith)
            requires
                0 <= block_sum(
                    src@,
                    sw as int,
                    x0 as int,
                    y0 as int,
                    scale as int,
                    c as int,
                    scale * scale,
                ) <= 255 * (scale * scale),
                1 <= scale,
        ;
    }
    proof {
        assert(1 <= scale * scale <= 0xff * 0xff) by (nonlinear_arith)
            requires
                1 <= scale <= 0xff,
        ;
    }
    let denom: u32 = (scale * scale) as u32;
    (acc / denom) as u8
}

/// Reduces a supersampled frame by an integer factor, averaging each block of
/// source pixels per channel into one destination pixel with opaque alpha.
pub fn downscale(src: &Vec<u8>, sw: usize, sh: usize, scale: usize) -> (dst: Vec<u8>)
    requires
        src@.len() == sw * sh * 4,
        1 <= scale <= 0xff,
        1 <= sw <= 0xffff,
        sh <= 0xffff,
        sw % scale == 0,
        sh % scale == 0,
    ensures
        dst@ == downscale_spec(src@, sw as int, scale as int),
{
    let ghost target = downscale_spec(src@, sw as int, scale as int);
    let dw = sw / scale;
    let dh = sh / scale;
    proof {
        assert(dw * scale == sw && dh * scale == sh) by (nonlinear_arith)
            requires
                dw == sw / scale,
                dh == sh / scale,
                sw % scale == 0,
                sh % scale == 0,
                1 <= scale,
                sw >= 0,
                sh >= 0,
        ;
        assert((sw * sh * 4) / ((scale as int) * (scale as int)) == dw * dh * 4) by (nonlinear_arith)
            requires
                dw * scale == sw,
                dh * scale == sh,
                1 <= scale,
        ;
        assert(target.len() == dw * dh * 4);
    }
    let mut dst: Vec<u8> = Vec::new();
    let mut dy: usize = 0;
    while dy < dh
        invariant
            dy <= dh,
            dw == sw / scale,
            dh == sh / scale,
            dw * scale == sw,
            dh * scale == sh,
            1 <= scale <= 0xff,
            1 <= sw <= 0xffff,
            sh <= 0xffff,
            src@.len() == sw * sh * 4,
            target == downscale_spec(src@, sw as int, scale as int),
            target.len() == dw * dh * 4,
            dst@.len() == dy * dw * 4,
            dst@ == target.subrange(0, dst@.len() as int),
        decreases dh - dy,
    {
        let mut dx: usize = 0;
        proof {
            assert(dy * dw * 4 + dw * 4 <= dh * dw * 4) by (nonlinear_arith)
                requires
                    dy < dh,
                    0 <= dw,
                    0 <= dy,
            ;
        }
        while dx < dw
            invariant
                dy < dh,
                dx <= dw,
                dw == sw / scale,
                dh == sh / scale,
                dw * scale == sw,
                dh * scale == sh,
                1 <= scale <= 0xff,
                1 <= sw <= 0xffff,
                sh <= 0xffff,
                src@.len() == sw * sh * 4,
                target == downscale_spec(src@, sw as int, scale as int),
                target.len() == dw * dh * 4,
                dst@.len() == (dy * dw + dx) * 4,
                dy * dw * 4 + dw * 4 <= dh * dw * 4,
                dst@ == target.subrange(0, dst@.len() as int),
            decreases dw - dx,
        {
            let ghost p = dy * dw + dx;
            proof {
                assert(p * 4 + 4 <= dw * dh * 4 && p % (dw as int) == dx && p / (dw as int) == dy
                    && p * 4 / 4 == p && p * 4 % 4 == 0 && (p * 4 + 1) / 4 == p && (p * 4 + 1) % 4
                    == 1 && (p * 4 + 2) / 4 == p && (p * 4 + 2) % 4 == 2 && (p * 4 + 3) / 4 == p
                    && (p * 4 + 3) % 4 == 3) by (nonlinear_arith)
                    requires
                        p == dy * dw + dx,
                        0 <= dx < dw,
                        0 <= dy < dh,
                ;
                assert((dx + 1) * scale <= sw && (dy + 1) * scale <= sh) by (nonlinear_arith)
                    requires
                        dx < dw,
                        dy < dh,
                        dw * scale == sw,
                        dh * scale == sh,
                        0 <= dx,
                        0 <= dy,
                        1 <= scale,
                ;
            }
            let b = block_avg(src, sw, sh, scale, dx, dy, 0);
            let g = block_avg(src, sw, sh, scale, dx, dy, 1);
            let r = block_avg(src, sw, sh, scale, dx, dy, 2);
            dst.push(b);
            dst.push(g);
            dst.push(r);
            dst.push(255);
            dx = dx + 1;
            proof {
                assert(target[p * 4] == b && target[p * 4 + 1] == g && target[p * 4 + 2] == r
                    && target[p * 4 + 3] == 255);
                assert(dst@ =~= target.subrange(0, dst@.len() as int));
                assert(dst@.len() == (dy * dw + dx) * 4) by (nonlinear_arith)
                    requires
                        dst@.len() == (dy * dw + dx - 1) * 4 + 4,
                ;
            }
        }
        dy = dy + 1;
        proof {
            assert(dst@.len() == dy * dw * 4) by (nonlinear_arith)
                requires
                    dst@.len() == ((dy - 1) * dw + dw) * 4,
            ;
        }
    }
    proof {
        assert(dst@.len() == dh * dw * 4) by (nonlinear_arith)
            requires
                dst@.len() == dh * dw * 4,
        ;
        assert(dst@ =~= target);
    }
    dst
}

} // verus!
