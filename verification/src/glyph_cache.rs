//! Glyph cache assembly: coverage bitmaps for a character set, with optional
//! mirroring, boldening and precomputed glow variants.
//!
//! Rasterization itself happens outside the library; the cache is built from
//! plain coverage grids and integer metrics.

use vstd::prelude::*;

verus! {

/// Largest glyph side the cache accepts, in pixels.
pub const GLYPH_MAX: usize = 16384;

/// A coverage value of a bitmap, reading zero outside its bounds.
pub open spec fn cov_at(s: Seq<u8>, w: int, h: int, x: int, y: int) -> u8 {
    if 0 <= x < w && 0 <= y < h {
        s[y * w + x]
    } else {
        0
    }
}

/// The larger of two coverage values.
pub open spec fn max_u8(a: u8, b: u8) -> u8 {
    if a >= b {
        a
    } else {
        b
    }
}

/// A bitmap flipped column-wise, row by row.
pub open spec fn mirror_spec(s: Seq<u8>, w: int, h: int) -> Seq<u8> {
    Seq::new(s.len(), |i: int| s[(i / w) * w + (w - 1 - i % w)])
}

/// Soft dilation: each pixel becomes the larger of itself and half its
/// strongest 4-neighbor.
pub open spec fn bolden_at(s: Seq<u8>, w: int, h: int, x: int, y: int) -> u8 {
    let nmax = max_u8(
        max_u8(cov_at(s, w, h, x - 1, y), cov_at(s, w, h, x + 1, y)),
        max_u8(cov_at(s, w, h, x, y - 1), cov_at(s, w, h, x, y + 1)),
    );
    max_u8(s[y * w + x], nmax / 2)
}

/// The whole bitmap boldened.
pub open spec fn bolden_spec(s: Seq<u8>, w: int, h: int) -> Seq<u8> {
    Seq::new(s.len(), |i: int| bolden_at(s, w, h, i % w, i / w))
}

/// Full morphological dilation with a 3-by-3 max kernel at one target pixel
/// of the grown bitmap.
pub open spec fn dilate_at(s: Seq<u8>, w: int, h: int, dx: int, dy: int) -> u8 {
    let cx = dx - 1;
    let cy = dy - 1;
    max_u8(
        max_u8(
            max_u8(
                max_u8(cov_at(s, w, h, cx - 1, cy - 1), cov_at(s, w, h, cx, cy - 1)),
                max_u8(cov_at(s, w, h, cx + 1, cy - 1), cov_at(s, w, h, cx - 1, cy)),
            ),
            max_u8(cov_at(s, w, h, cx, cy), cov_at(s, w, h, cx + 1, cy)),
        ),
        max_u8(
            max_u8(cov_at(s, w, h, cx - 1, cy + 1), cov_at(s, w, h, cx, cy + 1)),
            cov_at(s, w, h, cx + 1, cy + 1),
        ),
    )
}

/// The whole bitmap dilated, grown by one pixel on every side.
pub open spec fn dilate_spec(s: Seq<u8>, w: int, h: int) -> Seq<u8> {
    Seq::new((((w + 2) * (h + 2)) as nat), |i: int| dilate_at(s, w, h, i % (w + 2), i / (w + 2)))
}

/// Horizontally flip a coverage bitmap, row by row.
pub fn mirror_bitmap(coverage: &Vec<u8>, width: usize, height: usize) -> (r: Vec<u8>)
    requires
        coverage@.len() == width * height,
        1 <= width <= GLYPH_MAX,
        height <= GLYPH_MAX,
    ensures
        r@.len() == coverage@.len(),
        r@ == mirror_spec(coverage@, width as int, height as int),
{
    let mut r: Vec<u8> = Vec::new();
    let mut y: usize = 0;
    while y < height
        invariant
            y <= height,
            1 <= width <= GLYPH_MAX,
            height <= GLYPH_MAX,
            coverage@.len() == width * height,
            r@.len() == y * width,
            forall|i: int|
                0 <= i < r@.len() ==> r@[i] == coverage@[(i / (width as int)) * (width as int) + (
                width - 1 - i % (width as int))],
        decreases height - y,
    {
        let mut x: usize = 0;
        while x < width
            invariant
                y < height,
                x <= width,
                1 <= width <= GLYPH_MAX,
                height <= GLYPH_MAX,
                coverage@.len() == width * height,
                r@.len() == y * width + x,
                forall|i: int|
                    0 <= i < r@.len() ==> r@[i] == coverage@[(i / (width as int)) * (width as int)
                        + (width - 1 - i % (width as int))],
            decreases width - x,
        {
            proof {
                assert(y * width + x < width * height && y * width + (width - 1 - x) < width
                    * height && width * height <= 16384 * 16384 && (y * width + x) / (
                width as int) == y && (y * width + x) % (width as int) == x) by (nonlinear_arith)
                    requires
                        0 <= y < height,
                        0 <= x < width,
                        width <= 16384,
                        height <= 16384,
                ;
            }
            let src_idx: usize = y * width + (width - 1 - x);
            r.push(coverage[src_idx]);
            x = x + 1;
        }
        y = y + 1;
        proof {
            assert((y - 1) * width + width == y * width) by (nonlinear_arith)
                requires
                    y >= 1,
            ;
        }
    }
    proof {
        assert(height * width == width * height) by (nonlinear_arith);
        assert(r@ =~= mirror_spec(coverage@, width as int, height as int));
    }
    r
}

/// Mirroring a bitmap twice reproduces the original coverage grid.
pub proof fn lemma_mirror_involution(s: Seq<u8>, w: int, h: int)
    requires
        w >= 1,
        h >= 0,
        s.len() == w * h,
    ensures
        mirror_spec(mirror_spec(s, w, h), w, h) == s,
{
    let m = mirror_spec(s, w, h);
    let mm = mirror_spec(m, w, h);
    assert forall|i: int| 0 <= i < s.len() implies mm[i] == s[i] by {
        let y = i / w;
        let x = i % w;
        assert(0 <= x < w && 0 <= y && y * w + x == i) by (nonlinear_arith)
            requires
                w >= 1,
                0 <= i,
                y == i / w,
                x == i % w,
        ;
        assert(y < h) by (nonlinear_arith)
            requires
                w >= 1,
                0 <= i < w * h,
                y * w + x == i,
                0 <= x < w,
                0 <= y,
        ;
        let j = y * w + (w - 1 - x);
        assert(0 <= j < w * h && j / w == y && j % w == w - 1 - x) by (nonlinear_arith)
            requires
                w >= 1,
                0 <= x < w,
                0 <= y < h,
                j == y * w + (w - 1 - x),
        ;
        assert(mm[i] == m[j]);
        assert(m[j] == s[y * w + (w - 1 - (w - 1 - x))]);
    };
    assert(mm =~= s);
}

/// Read a coverage value, zero outside the bitmap's bounds.
fn cov_read(s: &Vec<u8>, w: usize, h: usize, x: i64, y: i64) -> (r: u8)
    requires
        s@.len() == w * h,
        w <= GLYPH_MAX,
        h <= GLYPH_MAX,
        -3 <= x <= 2 * (GLYPH_MAX as int),
        -3 <= y <= 2 * (GLYPH_MAX as int),
    ensures
        r == cov_at(s@, w as int, h as int, x as int, y as int),
{
    if x >= 0 && x < (w as i64) && y >= 0 && y < (h as i64) {
        proof {
            assert((y as int) * (w as int) + (x as int) < w * h && (y as int) * (w as int) + (
            x as int) >= 0 && w * h <= 16384 * 16384) by (nonlinear_arith)
                requires
                    0 <= x < w,
                    0 <= y < h,
                    w <= 16384,
                    h <= 16384,
            ;
        }
        let idx: usize = (y as usize) * w + (x as usize);
        s[idx]
    } else {
        0
    }
}

fn max_byte(a: u8, b: u8) -> (r: u8)
    ensures
        r == max_u8(a, b),
{
    if a >= b {
        a
    } else {
        b
    }
}

/// Full morphological dilation with a 3-by-3 max kernel, growing the bitmap
/// by one pixel on every side.  The caller adjusts the bearings by one.
pub fn dilate_expand(src: &Vec<u8>, w: usize, h: usize) -> (r: (Vec<u8>, usize, usize))
    requires
        src@.len() == w * h,
        1 <= w <= GLYPH_MAX,
        1 <= h <= GLYPH_MAX,
    ensures
        r.1 == w + 2,
        r.2 == h + 2,
        r.0@.len() == (w + 2) * (h + 2),
        r.0@ == dilate_spec(src@, w as int, h as int),
{
    let new_w = w + 2;
    let new_h = h + 2;
    let mut dst: Vec<u8> = Vec::new();
    let mut dy: usize = 0;
    while dy < new_h
        invariant
            dy <= new_h,
            new_w == w + 2,
            new_h == h + 2,
            1 <= w <= GLYPH_MAX,
            1 <= h <= GLYPH_MAX,
            src@.len() == w * h,
            dst@.len() == dy * new_w,
            forall|i: int|
                0 <= i < dst@.len() ==> dst@[i] == dilate_at(
                    src@,
                    w as int,
                    h as int,
                    i % (new_w as int),
                    i / (new_w as int),
                ),
        decreases new_h - dy,
    {
        let mut dx: usize = 0;
        while dx < new_w
            invariant
                dy < new_h,
                dx <= new_w,
                new_w == w + 2,
                new_h == h + 2,
                1 <= w <= GLYPH_MAX,
                1 <= h <= GLYPH_MAX,
                src@.len() == w * h,
                dst@.len() == dy * new_w + dx,
                forall|i: int|
                    0 <= i < dst@.len() ==> dst@[i] == dilate_at(
                        src@,
                        w as int,
                        h as int,
                        i % (new_w as int),
                        i / (new_w as int),
                    ),
            decreases new_w - dx,
        {
            let cx: i64 = (dx as i64) - 1;
            let cy: i64 = (dy as i64) - 1;
            let m = max_byte(
                max_byte(
                    max_byte(
                        max_byte(
                            cov_read(src, w, h, cx - 1, cy - 1),
                            cov_read(src, w, h, cx, cy - 1),
                        ),
                        max_byte(
                            cov_read(src, w, h, cx + 1, cy - 1),
                            cov_read(src, w, h, cx - 1, cy),
                        ),
                    ),
                    max_byte(cov_read(src, w, h, cx, cy), cov_read(src, w, h, cx + 1, cy)),
                ),
                max_byte(
                    max_byte(cov_read(src, w, h, cx - 1, cy + 1), cov_read(src, w, h, cx, cy + 1)),
                    cov_read(src, w, h, cx + 1, cy + 1),
                ),
            );
            proof {
                assert((dy as int) * (new_w as int) + (dx as int) >= 0 && ((dy as int) * (
                new_w as int) + (dx as int)) / (new_w as int) == dy && ((dy as int) * (new_w as int)
                    + (dx as int)) % (new_w as int) == dx) by (nonlinear_arith)
                    requires
                        0 <= dx < new_w,
                        0 <= dy,
                        1 <= new_w,
                ;
            }
            dst.push(m);
            dx = dx + 1;
        }
        dy = dy + 1;
        proof {
            assert((dy - 1) * new_w + new_w == dy * new_w) by (nonlinear_arith)
                requires
                    dy >= 1,
            ;
        }
    }
    proof {
        assert((new_h as int) * (new_w as int) == ((w as int) + 2) * ((h as int) + 2))
            by (nonlinear_arith)
            requires
                new_w == w + 2,
                new_h == h + 2,
        ;
        assert(dst@.len() == dilate_spec(src@, w as int, h as int).len());
        assert(dst@ =~= dilate_spec(src@, w as int, h as int));
    }
    (dst, new_w, new_h)
}

/// Soft dilation in place: each pixel becomes the larger of itself and half
/// its strongest 4-neighbor, thickening strokes while keeping anti-aliased
/// edges.
pub fn bolden_coverage(coverage: &mut Vec<u8>, width: usize, height: usize)
    requires
        old(coverage)@.len() == width * height,
        width <= GLYPH_MAX,
        height <= GLYPH_MAX,
    ensures
        final(coverage)@.len() == old(coverage)@.len(),
        width >= 1 && height >= 1 ==> final(coverage)@ == bolden_spec(
            old(coverage)@,
            width as int,
            height as int,
        ),
{
    if width == 0 || height == 0 {
        return ;
    }
    // Copy the source so neighbor reads see the original values.
    let mut src: Vec<u8> = Vec::new();
    let mut k: usize = 0;
    let n = coverage.len();
    while k < n
        invariant
            k <= n,
            n == coverage@.len(),
            coverage@ == old(coverage)@,
            src@ =~= coverage@.subrange(0, k as int),
        decreases n - k,
    {
        src.push(coverage[k]);
        k = k + 1;
    }
    proof {
        assert(src@ =~= old(coverage)@);
    }
    let mut y: usize = 0;
    while y < height
        invariant
            y <= height,
            1 <= width <= GLYPH_MAX,
            1 <= height <= GLYPH_MAX,
            src@ == old(coverage)@,
            src@.len() == width * height,
            coverage@.len() == width * height,
            forall|i: int|
                0 <= i < y * width ==> coverage@[i] == bolden_at(
                    src@,
                    width as int,
                    height as int,
                    i % (width as int),
                    i / (width as int),
                ),
            forall|i: int| y * width <= i < coverage@.len() ==> coverage@[i] == src@[i],
        decreases height - y,
    {
        let mut x: usize = 0;
        while x < width
            invariant
                y < height,
                x <= width,
                1 <= width <= GLYPH_MAX,
                1 <= height <= GLYPH_MAX,
                src@ == old(coverage)@,
                src@.len() == width * height,
                coverage@.len() == width * height,
                forall|i: int|
                    0 <= i < y * width + x ==> coverage@[i] == bolden_at(
                        src@,
                        width as int,
                        height as int,
                        i % (width as int),
                        i / (width as int),
                    ),
                forall|i: int| y * width + x <= i < coverage@.len() ==> coverage@[i] == src@[i],
            decreases width - x,
        {
            proof {
                assert(0 <= (y as int) * (width as int) + (x as int) < width * height && width
                    * height <= 16384 * 16384 && ((y as int) * (width as int) + (x as int)) / (
                width as int) == y && ((y as int) * (width as int) + (x as int)) % (width as int)
                    == x) by (nonlinear_arith)
                    requires
                        0 <= x < width,
                        0 <= y < height,
                        width <= 16384,
                        height <= 16384,
                ;
            }
            let idx: usize = y * width + x;
            let nmax = max_byte(
                max_byte(
                    cov_read(&src, width, height, (x as i64) - 1, y as i64),
                    cov_read(&src, width, height, (x as i64) + 1, y as i64),
                ),
                max_byte(
                    cov_read(&src, width, height, x as i64, (y as i64) - 1),
                    cov_read(&src, width, height, x as i64, (y as i64) + 1),
                ),
            );
            let orig = src[idx];
            coverage[idx] = max_byte(orig, nmax / 2);
            x = x + 1;
        }
        y = y + 1;
        proof {
            assert((y - 1) * width + width == y * width) by (nonlinear_arith)
                requires
                    y >= 1,
            ;
        }
    }
    proof {
        assert(height * width == width * height) by (nonlinear_arith);
        assert(coverage@ =~= bolden_spec(old(coverage)@, width as int, height as int));
    }
}

} // verus!

verus! {

/// A pre-dilated glyph variant with an expanded bounding box.
#[derive(Debug)]
pub struct GlowGlyph {
    pub coverage: Vec<u8>,
    pub width: usize,
    pub height: usize,
    pub xmin: i32,
    pub ymin: i32,
}

/// An anti-aliased rasterization of one character: alpha coverage values in
/// row-major order, plus bearings for placement relative to the cell origin.
#[derive(Debug)]
pub struct GlyphBitmap {
    pub coverage: Vec<u8>,
    pub width: usize,
    pub height: usize,
    /// Offset from the cell origin to the bitmap's left edge.
    pub xmin: i32,
    pub ymin: i32,
    /// Twice-dilated variant for per-intensity glow (movie theme only).
    pub glow: Option<GlowGlyph>,
}

/// One rasterized character as the rasterizer hands it over.
pub struct RasterGlyph {
    pub ch: char,
    pub coverage: Vec<u8>,
    pub width: usize,
    pub height: usize,
    pub xmin: i32,
    pub ymin: i32,
}

/// Everything the rasterizer reports for a character set at one font size.
pub struct FontRaster {
    pub glyphs: Vec<RasterGlyph>,
    /// Font ascent in pixels, rounded toward zero.
    pub ascent: u32,
    /// Line height from the font's metrics, rounded up; zero when the font
    /// reports none.
    pub line_height: usize,
    /// Advance width of the first character, rounded up; absent for an empty
    /// character set.
    pub advance_width: Option<usize>,
}

/// Bounds under which the raster input is accepted.
pub open spec fn raster_glyph_wf(g: RasterGlyph) -> bool {
    &&& g.coverage@.len() == g.width * g.height
    &&& g.width <= 16380
    &&& g.height <= 16380
    &&& -100000 <= g.xmin <= 100000
    &&& -100000 <= g.ymin <= 100000
}

/// A well-formed raster report.
pub open spec fn raster_wf(r: FontRaster) -> bool {
    &&& (forall|i: int| 0 <= i < r.glyphs.len() ==> raster_glyph_wf(#[trigger] r.glyphs[i]))
    &&& r.ascent <= 100000
    &&& r.line_height <= 100000
    &&& (r.advance_width is Some ==> r.advance_width.unwrap() <= 100000)
}

/// A well-formed cached bitmap.
pub open spec fn glyph_wf(b: GlyphBitmap) -> bool {
    &&& b.coverage@.len() == b.width * b.height
    &&& b.width <= GLYPH_MAX
    &&& b.height <= GLYPH_MAX
    &&& -300000 <= b.xmin <= 300000
    &&& -300000 <= b.ymin <= 300000
    &&& match b.glow {
        Some(g) => g.coverage@.len() == g.width * g.height && g.width <= GLYPH_MAX && g.height
            <= GLYPH_MAX && -300000 <= g.xmin <= 300000 && -300000 <= g.ymin <= 300000,
        None => true,
    }
}

/// The coverage grid a cached bitmap must hold, from the raster input and the
/// build options.
pub open spec fn built_coverage(g: RasterGlyph, mirror: bool, bold: bool) -> Seq<u8> {
    let w = g.width as int;
    let h = g.height as int;
    let base = if mirror && g.width > 0 && g.height > 0 {
        mirror_spec(g.coverage@, w, h)
    } else {
        g.coverage@
    };
    if bold && g.width > 0 && g.height > 0 {
        bolden_spec(base, w, h)
    } else {
        base
    }
}

/// Whether a cached bitmap is exactly what the build options make of one
/// raster glyph within a cell of the given width.
pub open spec fn bitmap_matches(
    b: GlyphBitmap,
    g: RasterGlyph,
    cell_width: int,
    mirror: bool,
    bold: bool,
) -> bool {
    let w = g.width as int;
    let h = g.height as int;
    &&& b.width == g.width
    &&& b.height == g.height
    &&& b.ymin == g.ymin
    &&& b.xmin as int == (if mirror && g.width > 0 && g.height > 0 {
        cell_width - g.xmin - w
    } else {
        g.xmin as int
    })
    &&& b.coverage@ == built_coverage(g, mirror, bold)
    &&& (if bold && g.width > 0 && g.height > 0 {
        match b.glow {
            Some(glow) => {
                let d1 = dilate_spec(built_coverage(g, mirror, bold), w, h);
                glow.coverage@ == dilate_spec(d1, w + 2, h + 2) && glow.width == g.width + 4
                    && glow.height == g.height + 4 && glow.xmin == b.xmin - 2 && glow.ymin == b.ymin
                    - 2
            },
            None => false,
        }
    } else {
        b.glow is None
    })
}

/// Largest glyph width in a raster report.
pub open spec fn max_glyph_width(gs: Seq<RasterGlyph>) -> int
    decreases gs.len(),
{
    if gs.len() == 0 {
        0
    } else if gs.last().width as int > max_glyph_width(gs.drop_last()) {
        gs.last().width as int
    } else {
        max_glyph_width(gs.drop_last())
    }
}

/// Largest glyph height in a raster report.
pub open spec fn max_glyph_height(gs: Seq<RasterGlyph>) -> int
    decreases gs.len(),
{
    if gs.len() == 0 {
        0
    } else if gs.last().height as int > max_glyph_height(gs.drop_last()) {
        gs.last().height as int
    } else {
        max_glyph_height(gs.drop_last())
    }
}

/// The cell width the cache derives: the first character's advance where the
/// rasterizer reports one, floored by the widest glyph, and at least one.
pub open spec fn derived_cell_width(r: FontRaster) -> int {
    let base = match r.advance_width {
        Some(a) => a as int,
        None => max_glyph_width(r.glyphs@),
    };
    let floored = if base > max_glyph_width(r.glyphs@) {
        base
    } else {
        max_glyph_width(r.glyphs@)
    };
    if floored > 1 {
        floored
    } else {
        1
    }
}

/// The cell height the cache derives: the font's line height where it
/// exceeds the tallest glyph, and at least one.
pub open spec fn derived_cell_height(r: FontRaster) -> int {
    let base = if r.line_height as int > max_glyph_height(r.glyphs@) {
        r.line_height as int
    } else {
        max_glyph_height(r.glyphs@)
    };
    if base > 1 {
        base
    } else {
        1
    }
}

/// Read the character of a raster glyph.
fn raster_ch(g: &RasterGlyph) -> (c: char)
    ensures
        c == g.ch,
{
    g.ch
}

/// The glyph cache: one coverage bitmap per character of the active set,
/// with the uniform cell size and the font ascent.
pub struct GlyphCache {
    pub glyphs: Vec<(char, GlyphBitmap)>,
    /// Uniform cell width in pixels.
    pub cell_width: usize,
    /// Uniform cell height in pixels.
    pub cell_height: usize,
    /// Font ascent in pixels, for glyph placement within a cell.
    pub ascent: u32,
}

impl GlyphCache {
    /// The cache's structural invariant.
    pub open spec fn wf(self) -> bool {
        &&& 1 <= self.cell_width <= 200000
        &&& 1 <= self.cell_height <= 200000
        &&& self.ascent <= 100000
        &&& (forall|i: int| 0 <= i < self.glyphs.len() ==> glyph_wf((#[trigger] self.glyphs[i]).1))
    }

    /// Build the cache from a raster report: mirror bitmaps column-wise when
    /// asked (recomputing the horizontal bearing so the glyph stays anchored
    /// in its cell), bolden them when asked, and precompute the twice-dilated
    /// glow variant for boldened glyphs.
    pub fn new(raster: FontRaster, mirror_glyphs: bool, bold: bool) -> (r: GlyphCache)
        requires
            raster_wf(raster),
        ensures
            r.wf(),
            r.glyphs.len() == raster.glyphs.len(),
            r.cell_width as int == derived_cell_width(raster),
            r.cell_height as int == derived_cell_height(raster),
            r.ascent == raster.ascent,
            forall|i: int|
                0 <= i < r.glyphs.len() ==> (#[trigger] r.glyphs[i]).0 == raster.glyphs[i].ch,
            forall|i: int|
                0 <= i < r.glyphs.len() ==> bitmap_matches(
                    (#[trigger] r.glyphs[i]).1,
                    raster.glyphs[i],
                    r.cell_width as int,
                    mirror_glyphs,
                    bold,
                ),
    {
        let n = raster.glyphs.len();
        let mut max_width: usize = 0;
        let mut max_height: usize = 0;
        let mut i: usize = 0;
        while i < n
            invariant
                i <= n,
                n == raster.glyphs@.len(),
                forall|j: int| 0 <= j < n ==> raster_glyph_wf(#[trigger] raster.glyphs@[j]),
                max_width as int == max_glyph_width(raster.glyphs@.subrange(0, i as int)),
                max_height as int == max_glyph_height(raster.glyphs@.subrange(0, i as int)),
                max_width <= 16380,
                max_height <= 16380,
            decreases n - i,
        {
            proof {
                let pre = raster.glyphs@.subrange(0, i as int);
                let cur = raster.glyphs@.subrange(0, i + 1);
                assert(cur.drop_last() =~= pre);
                assert(cur.last() == raster.glyphs@[i as int]);
            }
            if raster.glyphs[i].width > max_width {
                max_width = raster.glyphs[i].width;
            }
            if raster.glyphs[i].height > max_height {
                max_height = raster.glyphs[i].height;
            }
            i = i + 1;
        }
        proof {
            assert(raster.glyphs@.subrange(0, n as int) =~= raster.glyphs@);
        }
        let cell_height_base: usize = if raster.line_height > max_height {
            raster.line_height
        } else {
            max_height
        };
        let cell_height: usize = if cell_height_base > 1 {
            cell_height_base
        } else {
            1
        };
        let cell_width_base: usize = match raster.advance_width {
            Some(a) => a,
            None => max_width,
        };
        let cell_width_floored: usize = if cell_width_base > max_width {
            cell_width_base
        } else {
            max_width
        };
        let cell_width: usize = if cell_width_floored > 1 {
            cell_width_floored
        } else {
            1
        };

        let mut glyphs: Vec<(char, GlyphBitmap)> = Vec::new();
        let mut k: usize = 0;
        while k < n
            invariant
                k <= n,
                n == raster.glyphs@.len(),
                forall|j: int| 0 <= j < n ==> raster_glyph_wf(#[trigger] raster.glyphs@[j]),
                1 <= cell_width <= 200000,
                glyphs@.len() == k,
                forall|j: int|
                    0 <= j < k ==> (#[trigger] glyphs@[j]).0 == raster.glyphs@[j].ch,
                forall|j: int|
                    0 <= j < k ==> bitmap_matches(
                        (#[trigger] glyphs@[j]).1,
                        raster.glyphs@[j],
                        cell_width as int,
                        mirror_glyphs,
                        bold,
                    ),
                forall|j: int| 0 <= j < k ==> glyph_wf((#[trigger] glyphs@[j]).1),
            decreases n - k,
        {
            let g = &raster.glyphs[k];
            let w = g.width;
            let h = g.height;
            let mirrored = mirror_glyphs && w > 0 && h > 0;
            let mut coverage: Vec<u8>;
            let xmin: i32;
            if mirrored {
                coverage = mirror_bitmap(&g.coverage, w, h);
                xmin = (cell_width as i32) - g.xmin - (w as i32);
            } else {
                coverage = copy_bytes(&g.coverage);
                xmin = g.xmin;
            }
            let mut glow: Option<GlowGlyph> = None;
            if bold && w > 0 && h > 0 {
                bolden_coverage(&mut coverage, w, h);
                let (d1, w1, h1) = dilate_expand(&coverage, w, h);
                let (d2, w2, h2) = dilate_expand(&d1, w1, h1);
                glow = Some(
                    GlowGlyph {
                        coverage: d2,
                        width: w2,
                        height: h2,
                        xmin: xmin - 2,
                        ymin: g.ymin - 2,
                    },
                );
            }
            let bitmap = GlyphBitmap { coverage, width: w, height: h, xmin, ymin: g.ymin, glow };
            let ch = raster_ch(g);
            glyphs.push((ch, bitmap));
            k = k + 1;
        }
        GlyphCache { glyphs, cell_width, cell_height, ascent: raster.ascent }
    }

    /// Look a character's bitmap up: the first entry for the character.
    pub fn get(&self, ch: char) -> (r: Option<&GlyphBitmap>)
        ensures
            match r {
                Some(b) => cache_first(self.glyphs@, ch) == Some(*b),
                None => cache_first(self.glyphs@, ch) is None,
            },
            match r {
                Some(b) => exists|i: int|
                    0 <= i < self.glyphs.len() && (#[trigger] self.glyphs[i]).0 == ch
                        && self.glyphs[i].1 == *b,
                None => forall|i: int|
                    0 <= i < self.glyphs.len() ==> (#[trigger] self.glyphs[i]).0 != ch,
            },
    {
        proof {
            lemma_cache_first(self.glyphs@, ch);
        }
        let n = self.glyphs.len();
        let mut i: usize = 0;
        while i < n
            invariant
                i <= n,
                n == self.glyphs@.len(),
                forall|j: int| 0 <= j < i ==> (#[trigger] self.glyphs@[j]).0 != ch,
                cache_first_idx(self.glyphs@, ch) >= i,
                cache_first_idx(self.glyphs@, ch) < self.glyphs@.len() ==> cache_first(
                    self.glyphs@,
                    ch,
                ) == Some(self.glyphs@[cache_first_idx(self.glyphs@, ch)].1),
                cache_first_idx(self.glyphs@, ch) == self.glyphs@.len() ==> cache_first(
                    self.glyphs@,
                    ch,
                ) is None,
                cache_first_idx(self.glyphs@, ch) < self.glyphs@.len() ==> self.glyphs@[
                    cache_first_idx(self.glyphs@, ch)
                ].0 == ch,
            decreases n - i,
        {
            if self.glyphs[i].0 == ch {
                proof {
                    lemma_cache_first_step(self.glyphs@, ch, i as int);
                }
                return Some(&self.glyphs[i].1);
            }
            proof {
                lemma_cache_first_skip(self.glyphs@, ch, i as int);
            }
            i = i + 1;
        }
        None
    }
}

/// The index of the first entry for a character, or the length if none.
pub open spec fn cache_first_idx(glyphs: Seq<(char, GlyphBitmap)>, ch: char) -> int
    decreases glyphs.len(),
{
    if glyphs.len() == 0 {
        0
    } else if glyphs[0].0 == ch {
        0
    } else {
        1 + cache_first_idx(glyphs.drop_first(), ch)
    }
}

/// The first cached bitmap for a character, if any.
pub open spec fn cache_first(glyphs: Seq<(char, GlyphBitmap)>, ch: char) -> Option<GlyphBitmap> {
    if cache_first_idx(glyphs, ch) < glyphs.len() {
        Some(glyphs[cache_first_idx(glyphs, ch)].1)
    } else {
        None
    }
}

proof fn lemma_cache_first(glyphs: Seq<(char, GlyphBitmap)>, ch: char)
    ensures
        0 <= cache_first_idx(glyphs, ch) <= glyphs.len(),
        cache_first_idx(glyphs, ch) < glyphs.len() ==> glyphs[cache_first_idx(glyphs, ch)].0 == ch,
        forall|j: int| 0 <= j < cache_first_idx(glyphs, ch) ==> (#[trigger] glyphs[j]).0 != ch,
    decreases glyphs.len(),
{
    if glyphs.len() > 0 && glyphs[0].0 != ch {
        lemma_cache_first(glyphs.drop_first(), ch);
        assert(forall|j: int|
            1 <= j < cache_first_idx(glyphs, ch) ==> (#[trigger] glyphs[j]) == glyphs.drop_first()[j
                - 1]);
    }
}

proof fn lemma_cache_first_step(glyphs: Seq<(char, GlyphBitmap)>, ch: char, i: int)
    requires
        0 <= i < glyphs.len(),
        glyphs[i].0 == ch,
        forall|j: int| 0 <= j < i ==> (#[trigger] glyphs[j]).0 != ch,
    ensures
        cache_first_idx(glyphs, ch) == i,
    decreases glyphs.len(),
{
    if i > 0 {
        assert(forall|j: int|
            0 <= j < i - 1 ==> (#[trigger] glyphs.drop_first()[j]) == glyphs[j + 1]);
        lemma_cache_first_step(glyphs.drop_first(), ch, i - 1);
    }
}

proof fn lemma_cache_first_skip(glyphs: Seq<(char, GlyphBitmap)>, ch: char, i: int)
    requires
        0 <= i < glyphs.len(),
        glyphs[i].0 != ch,
        cache_first_idx(glyphs, ch) >= i,
    ensures
        cache_first_idx(glyphs, ch) >= i + 1,
    decreases i,
{
    lemma_cache_first(glyphs, ch);
    if cache_first_idx(glyphs, ch) == i {
        assert(false);
    }
}

/// Copy a byte vector.
fn copy_bytes(v: &Vec<u8>) -> (r: Vec<u8>)
    ensures
        r@ == v@,
{
    let mut r: Vec<u8> = Vec::new();
    let mut i: usize = 0;
    let n = v.len();
    while i < n
        invariant
            i <= n,
            n == v@.len(),
            r@ =~= v@.subrange(0, i as int),
        decreases n - i,
    {
        r.push(v[i]);
        i = i + 1;
    }
    proof {
        assert(r@ =~= v@);
    }
    r
}

} // verus!
