//! The frame renderer: downsample a raw RGB frame to a brightness grid,
//! map it through the brightness curve, composite glyphs (plain,
//! color-sampled or rain-driven) and, for the rain theme, apply a bloom
//! post-process.

use vstd::prelude::*;

use crate::config::{apply_effective, char_index, char_index_spec, effective_brightness, BrightnessCurve, Rgb};
use vstd::arithmetic::div_mod::lemma_fundamental_div_mod_converse;
use crate::fixed::{isqrt, scale_unit, sqrt_floor, UNIT};
use crate::glyph_cache::GlyphCache;
use crate::rain::{char_at, CellRender, MatrixRainState, GRID_MAX};

verus! {

/// Largest frame or output side, in pixels.
pub const DIM_MAX: u32 = 16384;

/// Downsampling factor of the bloom pass.
pub const BLOOM_DS_FACTOR: usize = 4;

/// Radius of each bloom blur pass.
pub const BLOOM_BLUR_RADIUS: usize = 12;

/// Number of separable blur passes of the bloom.
pub const BLOOM_BLUR_PASSES: usize = 3;

/// Brightness floor subtracted per channel before a pixel feeds the bloom.
pub const BLOOM_THRESHOLD: u8 = 12;

/// The standard luma of one RGB triple, in the units of its channels,
/// rounded to the nearest integer.
pub open spec fn luma_spec(r: int, g: int, b: int) -> int {
    (2126 * r + 7152 * g + 722 * b + 5000) / 10000
}

/// Convert an RGB frame to grayscale by the standard luma weighting.
pub fn rgb_to_grayscale(rgb: &Vec<u8>, width: u32, height: u32) -> (gray: Vec<u8>)
    requires
        width <= DIM_MAX,
        height <= DIM_MAX,
        rgb@.len() >= width * height * 3,
    ensures
        gray@.len() == width * height,
        forall|i: int|
            0 <= i < gray@.len() ==> gray@[i] == luma_spec(
                rgb@[3 * i] as int,
                rgb@[3 * i + 1] as int,
                rgb@[3 * i + 2] as int,
            ),
{
    proof {
        assert((width as int) * (height as int) * 3 <= 16384int * 16384int * 3)
            by (nonlinear_arith)
            requires
                width <= 16384,
                height <= 16384,
        ;
    }
    let pixel_count: usize = (width as usize) * (height as usize);
    let mut gray: Vec<u8> = Vec::new();
    let mut i: usize = 0;
    while i < pixel_count
        invariant
            i <= pixel_count,
            pixel_count == (width as int) * (height as int),
            pixel_count * 3 <= rgb@.len(),
            pixel_count <= 16384 * 16384,
            gray@.len() == i,
            forall|j: int|
                0 <= j < gray@.len() ==> gray@[j] == luma_spec(
                    rgb@[3 * j] as int,
                    rgb@[3 * j + 1] as int,
                    rgb@[3 * j + 2] as int,
                ),
        decreases pixel_count - i,
    {
        let r = rgb[i * 3] as u32;
        let g = rgb[i * 3 + 1] as u32;
        let b = rgb[i * 3 + 2] as u32;
        let lum: u32 = (2126 * r + 7152 * g + 722 * b + 5000) / 10000;
        gray.push(lum as u8);
        i = i + 1;
    }
    gray
}

/// Block bounds of one grid cell when a source side of `src` pixels is split
/// into `cells` cells.
pub open spec fn block_lo(idx: int, src: int, cells: int) -> int {
    idx * src / cells
}

/// Sum of a rectangular block of a grayscale image.
pub open spec fn block_sum(
    gray: Seq<u8>,
    src_w: int,
    x0: int,
    x1: int,
    y0: int,
    y1: int,
) -> int
    decreases y1 - y0,
{
    if y0 >= y1 {
        0
    } else {
        row_sum(gray, src_w, y1 - 1, x0, x1) + block_sum(gray, src_w, x0, x1, y0, y1 - 1)
    }
}

/// Sum of part of one row of a grayscale image.
pub open spec fn row_sum(gray: Seq<u8>, src_w: int, y: int, x0: int, x1: int) -> int
    decreases x1 - x0,
{
    if x0 >= x1 {
        0
    } else {
        gray[y * src_w + (x1 - 1)] as int + row_sum(gray, src_w, y, x0, x1 - 1)
    }
}

proof fn lemma_row_sum_bound(gray: Seq<u8>, src_w: int, y: int, x0: int, x1: int)
    requires
        x0 <= x1,
    ensures
        0 <= row_sum(gray, src_w, y, x0, x1) <= (x1 - x0) * 255,
    decreases x1 - x0,
{
    if x0 < x1 {
        lemma_row_sum_bound(gray, src_w, y, x0, x1 - 1);
        assert((x1 - 1 - x0) * 255 + 255 == (x1 - x0) * 255) by (nonlinear_arith);
    }
}

/// Block bounds are ordered and stay inside the source side.
proof fn lemma_block_bounds(idx: int, src: int, cells: int)
    requires
        0 <= idx,
        idx + 1 <= cells,
        1 <= cells,
        0 <= src,
    ensures
        0 <= block_lo(idx, src, cells),
        block_lo(idx, src, cells) <= block_lo(idx + 1, src, cells),
        block_lo(idx + 1, src, cells) <= src,
{
    assert(0 <= idx * src && idx * src <= (idx + 1) * src && (idx + 1) * src <= cells * src)
        by (nonlinear_arith)
        requires
            0 <= idx,
            idx + 1 <= cells,
            0 <= src,
    ;
    assert(idx * src / cells <= (idx + 1) * src / cells && 0 <= idx * src / cells)
        by (nonlinear_arith)
        requires
            0 <= idx * src <= (idx + 1) * src,
            1 <= cells,
    ;
    assert((idx + 1) * src / cells <= cells * src / cells && cells * src / cells == src)
        by (nonlinear_arith)
        requires
            (idx + 1) * src <= cells * src,
            1 <= cells,
            0 <= src,
    ;
}

proof fn lemma_block_sum_bound(gray: Seq<u8>, src_w: int, x0: int, x1: int, y0: int, y1: int)
    requires
        x0 <= x1,
        y0 <= y1,
    ensures
        0 <= block_sum(gray, src_w, x0, x1, y0, y1) <= (y1 - y0) * (x1 - x0) * 255,
    decreases y1 - y0,
{
    if y0 < y1 {
        lemma_block_sum_bound(gray, src_w, x0, x1, y0, y1 - 1);
        lemma_row_sum_bound(gray, src_w, y1 - 1, x0, x1);
        assert((y1 - 1 - y0) * (x1 - x0) * 255 + (x1 - x0) * 255 == (y1 - y0) * (x1 - x0) * 255)
            by (nonlinear_arith);
    }
}

/// The average brightness of one grid cell, in millionths of full scale.
pub open spec fn cell_average(
    gray: Seq<u8>,
    src_w: int,
    src_h: int,
    cols: int,
    rows: int,
    col: int,
    row: int,
) -> int {
    let x0 = block_lo(col, src_w, cols);
    let x1 = block_lo(col + 1, src_w, cols);
    let y0 = block_lo(row, src_h, rows);
    let y1 = block_lo(row + 1, src_h, rows);
    let count = (x1 - x0) * (y1 - y0);
    if count > 0 {
        block_sum(gray, src_w, x0, x1, y0, y1) * (UNIT as int) / (count * 255)
    } else {
        0
    }
}

} // verus!

verus! {

/// Block-average a grayscale image into a `cols`-by-`rows` brightness grid,
/// each value in millionths of full scale.
pub fn downsample_to_grid(
    gray: &Vec<u8>,
    src_w: u32,
    src_h: u32,
    cols: usize,
    rows: usize,
) -> (grid: Vec<u32>)
    requires
        src_w <= DIM_MAX,
        src_h <= DIM_MAX,
        gray@.len() == src_w * src_h,
        1 <= cols <= GRID_MAX,
        1 <= rows <= GRID_MAX,
    ensures
        grid@.len() == cols * rows,
        forall|i: int|
            0 <= i < grid@.len() ==> #[trigger] grid@[i] == cell_average(
                gray@,
                src_w as int,
                src_h as int,
                cols as int,
                rows as int,
                i % (cols as int),
                i / (cols as int),
            ) && grid@[i] <= UNIT,
{
    let mut grid: Vec<u32> = Vec::new();
    let mut row: usize = 0;
    while row < rows
        invariant
            row <= rows,
            src_w <= DIM_MAX,
            src_h <= DIM_MAX,
            gray@.len() == src_w * src_h,
            1 <= cols <= GRID_MAX,
            1 <= rows <= GRID_MAX,
            grid@.len() == row * cols,
            forall|i: int|
                0 <= i < grid@.len() ==> #[trigger] grid@[i] == cell_average(
                    gray@,
                    src_w as int,
                    src_h as int,
                    cols as int,
                    rows as int,
                    i % (cols as int),
                    i / (cols as int),
                ) && grid@[i] <= UNIT,
        decreases rows - row,
    {
        let mut col: usize = 0;
        while col < cols
            invariant
                row < rows,
                col <= cols,
                src_w <= DIM_MAX,
                src_h <= DIM_MAX,
                gray@.len() == src_w * src_h,
                1 <= cols <= GRID_MAX,
                1 <= rows <= GRID_MAX,
                grid@.len() == row * cols + col,
                forall|i: int|
                    0 <= i < grid@.len() ==> #[trigger] grid@[i] == cell_average(
                        gray@,
                        src_w as int,
                        src_h as int,
                        cols as int,
                        rows as int,
                        i % (cols as int),
                        i / (cols as int),
                    ) && grid@[i] <= UNIT,
            decreases cols - col,
        {
            let avg = cell_average_exec(gray, src_w, src_h, cols, rows, col, row);
            proof {
                lemma_fundamental_div_mod_converse(
                    (row as int) * (cols as int) + (col as int),
                    cols as int,
                    row as int,
                    col as int,
                );
            }
            grid.push(avg);
            col = col + 1;
        }
        row = row + 1;
        proof {
            assert((row - 1) * cols + cols == row * cols) by (nonlinear_arith)
                requires
                    row >= 1,
            ;
        }
    }
    proof {
        assert(rows * cols == cols * rows) by (nonlinear_arith);
    }
    grid
}

/// The average brightness of one grid cell.
fn cell_average_exec(
    gray: &Vec<u8>,
    src_w: u32,
    src_h: u32,
    cols: usize,
    rows: usize,
    col: usize,
    row: usize,
) -> (avg: u32)
    requires
        src_w <= DIM_MAX,
        src_h <= DIM_MAX,
        gray@.len() == src_w * src_h,
        1 <= cols <= GRID_MAX,
        1 <= rows <= GRID_MAX,
        col < cols,
        row < rows,
    ensures
        avg == cell_average(
            gray@,
            src_w as int,
            src_h as int,
            cols as int,
            rows as int,
            col as int,
            row as int,
        ),
        avg <= UNIT,
{
    proof {
        lemma_block_bounds(col as int, src_w as int, cols as int);
        lemma_block_bounds(row as int, src_h as int, rows as int);
        assert((col as int) * (src_w as int) <= 16384int * 16384int && ((col as int) + 1) * (
        src_w as int) <= 16384int * 16384int && (row as int) * (src_h as int) <= 16384int
            * 16384int && ((row as int) + 1) * (src_h as int) <= 16384int * 16384int)
            by (nonlinear_arith)
            requires
                0 <= col < cols <= 16384,
                0 <= row < rows <= 16384,
                src_w <= 16384,
                src_h <= 16384,
        ;
    }
    let x0: usize = col * (src_w as usize) / cols;
    let x1: usize = (col + 1) * (src_w as usize) / cols;
    let y0: usize = row * (src_h as usize) / rows;
    let y1: usize = (row + 1) * (src_h as usize) / rows;

    let mut sum: u64 = 0;
    let mut y: usize = y0;
    proof {
        lemma_block_sum_bound(gray@, src_w as int, x0 as int, x1 as int, y0 as int, y0 as int);
    }
    while y < y1
        invariant
            y0 <= y <= y1,
            x0 <= x1 <= src_w,
            y1 <= src_h,
            src_w <= DIM_MAX,
            src_h <= DIM_MAX,
            gray@.len() == src_w * src_h,
            sum == block_sum(gray@, src_w as int, x0 as int, x1 as int, y0 as int, y as int),
            sum <= (y - y0) * (x1 - x0) * 255,
        decreases y1 - y,
    {
        let mut rsum: u64 = 0;
        let mut x: usize = x0;
        while x < x1
            invariant
                x0 <= x <= x1 <= src_w,
                y < y1 <= src_h,
                src_w <= DIM_MAX,
                src_h <= DIM_MAX,
                gray@.len() == src_w * src_h,
                rsum == row_sum(gray@, src_w as int, y as int, x0 as int, x as int),
                rsum <= (x - x0) * 255,
            decreases x1 - x,
        {
            proof {
                assert((y as int) * (src_w as int) + (x as int) < (src_w as int) * (src_h as int)
                    && (y as int) * (src_w as int) >= 0 && (src_w as int) * (src_h as int)
                    <= 16384int * 16384int && (x - x0) * 255 + 255 == ((x + 1) - x0) * 255)
                    by (nonlinear_arith)
                    requires
                        0 <= x < src_w <= 16384,
                        0 <= y < src_h <= 16384,
                        x0 <= x,
                ;
            }
            let idx: usize = y * (src_w as usize) + x;
            rsum = rsum + (gray[idx] as u64);
            x = x + 1;
        }
        proof {
            assert(block_sum(
                gray@,
                src_w as int,
                x0 as int,
                x1 as int,
                y0 as int,
                y as int + 1,
            ) == row_sum(gray@, src_w as int, y as int, x0 as int, x1 as int) + block_sum(
                gray@,
                src_w as int,
                x0 as int,
                x1 as int,
                y0 as int,
                y as int,
            ));
            assert((y - y0) * (x1 - x0) * 255 + (x1 - x0) * 255 == ((y + 1) - y0) * (x1 - x0) * 255
                && ((y + 1) - y0) * (x1 - x0) * 255 <= 16384int * 16384int * 255)
                by (nonlinear_arith)
                requires
                    0 <= (y + 1) - y0 <= 16384,
                    0 <= x1 - x0 <= 16384,
            ;
            lemma_block_sum_bound(gray@, src_w as int, x0 as int, x1 as int, y0 as int, y as int);
        }
        sum = sum + rsum;
        y = y + 1;
    }
    proof {
        assert(((x1 - x0) as int) * ((y1 - y0) as int) <= 16384int * 16384int)
            by (nonlinear_arith)
            requires
                0 <= (x1 - x0) as int <= 16384,
                0 <= (y1 - y0) as int <= 16384,
        ;
    }
    let count: u64 = ((x1 - x0) as u64) * ((y1 - y0) as u64);
    if count > 0 {
        proof {
            let cnt = count as int;
            assert(sum <= cnt * 255) by (nonlinear_arith)
                requires
                    cnt == ((x1 - x0) as int) * ((y1 - y0) as int),
                    0 <= (x1 - x0) as int,
                    0 <= (y1 - y0) as int,
                    sum <= ((y1 - y0) as int) * ((x1 - x0) as int) * 255,
            ;
            assert(sum * 1000000 <= cnt * 255 * 1000000 && cnt * 255 * 1000000
                < 0x7fffffffffffffff && (sum * 1000000) / (cnt * 255) <= 1000000)
                by (nonlinear_arith)
                requires
                    0 <= sum <= cnt * 255,
                    0 < cnt <= 16384int * 16384int,
            ;
        }
        let avg: u64 = sum * (UNIT as u64) / (count * 255);
        avg as u32
    } else {
        0
    }
}

} // verus!

verus! {

/// One color channel of an RGB image, as its own plane.
pub open spec fn channel_seq(rgb: Seq<u8>, n: int, c: int) -> Seq<u8> {
    Seq::new(n as nat, |i: int| rgb[3 * i + c])
}

/// The average of one channel over one grid cell, in its own units.
pub open spec fn channel_average(
    plane: Seq<u8>,
    src_w: int,
    src_h: int,
    cols: int,
    rows: int,
    col: int,
    row: int,
) -> int {
    let x0 = block_lo(col, src_w, cols);
    let x1 = block_lo(col + 1, src_w, cols);
    let y0 = block_lo(row, src_h, rows);
    let y1 = block_lo(row + 1, src_h, rows);
    let count = (x1 - x0) * (y1 - y0);
    if count > 0 {
        block_sum(plane, src_w, x0, x1, y0, y1) / count
    } else {
        0
    }
}

/// Extract one channel of an RGB frame.
fn extract_channel(rgb: &Vec<u8>, width: u32, height: u32, c: usize) -> (plane: Vec<u8>)
    requires
        width <= DIM_MAX,
        height <= DIM_MAX,
        c < 3,
        rgb@.len() >= width * height * 3,
    ensures
        plane@ == channel_seq(rgb@, (width as int) * (height as int), c as int),
        plane@.len() == width * height,
{
    proof {
        assert((width as int) * (height as int) * 3 <= 16384int * 16384int * 3)
            by (nonlinear_arith)
            requires
                width <= 16384,
                height <= 16384,
        ;
    }
    let pixel_count: usize = (width as usize) * (height as usize);
    let mut plane: Vec<u8> = Vec::new();
    let mut i: usize = 0;
    while i < pixel_count
        invariant
            i <= pixel_count,
            c < 3,
            pixel_count == (width as int) * (height as int),
            pixel_count * 3 <= rgb@.len(),
            pixel_count <= 16384 * 16384,
            plane@.len() == i,
            forall|j: int| 0 <= j < plane@.len() ==> plane@[j] == rgb@[3 * j + c],
        decreases pixel_count - i,
    {
        plane.push(rgb[i * 3 + c]);
        i = i + 1;
    }
    proof {
        assert(plane@ =~= channel_seq(rgb@, (width as int) * (height as int), c as int));
    }
    plane
}

/// The average of one channel over one grid cell.
fn channel_cell_avg(
    plane: &Vec<u8>,
    src_w: u32,
    src_h: u32,
    cols: usize,
    rows: usize,
    col: usize,
    row: usize,
) -> (avg: u8)
    requires
        src_w <= DIM_MAX,
        src_h <= DIM_MAX,
        plane@.len() == src_w * src_h,
        1 <= cols <= GRID_MAX,
        1 <= rows <= GRID_MAX,
        col < cols,
        row < rows,
    ensures
        avg == channel_average(
            plane@,
            src_w as int,
            src_h as int,
            cols as int,
            rows as int,
            col as int,
            row as int,
        ),
{
    proof {
        lemma_block_bounds(col as int, src_w as int, cols as int);
        lemma_block_bounds(row as int, src_h as int, rows as int);
        assert((col as int) * (src_w as int) <= 16384int * 16384int && ((col as int) + 1) * (
        src_w as int) <= 16384int * 16384int && (row as int) * (src_h as int) <= 16384int
            * 16384int && ((row as int) + 1) * (src_h as int) <= 16384int * 16384int)
            by (nonlinear_arith)
            requires
                0 <= col < cols <= 16384,
                0 <= row < rows <= 16384,
                src_w <= 16384,
                src_h <= 16384,
        ;
    }
    let x0: usize = col * (src_w as usize) / cols;
    let x1: usize = (col + 1) * (src_w as usize) / cols;
    let y0: usize = row * (src_h as usize) / rows;
    let y1: usize = (row + 1) * (src_h as usize) / rows;

    let mut sum: u64 = 0;
    let mut y: usize = y0;
    while y < y1
        invariant
            y0 <= y <= y1,
            x0 <= x1 <= src_w,
            y1 <= src_h,
            src_w <= DIM_MAX,
            src_h <= DIM_MAX,
            plane@.len() == src_w * src_h,
            sum == block_sum(plane@, src_w as int, x0 as int, x1 as int, y0 as int, y as int),
            sum <= (y - y0) * (x1 - x0) * 255,
        decreases y1 - y,
    {
        let mut rsum: u64 = 0;
        let mut x: usize = x0;
        while x < x1
            invariant
                x0 <= x <= x1 <= src_w,
                y < y1 <= src_h,
                src_w <= DIM_MAX,
                src_h <= DIM_MAX,
                plane@.len() == src_w * src_h,
                rsum == row_sum(plane@, src_w as int, y as int, x0 as int, x as int),
                rsum <= (x - x0) * 255,
            decreases x1 - x,
        {
            proof {
                assert((y as int) * (src_w as int) + (x as int) < (src_w as int) * (src_h as int)
                    && (y as int) * (src_w as int) >= 0 && (src_w as int) * (src_h as int)
                    <= 16384int * 16384int && (x - x0) * 255 + 255 == ((x + 1) - x0) * 255)
                    by (nonlinear_arith)
                    requires
                        0 <= x < src_w <= 16384,
                        0 <= y < src_h <= 16384,
                        x0 <= x,
                ;
            }
            let idx: usize = y * (src_w as usize) + x;
            rsum = rsum + (plane[idx] as u64);
            x = x + 1;
        }
        proof {
            assert((y - y0) * (x1 - x0) * 255 + (x1 - x0) * 255 == ((y + 1) - y0) * (x1 - x0) * 255
                && ((y + 1) - y0) * (x1 - x0) * 255 <= 16384int * 16384int * 255)
                by (nonlinear_arith)
                requires
                    0 <= (y + 1) - y0 <= 16384,
                    0 <= x1 - x0 <= 16384,
            ;
        }
        sum = sum + rsum;
        y = y + 1;
    }
    proof {
        assert(((x1 - x0) as int) * ((y1 - y0) as int) <= 16384int * 16384int)
            by (nonlinear_arith)
            requires
                0 <= (x1 - x0) as int <= 16384,
                0 <= (y1 - y0) as int <= 16384,
        ;
    }
    let count: u64 = ((x1 - x0) as u64) * ((y1 - y0) as u64);
    if count > 0 {
        proof {
            let cnt = count as int;
            assert(sum <= cnt * 255) by (nonlinear_arith)
                requires
                    cnt == ((x1 - x0) as int) * ((y1 - y0) as int),
                    0 <= (x1 - x0) as int,
                    0 <= (y1 - y0) as int,
                    sum <= ((y1 - y0) as int) * ((x1 - x0) as int) * 255,
            ;
            assert((sum as int) / cnt <= 255) by (nonlinear_arith)
                requires
                    0 <= sum as int <= cnt * 255,
                    0 < cnt,
            ;
        }
        (sum / count) as u8
    } else {
        0
    }
}

/// Block-average an RGB frame into per-cell average colors.
pub fn downsample_to_color_grid(
    rgb: &Vec<u8>,
    src_w: u32,
    src_h: u32,
    cols: usize,
    rows: usize,
) -> (grid: Vec<Rgb>)
    requires
        src_w <= DIM_MAX,
        src_h <= DIM_MAX,
        rgb@.len() >= src_w * src_h * 3,
        1 <= cols <= GRID_MAX,
        1 <= rows <= GRID_MAX,
    ensures
        grid@.len() == cols * rows,
        forall|i: int|
            0 <= i < grid@.len() ==> {
                let n = (src_w as int) * (src_h as int);
                let c = i % (cols as int);
                let r = i / (cols as int);
                (#[trigger] grid@[i]).r == channel_average(
                    channel_seq(rgb@, n, 0),
                    src_w as int,
                    src_h as int,
                    cols as int,
                    rows as int,
                    c,
                    r,
                ) && grid@[i].g == channel_average(
                    channel_seq(rgb@, n, 1),
                    src_w as int,
                    src_h as int,
                    cols as int,
                    rows as int,
                    c,
                    r,
                ) && grid@[i].b == channel_average(
                    channel_seq(rgb@, n, 2),
                    src_w as int,
                    src_h as int,
                    cols as int,
                    rows as int,
                    c,
                    r,
                )
            },
{
    let rp = extract_channel(rgb, src_w, src_h, 0);
    let gp = extract_channel(rgb, src_w, src_h, 1);
    let bp = extract_channel(rgb, src_w, src_h, 2);
    let mut grid: Vec<Rgb> = Vec::new();
    let mut row: usize = 0;
    while row < rows
        invariant
            row <= rows,
            src_w <= DIM_MAX,
            src_h <= DIM_MAX,
            1 <= cols <= GRID_MAX,
            1 <= rows <= GRID_MAX,
            rp@ == channel_seq(rgb@, (src_w as int) * (src_h as int), 0),
            gp@ == channel_seq(rgb@, (src_w as int) * (src_h as int), 1),
            bp@ == channel_seq(rgb@, (src_w as int) * (src_h as int), 2),
            rp@.len() == src_w * src_h,
            gp@.len() == src_w * src_h,
            bp@.len() == src_w * src_h,
            grid@.len() == row * cols,
            forall|i: int|
                0 <= i < grid@.len() ==> {
                    let n = (src_w as int) * (src_h as int);
                    let c = i % (cols as int);
                    let r = i / (cols as int);
                    (#[trigger] grid@[i]).r == channel_average(
                        channel_seq(rgb@, n, 0),
                        src_w as int,
                        src_h as int,
                        cols as int,
                        rows as int,
                        c,
                        r,
                    ) && grid@[i].g == channel_average(
                        channel_seq(rgb@, n, 1),
                        src_w as int,
                        src_h as int,
                        cols as int,
                        rows as int,
                        c,
                        r,
                    ) && grid@[i].b == channel_average(
                        channel_seq(rgb@, n, 2),
                        src_w as int,
                        src_h as int,
                        cols as int,
                        rows as int,
                        c,
                        r,
                    )
                },
        decreases rows - row,
    {
        let mut col: usize = 0;
        while col < cols
            invariant
                row < rows,
                col <= cols,
                src_w <= DIM_MAX,
                src_h <= DIM_MAX,
                1 <= cols <= GRID_MAX,
                1 <= rows <= GRID_MAX,
                rp@ == channel_seq(rgb@, (src_w as int) * (src_h as int), 0),
                gp@ == channel_seq(rgb@, (src_w as int) * (src_h as int), 1),
                bp@ == channel_seq(rgb@, (src_w as int) * (src_h as int), 2),
                rp@.len() == src_w * src_h,
                gp@.len() == src_w * src_h,
                bp@.len() == src_w * src_h,
                grid@.len() == row * cols + col,
                forall|i: int|
                    0 <= i < grid@.len() ==> {
                        let n = (src_w as int) * (src_h as int);
                        let c = i % (cols as int);
                        let r = i / (cols as int);
                        (#[trigger] grid@[i]).r == channel_average(
                            channel_seq(rgb@, n, 0),
                            src_w as int,
                            src_h as int,
                            cols as int,
                            rows as int,
                            c,
                            r,
                        ) && grid@[i].g == channel_average(
                            channel_seq(rgb@, n, 1),
                            src_w as int,
                            src_h as int,
                            cols as int,
                            rows as int,
                            c,
                            r,
                        ) && grid@[i].b == channel_average(
                            channel_seq(rgb@, n, 2),
                            src_w as int,
                            src_h as int,
                            cols as int,
                            rows as int,
                            c,
                            r,
                        )
                    },
            decreases cols - col,
        {
            let cr = channel_cell_avg(&rp, src_w, src_h, cols, rows, col, row);
            let cg = channel_cell_avg(&gp, src_w, src_h, cols, rows, col, row);
            let cb = channel_cell_avg(&bp, src_w, src_h, cols, rows, col, row);
            proof {
                lemma_fundamental_div_mod_converse(
                    (row as int) * (cols as int) + (col as int),
                    cols as int,
                    row as int,
                    col as int,
                );
            }
            grid.push(Rgb { r: cr, g: cg, b: cb });
            col = col + 1;
        }
        row = row + 1;
        proof {
            assert((row - 1) * cols + cols == row * cols) by (nonlinear_arith)
                requires
                    row >= 1,
            ;
        }
    }
    proof {
        assert(rows * cols == cols * rows) by (nonlinear_arith);
    }
    grid
}

/// Map a brightness grid to characters: the nearest character of the set by
/// curved brightness, never an earlier one for a brighter input.
pub fn map_to_characters(
    grid: &Vec<u32>,
    charset: &Vec<char>,
    curve: BrightnessCurve,
    invert: bool,
) -> (chars: Vec<char>)
    requires
        forall|i: int| 0 <= i < grid@.len() ==> #[trigger] grid@[i] <= UNIT,
        charset@.len() <= 100000,
    ensures
        chars@.len() == grid@.len(),
        charset@.len() == 0 ==> forall|i: int| 0 <= i < chars@.len() ==> chars@[i] == ' ',
        charset@.len() > 0 ==> forall|i: int|
            0 <= i < chars@.len() ==> chars@[i] == charset@[char_index_spec(
                charset@.len() as int,
                effective_brightness(curve, invert, grid@[i] as int),
            )],
{
    let n = charset.len();
    let mut chars: Vec<char> = Vec::new();
    let mut i: usize = 0;
    while i < grid.len()
        invariant
            i <= grid@.len(),
            n == charset@.len(),
            n <= 100000,
            forall|j: int| 0 <= j < grid@.len() ==> #[trigger] grid@[j] <= UNIT,
            chars@.len() == i,
            n == 0 ==> forall|j: int| 0 <= j < chars@.len() ==> chars@[j] == ' ',
            n > 0 ==> forall|j: int|
                0 <= j < chars@.len() ==> chars@[j] == charset@[char_index_spec(
                    n as int,
                    effective_brightness(curve, invert, grid@[j] as int),
                )],
        decreases grid@.len() - i,
    {
        if n == 0 {
            chars.push(' ');
        } else {
            let t = apply_effective(curve, invert, grid[i]);
            let idx = char_index(n, t);
            chars.push(char_at(charset, idx));
        }
        i = i + 1;
    }
    chars
}

} // verus!

verus! {

/// One channel of a color: red, green or blue by index.
pub open spec fn channel_of(c: Rgb, k: int) -> u8 {
    if k == 0 {
        c.r
    } else if k == 1 {
        c.g
    } else {
        c.b
    }
}

/// The alpha blend of one source channel over one destination byte.
pub open spec fn blend_byte(src: int, dst: int, alpha: int) -> int {
    (src * alpha + dst * (255 - alpha)) / 255
}

/// The row of the pixel a byte index belongs to.
pub open spec fn pix_y(i: int, out_w: int) -> int {
    (i / 3) / out_w
}

/// The column of the pixel a byte index belongs to.
pub open spec fn pix_x(i: int, out_w: int) -> int {
    (i / 3) % out_w
}

/// A byte index of an RGB buffer decomposes uniquely into its pixel
/// coordinates and channel.
pub proof fn lemma_pix_bounds(i: int, w: int, h: int)
    requires
        0 <= i < w * h * 3,
        1 <= w,
        1 <= h,
    ensures
        0 <= pix_x(i, w) < w,
        0 <= pix_y(i, w) < h,
        0 <= i % 3 < 3,
        i == (pix_y(i, w) * w + pix_x(i, w)) * 3 + i % 3,
{
    let p = i / 3;
    let k = i % 3;
    vstd::arithmetic::div_mod::lemma_fundamental_div_mod(i, 3);
    assert(0 <= p < w * h) by (nonlinear_arith)
        requires
            0 <= i < w * h * 3,
            p == i / 3,
    ;
    let y = p / w;
    let x = p % w;
    vstd::arithmetic::div_mod::lemma_fundamental_div_mod(p, w);
    assert(0 <= x < w && 0 <= y < h && p == y * w + x) by (nonlinear_arith)
        requires
            0 <= p < w * h,
            1 <= w,
            y == p / w,
            x == p % w,
    ;
}

/// The byte at index `i` of an output buffer after one glyph is blitted with
/// a solid color: bytes under a nonzero coverage sample are alpha-blended
/// toward the color, everything else is untouched.
pub open spec fn blit_solid_at(
    prev: Seq<u8>,
    out_w: int,
    cov: Seq<u8>,
    gw: int,
    gh: int,
    gx: int,
    gy: int,
    color: Rgb,
    i: int,
) -> u8 {
    let k = i % 3;
    let x = pix_x(i, out_w);
    let y = pix_y(i, out_w);
    let cc = x - gx;
    let rr = y - gy;
    if 0 <= cc < gw && 0 <= rr < gh && cov[rr * gw + cc] != 0 {
        blend_byte(channel_of(color, k) as int, prev[i] as int, cov[rr * gw + cc] as int) as u8
    } else {
        prev[i]
    }
}

/// One channel of an intensity-scaled color triple.
pub open spec fn eff_of(r: u16, g: u16, b: u16, k: int) -> u16 {
    if k == 0 {
        r
    } else if k == 1 {
        g
    } else {
        b
    }
}

/// The byte at index `i` after one intensity-scaled blit: every byte under a
/// nonzero coverage sample is alpha-blended toward the scaled color.
pub open spec fn blit_scaled_at(
    prev: Seq<u8>,
    out_w: int,
    cov: Seq<u8>,
    gw: int,
    gh: int,
    gx: int,
    gy: int,
    er: u16,
    eg: u16,
    eb: u16,
    i: int,
) -> u8 {
    let k = i % 3;
    let x = pix_x(i, out_w);
    let y = pix_y(i, out_w);
    let cc = x - gx;
    let rr = y - gy;
    if 0 <= cc < gw && 0 <= rr < gh && cov[rr * gw + cc] != 0 {
        blend_byte(eff_of(er, eg, eb, k) as int, prev[i] as int, cov[rr * gw + cc] as int) as u8
    } else {
        prev[i]
    }
}

/// The glow-blended alpha of one glow pixel: the base coverage pulled toward
/// the dilated coverage by the blend factor.
pub open spec fn glow_alpha_at(
    glow_cov: Seq<u8>,
    glow_w: int,
    base_cov: Seq<u8>,
    base_w: int,
    base_h: int,
    expand: int,
    blend2: int,
    cc: int,
    rr: int,
) -> int {
    let ga = glow_cov[rr * glow_w + cc] as int;
    let ba = crate::glyph_cache::cov_at(base_cov, base_w, base_h, cc - expand, rr - expand) as int;
    if ga >= ba {
        ba + (ga - ba) * blend2 / (UNIT as int)
    } else {
        ba - (ba - ga) * blend2 / (UNIT as int)
    }
}

/// The byte at index `i` after one glow blit: the alpha interpolates between
/// the base and the dilated coverage, and every byte under a nonzero alpha is
/// blended toward the scaled color.
pub open spec fn blit_glow_at(
    prev: Seq<u8>,
    out_w: int,
    glow_cov: Seq<u8>,
    gw: int,
    gh: int,
    gx: int,
    gy: int,
    base_cov: Seq<u8>,
    base_w: int,
    base_h: int,
    expand: int,
    blend2: int,
    er: u16,
    eg: u16,
    eb: u16,
    i: int,
) -> u8 {
    let k = i % 3;
    let x = pix_x(i, out_w);
    let y = pix_y(i, out_w);
    let cc = x - gx;
    let rr = y - gy;
    if 0 <= cc < gw && 0 <= rr < gh && glow_alpha_at(
        glow_cov,
        gw,
        base_cov,
        base_w,
        base_h,
        expand,
        blend2,
        cc,
        rr,
    ) != 0 {
        blend_byte(
            eff_of(er, eg, eb, k) as int,
            prev[i] as int,
            glow_alpha_at(glow_cov, gw, base_cov, base_w, base_h, expand, blend2, cc, rr),
        ) as u8
    } else {
        prev[i]
    }
}

/// Alpha-blend one channel of a source color over a destination channel.
fn blend_px(src: u16, dst: u8, alpha: u16) -> (r: u8)
    requires
        src <= 255,
        alpha <= 255,
    ensures
        r == (src * alpha + dst * (255 - alpha)) / 255,
{
    proof {
        assert((src as int) * (alpha as int) + (dst as int) * (255 - alpha as int) <= 255 * 255
            && ((src as int) * (alpha as int) + (dst as int) * (255 - alpha as int)) / 255 <= 255)
            by (nonlinear_arith)
            requires
                0 <= src <= 255,
                0 <= dst <= 255,
                0 <= alpha <= 255,
        ;
    }
    ((src * alpha + (dst as u16) * (255 - alpha)) / 255) as u8
}

/// Blit one coverage bitmap over the output with a solid foreground color,
/// alpha-blending against what is already there and clipping at the edges.
#[verifier::spinoff_prover]
#[verifier::rlimit(100)]
fn blit_solid(
    output: &mut Vec<u8>,
    out_w: u32,
    out_h: u32,
    coverage: &Vec<u8>,
    gw: usize,
    gh: usize,
    gx: i64,
    gy: i64,
    color: Rgb,
)
    requires
        old(output)@.len() == out_w * out_h * 3,
        1 <= out_w <= DIM_MAX,
        1 <= out_h <= DIM_MAX,
        coverage@.len() == gw * gh,
        gw <= 2 * 16384,
        gh <= 2 * 16384,
        -10000000000 <= gx <= 10000000000,
        -10000000000 <= gy <= 10000000000,
    ensures
        final(output)@.len() == old(output)@.len(),
        forall|i: int|
            0 <= i < final(output)@.len() ==> final(output)@[i] == blit_solid_at(
                old(output)@,
                out_w as int,
                coverage@,
                gw as int,
                gh as int,
                gx as int,
                gy as int,
                color,
                i,
            ),
{
    let mut row: usize = 0;
    while row < gh
        invariant
            row <= gh,
            output@.len() == out_w * out_h * 3,
            output@.len() == old(output)@.len(),
            1 <= out_w <= DIM_MAX,
            1 <= out_h <= DIM_MAX,
            coverage@.len() == gw * gh,
            gw <= 2 * 16384,
            gh <= 2 * 16384,
            -10000000000 <= gx <= 10000000000,
            -10000000000 <= gy <= 10000000000,
            forall|i: int|
                0 <= i < output@.len() ==> #[trigger] output@[i] == (if gy <= pix_y(
                    i,
                    out_w as int,
                ) < gy + row {
                    blit_solid_at(
                        old(output)@,
                        out_w as int,
                        coverage@,
                        gw as int,
                        gh as int,
                        gx as int,
                        gy as int,
                        color,
                        i,
                    )
                } else {
                    old(output)@[i]
                }),
        decreases gh - row,
    {
        let out_y: i64 = gy + (row as i64);
        if out_y >= 0 && out_y < (out_h as i64) {
            let mut cx: usize = 0;
            while cx < gw
                invariant
                    cx <= gw,
                    row < gh,
                    out_y == gy + row,
                    output@.len() == out_w * out_h * 3,
                    output@.len() == old(output)@.len(),
                    1 <= out_w <= DIM_MAX,
                    1 <= out_h <= DIM_MAX,
                    coverage@.len() == gw * gh,
                    gw <= 2 * 16384,
                    gh <= 2 * 16384,
                    -10000000000 <= gx <= 10000000000,
                    0 <= out_y < out_h,
                    forall|i: int|
                        0 <= i < output@.len() ==> #[trigger] output@[i] == (if gy <= pix_y(
                            i,
                            out_w as int,
                        ) < gy + row || (pix_y(i, out_w as int) == gy + row && pix_x(
                            i,
                            out_w as int,
                        ) < gx + cx) {
                            blit_solid_at(
                                old(output)@,
                                out_w as int,
                                coverage@,
                                gw as int,
                                gh as int,
                                gx as int,
                                gy as int,
                                color,
                                i,
                            )
                        } else {
                            old(output)@[i]
                        }),
                decreases gw - cx,
            {
                let out_x: i64 = gx + (cx as i64);
                if out_x >= 0 && out_x < (out_w as i64) {
                    proof {
                        assert((row as int) * (gw as int) + (cx as int) < gw * gh && (row as int) * (
                        gw as int) >= 0 && gw * gh <= 4int * 16384int * 16384int)
                            by (nonlinear_arith)
                            requires
                                0 <= cx < gw <= 2 * 16384,
                                0 <= row < gh <= 2 * 16384,
                        ;
                        assert(((out_y as int) * (out_w as int) + (out_x as int)) * 3 + 2 < (
                        out_w as int) * (out_h as int) * 3 && (out_y as int) * (out_w as int) >= 0
                            && (out_w as int) * (out_h as int) * 3 <= 16384int * 16384int * 3)
                            by (nonlinear_arith)
                            requires
                                0 <= out_x < out_w <= 16384,
                                0 <= out_y < out_h <= 16384,
                        ;
                    }
                    let cov_idx: usize = row * gw + cx;
                    let alpha = coverage[cov_idx];
                    let idx: usize = ((out_y as usize) * (out_w as usize) + (out_x as usize)) * 3;
                    proof {
                        let p = (out_y as int) * (out_w as int) + (out_x as int);
                        lemma_fundamental_div_mod_converse(p, out_w as int, out_y as int, out_x as int);
                        lemma_fundamental_div_mod_converse(3 * p, 3, p, 0);
                        lemma_fundamental_div_mod_converse(3 * p + 1, 3, p, 1);
                        lemma_fundamental_div_mod_converse(3 * p + 2, 3, p, 2);
                        assert(pix_y(idx as int, out_w as int) == out_y && pix_x(
                            idx as int,
                            out_w as int,
                        ) == out_x);
                        assert(pix_y(idx as int + 1, out_w as int) == out_y && pix_x(
                            idx as int + 1,
                            out_w as int,
                        ) == out_x);
                        assert(pix_y(idx as int + 2, out_w as int) == out_y && pix_x(
                            idx as int + 2,
                            out_w as int,
                        ) == out_x);
                    }
                    if alpha != 0 {
                        if alpha == 255 {
                            proof {
                                assert((color.r * 255 + 0) / 255 == color.r as int
                                    && (color.g * 255 + 0) / 255 == color.g as int
                                    && (color.b * 255 + 0) / 255 == color.b as int)
                                    by (nonlinear_arith);
                            }
                            output[idx] = color.r;
                            output[idx + 1] = color.g;
                            output[idx + 2] = color.b;
                        } else {
                            let a = alpha as u16;
                            output[idx] = blend_px(color.r as u16, output[idx], a);
                            output[idx + 1] = blend_px(color.g as u16, output[idx + 1], a);
                            output[idx + 2] = blend_px(color.b as u16, output[idx + 2], a);
                        }
                    }
                    proof {
                        assert forall|i: int|
                            0 <= i < output@.len() implies #[trigger] output@[i] == (if gy <= pix_y(
                            i,
                            out_w as int,
                        ) < gy + row || (pix_y(i, out_w as int) == gy + row && pix_x(
                            i,
                            out_w as int,
                        ) < gx + cx + 1) {
                            blit_solid_at(
                                old(output)@,
                                out_w as int,
                                coverage@,
                                gw as int,
                                gh as int,
                                gx as int,
                                gy as int,
                                color,
                                i,
                            )
                        } else {
                            old(output)@[i]
                        }) by {
                            lemma_pix_bounds(i, out_w as int, out_h as int);
                            if pix_y(i, out_w as int) == gy + row && pix_x(i, out_w as int) == gx
                                + cx {
                                assert(i == ((out_y as int) * (out_w as int) + (out_x as int)) * 3
                                    + i % 3);
                                assert(i == idx + i % 3);
                                assert(pix_y(i, out_w as int) - gy == row && pix_x(i, out_w as int)
                                    - gx == cx);
                                assert(coverage@[(row as int) * (gw as int) + (cx as int)]
                                    == alpha);
                                if alpha == 0 {
                                    assert(output@[i] == old(output)@[i]);
                                } else {
                                    if i == idx {
                                        assert(i % 3 == 0);
                                        assert(channel_of(color, 0) == color.r);
                                    } else if i == idx + 1 {
                                        assert(i % 3 == 1);
                                        assert(channel_of(color, 1) == color.g);
                                    } else {
                                        assert(i == idx + 2 && i % 3 == 2);
                                        assert(channel_of(color, 2) == color.b);
                                    }
                                }
                            } else {
                                assert(i != idx && i != idx + 1 && i != idx + 2);
                                assert(output@[i] == old(output)@[i] || (gy <= pix_y(
                                    i,
                                    out_w as int,
                                ) < gy + row || (pix_y(i, out_w as int) == gy + row && pix_x(
                                    i,
                                    out_w as int,
                                ) < gx + cx)));
                            }
                        };
                    }
                } else {
                    proof {
                        assert forall|i: int|
                            0 <= i < output@.len() implies #[trigger] output@[i] == (if gy <= pix_y(
                            i,
                            out_w as int,
                        ) < gy + row || (pix_y(i, out_w as int) == gy + row && pix_x(
                            i,
                            out_w as int,
                        ) < gx + cx + 1) {
                            blit_solid_at(
                                old(output)@,
                                out_w as int,
                                coverage@,
                                gw as int,
                                gh as int,
                                gx as int,
                                gy as int,
                                color,
                                i,
                            )
                        } else {
                            old(output)@[i]
                        }) by {
                            lemma_pix_bounds(i, out_w as int, out_h as int);
                        };
                    }
                }
                cx = cx + 1;
            }
        }
        proof {
            assert forall|i: int| 0 <= i < output@.len() implies #[trigger] output@[i] == (if gy
                <= pix_y(i, out_w as int) < gy + row + 1 {
                blit_solid_at(
                    old(output)@,
                    out_w as int,
                    coverage@,
                    gw as int,
                    gh as int,
                    gx as int,
                    gy as int,
                    color,
                    i,
                )
            } else {
                old(output)@[i]
            }) by {
                lemma_pix_bounds(i, out_w as int, out_h as int);
            };
        }
        row = row + 1;
    }
    proof {
        assert forall|i: int| 0 <= i < output@.len() implies output@[i] == blit_solid_at(
            old(output)@,
            out_w as int,
            coverage@,
            gw as int,
            gh as int,
            gx as int,
            gy as int,
            color,
            i,
        ) by {
            lemma_pix_bounds(i, out_w as int, out_h as int);
            if !(gy <= pix_y(i, out_w as int) < gy + gh) {
                assert(output@[i] == old(output)@[i]);
            }
        };
    }
}

/// Blit one coverage bitmap with an intensity-scaled color, always blending.
#[verifier::spinoff_prover]
#[verifier::rlimit(100)]
fn blit_scaled(
    output: &mut Vec<u8>,
    out_w: u32,
    out_h: u32,
    coverage: &Vec<u8>,
    gw: usize,
    gh: usize,
    gx: i64,
    gy: i64,
    eff_r: u16,
    eff_g: u16,
    eff_b: u16,
)
    requires
        old(output)@.len() == out_w * out_h * 3,
        1 <= out_w <= DIM_MAX,
        1 <= out_h <= DIM_MAX,
        coverage@.len() == gw * gh,
        gw <= 2 * 16384,
        gh <= 2 * 16384,
        -10000000000 <= gx <= 10000000000,
        -10000000000 <= gy <= 10000000000,
        eff_r <= 255,
        eff_g <= 255,
        eff_b <= 255,
    ensures
        final(output)@.len() == old(output)@.len(),
        forall|i: int|
            0 <= i < final(output)@.len() ==> final(output)@[i] == blit_scaled_at(
                old(output)@,
                out_w as int,
                coverage@,
                gw as int,
                gh as int,
                gx as int,
                gy as int,
                eff_r,
                eff_g,
                eff_b,
                i,
            ),
{
    let mut row: usize = 0;
    while row < gh
        invariant
            row <= gh,
            output@.len() == out_w * out_h * 3,
            output@.len() == old(output)@.len(),
            1 <= out_w <= DIM_MAX,
            1 <= out_h <= DIM_MAX,
            coverage@.len() == gw * gh,
            gw <= 2 * 16384,
            gh <= 2 * 16384,
            -10000000000 <= gx <= 10000000000,
            -10000000000 <= gy <= 10000000000,
            eff_r <= 255,
            eff_g <= 255,
            eff_b <= 255,
            forall|i: int|
                0 <= i < output@.len() ==> #[trigger] output@[i] == (if gy <= pix_y(
                    i,
                    out_w as int,
                ) < gy + row {
                    blit_scaled_at(
                        old(output)@,
                        out_w as int,
                        coverage@,
                        gw as int,
                        gh as int,
                        gx as int,
                        gy as int,
                        eff_r,
                        eff_g,
                        eff_b,
                        i,
                    )
                } else {
                    old(output)@[i]
                }),
        decreases gh - row,
    {
        let out_y: i64 = gy + (row as i64);
        if out_y >= 0 && out_y < (out_h as i64) {
            let mut cx: usize = 0;
            while cx < gw
                invariant
                    cx <= gw,
                    row < gh,
                    out_y == gy + row,
                    output@.len() == out_w * out_h * 3,
                    output@.len() == old(output)@.len(),
                    1 <= out_w <= DIM_MAX,
                    1 <= out_h <= DIM_MAX,
                    coverage@.len() == gw * gh,
                    gw <= 2 * 16384,
                    gh <= 2 * 16384,
                    -10000000000 <= gx <= 10000000000,
                    0 <= out_y < out_h,
                    eff_r <= 255,
                    eff_g <= 255,
                    eff_b <= 255,
                    forall|i: int|
                        0 <= i < output@.len() ==> #[trigger] output@[i] == (if gy <= pix_y(
                            i,
                            out_w as int,
                        ) < gy + row || (pix_y(i, out_w as int) == gy + row && pix_x(
                            i,
                            out_w as int,
                        ) < gx + cx) {
                            blit_scaled_at(
                                old(output)@,
                                out_w as int,
                                coverage@,
                                gw as int,
                                gh as int,
                                gx as int,
                                gy as int,
                                eff_r,
                                eff_g,
                                eff_b,
                                i,
                            )
                        } else {
                            old(output)@[i]
                        }),
                decreases gw - cx,
            {
                let out_x: i64 = gx + (cx as i64);
                if out_x >= 0 && out_x < (out_w as i64) {
                    proof {
                        assert((row as int) * (gw as int) + (cx as int) < gw * gh && (row as int) * (
                        gw as int) >= 0 && gw * gh <= 4int * 16384int * 16384int)
                            by (nonlinear_arith)
                            requires
                                0 <= cx < gw <= 2 * 16384,
                                0 <= row < gh <= 2 * 16384,
                        ;
                        assert(((out_y as int) * (out_w as int) + (out_x as int)) * 3 + 2 < (
                        out_w as int) * (out_h as int) * 3 && (out_y as int) * (out_w as int) >= 0
                            && (out_w as int) * (out_h as int) * 3 <= 16384int * 16384int * 3)
                            by (nonlinear_arith)
                            requires
                                0 <= out_x < out_w <= 16384,
                                0 <= out_y < out_h <= 16384,
                        ;
                    }
                    let cov_idx: usize = row * gw + cx;
                    let alpha = coverage[cov_idx] as u16;
                    let idx: usize = ((out_y as usize) * (out_w as usize) + (out_x as usize)) * 3;
                    proof {
                        let p = (out_y as int) * (out_w as int) + (out_x as int);
                        lemma_fundamental_div_mod_converse(p, out_w as int, out_y as int, out_x as int);
                        lemma_fundamental_div_mod_converse(3 * p, 3, p, 0);
                        lemma_fundamental_div_mod_converse(3 * p + 1, 3, p, 1);
                        lemma_fundamental_div_mod_converse(3 * p + 2, 3, p, 2);
                        assert(pix_y(idx as int, out_w as int) == out_y && pix_x(
                            idx as int,
                            out_w as int,
                        ) == out_x);
                        assert(pix_y(idx as int + 1, out_w as int) == out_y && pix_x(
                            idx as int + 1,
                            out_w as int,
                        ) == out_x);
                        assert(pix_y(idx as int + 2, out_w as int) == out_y && pix_x(
                            idx as int + 2,
                            out_w as int,
                        ) == out_x);
                    }
                    if alpha != 0 {
                        output[idx] = blend_px(eff_r, output[idx], alpha);
                        output[idx + 1] = blend_px(eff_g, output[idx + 1], alpha);
                        output[idx + 2] = blend_px(eff_b, output[idx + 2], alpha);
                    }
                    proof {
                        assert forall|i: int|
                            0 <= i < output@.len() implies #[trigger] output@[i] == (if gy <= pix_y(
                            i,
                            out_w as int,
                        ) < gy + row || (pix_y(i, out_w as int) == gy + row && pix_x(
                            i,
                            out_w as int,
                        ) < gx + cx + 1) {
                            blit_scaled_at(
                                old(output)@,
                                out_w as int,
                                coverage@,
                                gw as int,
                                gh as int,
                                gx as int,
                                gy as int,
                                eff_r,
                                eff_g,
                                eff_b,
                                i,
                            )
                        } else {
                            old(output)@[i]
                        }) by {
                            lemma_pix_bounds(i, out_w as int, out_h as int);
                            if pix_y(i, out_w as int) == gy + row && pix_x(i, out_w as int) == gx
                                + cx {
                                assert(i == ((out_y as int) * (out_w as int) + (out_x as int)) * 3
                                    + i % 3);
                                assert(i == idx + i % 3);
                                assert(pix_y(i, out_w as int) - gy == row && pix_x(i, out_w as int)
                                    - gx == cx);
                                assert(coverage@[(row as int) * (gw as int) + (cx as int)] as u16
                                    == alpha);
                                assert(old(output)@[i] == output@[i] || alpha != 0);
                            } else {
                                assert(i != idx && i != idx + 1 && i != idx + 2);
                                assert(output@[i] == old(output)@[i] || (gy <= pix_y(
                                    i,
                                    out_w as int,
                                ) < gy + row || (pix_y(i, out_w as int) == gy + row && pix_x(
                                    i,
                                    out_w as int,
                                ) < gx + cx)));
                            }
                        };
                    }
                } else {
                    proof {
                        assert forall|i: int|
                            0 <= i < output@.len() implies #[trigger] output@[i] == (if gy <= pix_y(
                            i,
                            out_w as int,
                        ) < gy + row || (pix_y(i, out_w as int) == gy + row && pix_x(
                            i,
                            out_w as int,
                        ) < gx + cx + 1) {
                            blit_scaled_at(
                                old(output)@,
                                out_w as int,
                                coverage@,
                                gw as int,
                                gh as int,
                                gx as int,
                                gy as int,
                                eff_r,
                                eff_g,
                                eff_b,
                                i,
                            )
                        } else {
                            old(output)@[i]
                        }) by {
                            lemma_pix_bounds(i, out_w as int, out_h as int);
                        };
                    }
                }
                cx = cx + 1;
            }
        }
        proof {
            assert forall|i: int| 0 <= i < output@.len() implies #[trigger] output@[i] == (if gy
                <= pix_y(i, out_w as int) < gy + row + 1 {
                blit_scaled_at(
                    old(output)@,
                    out_w as int,
                    coverage@,
                    gw as int,
                    gh as int,
                    gx as int,
                    gy as int,
                    eff_r,
                    eff_g,
                    eff_b,
                    i,
                )
            } else {
                old(output)@[i]
            }) by {
                lemma_pix_bounds(i, out_w as int, out_h as int);
            };
        }
        row = row + 1;
    }
    proof {
        assert forall|i: int| 0 <= i < output@.len() implies output@[i] == blit_scaled_at(
            old(output)@,
            out_w as int,
            coverage@,
            gw as int,
            gh as int,
            gx as int,
            gy as int,
            eff_r,
            eff_g,
            eff_b,
            i,
        ) by {
            lemma_pix_bounds(i, out_w as int, out_h as int);
            if !(gy <= pix_y(i, out_w as int) < gy + gh) {
                assert(output@[i] == old(output)@[i]);
            }
        };
    }
}

/// The output after one cell of the plain compositor: the cell's character
/// blitted in the foreground color, or nothing for a space, an uncached
/// character or an empty bitmap.
pub open spec fn plain_cell_step(
    prev: Seq<u8>,
    cache: GlyphCache,
    out_w: int,
    ascent: int,
    fg: Rgb,
    cell_w: int,
    cell_h: int,
    cols: int,
    chars: Seq<char>,
    k: int,
) -> Seq<u8> {
    let ch = chars[k];
    let cell_x = (k % cols) * cell_w;
    let cell_y = (k / cols) * cell_h;
    if ch == ' ' {
        prev
    } else {
        match crate::glyph_cache::cache_first(cache.glyphs@, ch) {
            Option::None => prev,
            Option::Some(g) => if g.width > 0 && g.height > 0 {
                Seq::new(
                    prev.len(),
                    |i: int|
                        blit_solid_at(
                            prev,
                            out_w,
                            g.coverage@,
                            g.width as int,
                            g.height as int,
                            cell_x + g.xmin,
                            cell_y + ascent - g.ymin - g.height,
                            fg,
                            i,
                        ),
                )
            } else {
                prev
            },
        }
    }
}

/// The plain compositor's output after its first `k` cells.
pub open spec fn composite_plain_spec(
    out0: Seq<u8>,
    cache: GlyphCache,
    out_w: int,
    ascent: int,
    fg: Rgb,
    cell_w: int,
    cell_h: int,
    cols: int,
    chars: Seq<char>,
    k: int,
) -> Seq<u8>
    decreases k,
{
    if k <= 0 {
        out0
    } else {
        plain_cell_step(
            composite_plain_spec(out0, cache, out_w, ascent, fg, cell_w, cell_h, cols, chars, k - 1),
            cache,
            out_w,
            ascent,
            fg,
            cell_w,
            cell_h,
            cols,
            chars,
            k - 1,
        )
    }
}

/// The output after one cell of the rain compositor: the cell's glyph blended
/// with its intensity-scaled color, thickened toward the glow variant above
/// the intensity threshold; dark cells and spaces stay background.
pub open spec fn rain_cell_step(
    prev: Seq<u8>,
    cache: GlyphCache,
    out_w: int,
    ascent: int,
    cell_w: int,
    cell_h: int,
    cols: int,
    cells: Seq<CellRender>,
    k: int,
) -> Seq<u8> {
    let cell = cells[k];
    let cell_x = (k % cols) * cell_w;
    let cell_y = (k / cols) * cell_h;
    if cell.ch == ' ' || cell.intensity < 5000 {
        prev
    } else {
        match crate::glyph_cache::cache_first(cache.glyphs@, cell.ch) {
            Option::None => prev,
            Option::Some(g) => if g.width > 0 && g.height > 0 {
                let er = ((cell.color.r * cell.intensity) / (UNIT as int)) as u16;
                let eg = ((cell.color.g * cell.intensity) / (UNIT as int)) as u16;
                let eb = ((cell.color.b * cell.intensity) / (UNIT as int)) as u16;
                if g.glow is Some && cell.intensity > 200000 {
                    let glow = g.glow.unwrap();
                    let lin = ((cell.intensity - 200000) as int / 8) * 10;
                    let linc = if lin > UNIT {
                        UNIT as int
                    } else {
                        lin
                    };
                    let blend2 = linc * linc / (UNIT as int);
                    Seq::new(
                        prev.len(),
                        |i: int|
                            blit_glow_at(
                                prev,
                                out_w,
                                glow.coverage@,
                                glow.width as int,
                                glow.height as int,
                                cell_x + glow.xmin,
                                cell_y + ascent - glow.ymin - glow.height,
                                g.coverage@,
                                g.width as int,
                                g.height as int,
                                g.xmin - glow.xmin,
                                blend2,
                                er,
                                eg,
                                eb,
                                i,
                            ),
                    )
                } else {
                    Seq::new(
                        prev.len(),
                        |i: int|
                            blit_scaled_at(
                                prev,
                                out_w,
                                g.coverage@,
                                g.width as int,
                                g.height as int,
                                cell_x + g.xmin,
                                cell_y + ascent - g.ymin - g.height,
                                er,
                                eg,
                                eb,
                                i,
                            ),
                    )
                }
            } else {
                prev
            },
        }
    }
}

/// The rain compositor's output after its first `k` cells.
pub open spec fn composite_rain_spec(
    out0: Seq<u8>,
    cache: GlyphCache,
    out_w: int,
    ascent: int,
    cell_w: int,
    cell_h: int,
    cols: int,
    cells: Seq<CellRender>,
    k: int,
) -> Seq<u8>
    decreases k,
{
    if k <= 0 {
        out0
    } else {
        rain_cell_step(
            composite_rain_spec(out0, cache, out_w, ascent, cell_w, cell_h, cols, cells, k - 1),
            cache,
            out_w,
            ascent,
            cell_w,
            cell_h,
            cols,
            cells,
            k - 1,
        )
    }
}

/// The grayscale plane of an RGB frame, by the standard luma weighting.
pub open spec fn gray_spec(rgb: Seq<u8>, n: int) -> Seq<u8> {
    Seq::new(
        n as nat,
        |p: int| luma_spec(rgb[3 * p] as int, rgb[3 * p + 1] as int, rgb[3 * p + 2] as int) as u8,
    )
}

/// The perceptually lifted brightness grid of a frame: the square root of
/// each cell's block average, in millionths.
pub open spec fn lifted_grid_spec(
    gray: Seq<u8>,
    src_w: int,
    src_h: int,
    cols: int,
    rows: int,
) -> Seq<u32> {
    Seq::new(
        (cols * rows) as nat,
        |i: int|
            sqrt_floor(
                cell_average(gray, src_w, src_h, cols, rows, i % cols, i / cols) * (UNIT as int),
            ) as u32,
    )
}

/// The characters the plain and color paths select for a lifted grid.
pub open spec fn frame_chars_spec(
    lifted: Seq<u32>,
    charset: Seq<char>,
    curve: BrightnessCurve,
    invert: bool,
) -> Seq<char> {
    Seq::new(
        lifted.len(),
        |i: int|
            if charset.len() == 0 {
                ' '
            } else {
                charset[char_index_spec(
                    charset.len() as int,
                    effective_brightness(curve, invert, lifted[i] as int),
                )]
            },
    )
}

/// A buffer filled with the background color.
pub open spec fn bg_fill_spec(n: int, bg: Rgb) -> Seq<u8> {
    Seq::new(n as nat, |i: int| bg_channel(bg, i))
}

/// The background byte expected at one index of an output buffer.
pub open spec fn bg_channel(bg: Rgb, i: int) -> u8 {
    if i % 3 == 0 {
        bg.r
    } else if i % 3 == 1 {
        bg.g
    } else {
        bg.b
    }
}

/// The frame renderer.  Rebuilt, never mutated, whenever the operator changes
/// theme, definition, colors, curve or inversion.
pub struct AsciiRenderer {
    pub glyph_cache: GlyphCache,
    pub charset: Vec<char>,
    pub fg: Rgb,
    pub bg: Rgb,
    pub brightness_curve: BrightnessCurve,
    pub invert: bool,
    pub output_width: u32,
    pub output_height: u32,
    pub ascii_cols: u32,
    pub ascii_rows: u32,
    /// Font ascent in pixels, for glyph placement within a cell.
    pub ascent: u32,
    pub rain_state: Option<MatrixRainState>,
    pub last_render_ms: u64,
    pub bloom_buf: Vec<u16>,
    pub bloom_tmp: Vec<u16>,
    pub is_color_mode: bool,
}

impl AsciiRenderer {
    /// The renderer's structural invariant.
    pub open spec fn wf(self) -> bool {
        &&& self.glyph_cache.wf()
        &&& 1 <= self.output_width <= DIM_MAX
        &&& 1 <= self.output_height <= DIM_MAX
        &&& 1 <= self.ascii_cols <= GRID_MAX
        &&& 1 <= self.ascii_rows <= GRID_MAX
        &&& self.ascii_cols * self.glyph_cache.cell_width <= self.output_width
        &&& self.ascii_rows * self.glyph_cache.cell_height <= self.output_height
        &&& self.charset@.len() <= 65535
        &&& self.ascent <= 100000
        &&& (match self.rain_state {
            Some(rain) => rain.wf() && rain.cols == self.ascii_cols && rain.rows
                == self.ascii_rows && rain.charset_len == self.charset@.len(),
            None => true,
        })
        &&& self.bloom_buf@.len() == ((self.output_width as int) / 4) * ((self.output_height as int)
            / 4) * 3
        &&& self.bloom_tmp@.len() == self.bloom_buf@.len()
    }
}

/// Solve for the font size, in hundredths of a pixel, that makes the target
/// column count fill the output width, given the cell width a probe
/// rasterization at a size of one hundred pixels produced.  Floored at six
/// pixels.
pub fn compute_font_size_centi(output_width: u32, ascii_columns: u32, probe_cell_width: usize) -> (r:
    u32)
    requires
        output_width <= DIM_MAX,
        1 <= ascii_columns <= 1000000,
        1 <= probe_cell_width <= 200000,
    ensures
        r as int == if 10000 * (output_width as int) / ((ascii_columns as int) * (
        probe_cell_width as int)) > 600 {
            10000 * (output_width as int) / ((ascii_columns as int) * (probe_cell_width as int))
        } else {
            600
        },
{
    proof {
        assert(0 < (ascii_columns as int) * (probe_cell_width as int) <= 1000000int * 200000int
            && 10000 * (output_width as int) <= 10000int * 16384int && 10000 * (output_width as int)
            / ((ascii_columns as int) * (probe_cell_width as int)) <= 10000int * 16384int)
            by (nonlinear_arith)
            requires
                1 <= ascii_columns <= 1000000,
                1 <= probe_cell_width <= 200000,
                output_width <= 16384,
        ;
    }
    let denom: u64 = (ascii_columns as u64) * (probe_cell_width as u64);
    let size: u64 = 10000 * (output_width as u64) / denom;
    if size > 600 {
        size as u32
    } else {
        600
    }
}

} // verus!

verus! {

/// A vector of zeroed 16-bit scratch values.
fn zeros_u16(n: usize) -> (r: Vec<u16>)
    ensures
        r@.len() == n,
{
    let mut r: Vec<u16> = Vec::new();
    let mut i: usize = 0;
    while i < n
        invariant
            i <= n,
            r@.len() == i,
        decreases n - i,
    {
        r.push(0);
        i = i + 1;
    }
    r
}

impl AsciiRenderer {
    /// Build a renderer over a prebuilt glyph cache.
    ///
    /// The grid is as many columns as requested, capped by how many cells fit
    /// across the output, and as many rows as fit down the output; fails when
    /// either count is zero, signaling that the output is too small for the
    /// requested density.
    pub fn new(
        charset: &Vec<char>,
        fg: Rgb,
        bg: Rgb,
        brightness_curve: BrightnessCurve,
        invert: bool,
        output_width: u32,
        output_height: u32,
        ascii_columns: u32,
        theme_name: &str,
        glyph_cache: GlyphCache,
        rain_seed: u64,
    ) -> (r: Result<AsciiRenderer, String>)
        requires
            glyph_cache.wf(),
            1 <= output_width <= DIM_MAX,
            1 <= output_height <= DIM_MAX,
            1 <= ascii_columns,
            charset@.len() <= 65535,
        ensures
            match r {
                Ok(rr) => {
                    &&& rr.wf()
                    &&& rr.output_width == output_width
                    &&& rr.output_height == output_height
                    &&& rr.fg == fg
                    &&& rr.bg == bg
                    &&& rr.brightness_curve == brightness_curve
                    &&& rr.invert == invert
                    &&& rr.charset@ == charset@
                    &&& rr.ascii_cols as int == (if ascii_columns as int <= (output_width as int)
                        / (glyph_cache.cell_width as int) {
                        ascii_columns as int
                    } else {
                        (output_width as int) / (glyph_cache.cell_width as int)
                    })
                    &&& rr.ascii_rows as int == (output_height as int) / (
                    glyph_cache.cell_height as int)
                    &&& (rr.rain_state is Some <==> theme_name@ == "matrix"@)
                    &&& rr.is_color_mode == (theme_name@ == "color"@)
                    &&& rr.glyph_cache == glyph_cache
                    &&& rr.ascent == glyph_cache.ascent
                    &&& rr.last_render_ms == 0
                },
                Err(_) => (output_width as int) / (glyph_cache.cell_width as int) == 0 || (
                output_height as int) / (glyph_cache.cell_height as int) == 0,
            },
    {
        let cell_w: usize = glyph_cache.cell_width;
        let cell_h: usize = glyph_cache.cell_height;
        let fit_cols: usize = (output_width as usize) / cell_w;
        let ascii_cols: usize = if (ascii_columns as usize) <= fit_cols {
            ascii_columns as usize
        } else {
            fit_cols
        };
        let ascii_rows: usize = (output_height as usize) / cell_h;
        if ascii_cols == 0 || ascii_rows == 0 {
            let mut m = String::new();
            m.append("output too small for the requested character density");
            return Err(m);
        }
        proof {
            assert(ascii_cols * cell_w <= output_width && ascii_rows * cell_h <= output_height
                && ascii_cols <= 16384 && ascii_rows <= 16384) by (nonlinear_arith)
                requires
                    1 <= cell_w,
                    1 <= cell_h,
                    ascii_cols <= (output_width as int) / (cell_w as int),
                    ascii_rows == (output_height as int) / (cell_h as int),
                    1 <= output_width <= 16384,
                    1 <= output_height <= 16384,
            ;
        }
        let glyph_cache_ascent = glyph_cache.ascent;
        let is_matrix = crate::text::str_eq(theme_name, "matrix");
        let rain_state: Option<MatrixRainState> = if is_matrix {
            Some(
                MatrixRainState::new(
                    ascii_cols as u32,
                    ascii_rows as u32,
                    charset.len(),
                    true,
                    rain_seed,
                ),
            )
        } else {
            None
        };
        let ds_w: usize = (output_width as usize) / 4;
        let ds_h: usize = (output_height as usize) / 4;
        proof {
            assert((ds_w as int) * (ds_h as int) * 3 <= 4096int * 4096int * 3)
                by (nonlinear_arith)
                requires
                    ds_w <= 4096,
                    ds_h <= 4096,
            ;
        }
        let bloom_len: usize = ds_w * ds_h * 3;
        let bloom_buf = zeros_u16(bloom_len);
        let bloom_tmp = zeros_u16(bloom_len);
        let is_color_mode = crate::text::str_eq(theme_name, "color");
        let mut cs: Vec<char> = Vec::new();
        let mut ci: usize = 0;
        while ci < charset.len()
            invariant
                ci <= charset@.len(),
                cs@ =~= charset@.subrange(0, ci as int),
            decreases charset@.len() - ci,
        {
            cs.push(char_at(charset, ci));
            ci = ci + 1;
        }
        proof {
            assert(cs@ =~= charset@);
        }
        Ok(
            AsciiRenderer {
                glyph_cache,
                charset: cs,
                fg,
                bg,
                brightness_curve,
                invert,
                output_width,
                output_height,
                ascii_cols: ascii_cols as u32,
                ascii_rows: ascii_rows as u32,
                ascent: glyph_cache_ascent,
                rain_state,
                last_render_ms: 0,
                bloom_buf,
                bloom_tmp,
                is_color_mode,
            },
        )
    }
}

} // verus!

verus! {

impl AsciiRenderer {
    /// Composite a grid of characters over the output with the theme's
    /// foreground color: exactly one solid blit per non-space cached cell,
    /// in row-major order.
    fn composite_glyphs(&self, chars: &Vec<char>, output: &mut Vec<u8>)
        requires
            self.wf(),
            chars@.len() == self.ascii_cols * self.ascii_rows,
            old(output)@.len() == self.output_width * self.output_height * 3,
        ensures
            final(output)@.len() == old(output)@.len(),
            final(output)@ == composite_plain_spec(
                old(output)@,
                self.glyph_cache,
                self.output_width as int,
                self.ascent as int,
                self.fg,
                self.glyph_cache.cell_width as int,
                self.glyph_cache.cell_height as int,
                self.ascii_cols as int,
                chars@,
                chars@.len() as int,
            ),
    {
        let cols = self.ascii_cols as usize;
        let rows = self.ascii_rows as usize;
        let cell_w = self.glyph_cache.cell_width;
        let cell_h = self.glyph_cache.cell_height;
        let mut row: usize = 0;
        while row < rows
            invariant
                self.wf(),
                row <= rows,
                cols == self.ascii_cols,
                rows == self.ascii_rows,
                cell_w == self.glyph_cache.cell_width,
                cell_h == self.glyph_cache.cell_height,
                chars@.len() == cols * rows,
                output@.len() == self.output_width * self.output_height * 3,
                output@.len() == old(output)@.len(),
                output@ == composite_plain_spec(
                    old(output)@,
                    self.glyph_cache,
                    self.output_width as int,
                    self.ascent as int,
                    self.fg,
                    cell_w as int,
                    cell_h as int,
                    cols as int,
                    chars@,
                    (row * cols) as int,
                ),
            decreases rows - row,
        {
            let mut col: usize = 0;
            while col < cols
                invariant
                    self.wf(),
                    row < rows,
                    col <= cols,
                    cols == self.ascii_cols,
                    rows == self.ascii_rows,
                    cell_w == self.glyph_cache.cell_width,
                    cell_h == self.glyph_cache.cell_height,
                    chars@.len() == cols * rows,
                    output@.len() == self.output_width * self.output_height * 3,
                    output@.len() == old(output)@.len(),
                    output@ == composite_plain_spec(
                        old(output)@,
                        self.glyph_cache,
                        self.output_width as int,
                        self.ascent as int,
                        self.fg,
                        cell_w as int,
                        cell_h as int,
                        cols as int,
                        chars@,
                        (row * cols + col) as int,
                    ),
                decreases cols - col,
            {
                proof {
                    assert(row * cols + col < cols * rows && row * cols >= 0 && cols * rows
                        <= 16384int * 16384int) by (nonlinear_arith)
                        requires
                            0 <= row < rows <= 16384,
                            0 <= col < cols <= 16384,
                    ;
                    assert(col * cell_w + cell_w <= cols * cell_w && row * cell_h + cell_h <= rows
                        * cell_h && col * cell_w >= 0 && row * cell_h >= 0) by (nonlinear_arith)
                        requires
                            0 <= col < cols,
                            0 <= row < rows,
                            1 <= cell_w,
                            1 <= cell_h,
                    ;
                    lemma_fundamental_div_mod_converse(
                        (row as int) * (cols as int) + (col as int),
                        cols as int,
                        row as int,
                        col as int,
                    );
                }
                let ghost k = (row * cols + col) as int;
                let ghost prev = output@;
                let ch = char_at(chars, row * cols + col);
                // A space is just background.
                if ch != ' ' {
                    match self.glyph_cache.get(ch) {
                        Some(glyph) => {
                            proof {
                                let gi = choose|gi: int|
                                    0 <= gi < self.glyph_cache.glyphs.len() && (
                                    #[trigger] self.glyph_cache.glyphs[gi]).0 == ch
                                        && self.glyph_cache.glyphs[gi].1 == *glyph;
                                assert(crate::glyph_cache::glyph_wf(*glyph));
                            }
                            if glyph.width > 0 && glyph.height > 0 {
                                let cell_x: usize = col * cell_w;
                                let cell_y: usize = row * cell_h;
                                let gx: i64 = (cell_x as i64) + (glyph.xmin as i64);
                                let gy: i64 = (cell_y as i64) + ((self.ascent as i64) - (
                                glyph.ymin as i64) - (glyph.height as i64));
                                blit_solid(
                                    output,
                                    self.output_width,
                                    self.output_height,
                                    &glyph.coverage,
                                    glyph.width,
                                    glyph.height,
                                    gx,
                                    gy,
                                    self.fg,
                                );
                                proof {
                                    assert(output@ =~= plain_cell_step(
                                        prev,
                                        self.glyph_cache,
                                        self.output_width as int,
                                        self.ascent as int,
                                        self.fg,
                                        cell_w as int,
                                        cell_h as int,
                                        cols as int,
                                        chars@,
                                        k,
                                    ));
                                }
                            }
                        },
                        None => {},
                    }
                }
                proof {
                    assert(output@ == plain_cell_step(
                        prev,
                        self.glyph_cache,
                        self.output_width as int,
                        self.ascent as int,
                        self.fg,
                        cell_w as int,
                        cell_h as int,
                        cols as int,
                        chars@,
                        k,
                    ));
                }
                col = col + 1;
            }
            row = row + 1;
            proof {
                assert((row - 1) * cols + cols == row * cols) by (nonlinear_arith)
                    requires
                        row >= 1,
                ;
            }
        }
        proof {
            assert(rows * cols == cols * rows) by (nonlinear_arith);
        }
    }

    /// Composite per-cell render instructions over the output: each glyph
    /// with its cell's color scaled by its intensity, and, above a fixed
    /// threshold, thickened by blending toward its precomputed glow variant;
    /// exactly one blit per bright cached cell, in row-major order.
    fn composite_rain_glyphs(&self, cells: &Vec<CellRender>, output: &mut Vec<u8>)
        requires
            self.wf(),
            cells@.len() == self.ascii_cols * self.ascii_rows,
            forall|i: int| 0 <= i < cells@.len() ==> (#[trigger] cells@[i]).intensity <= UNIT,
            old(output)@.len() == self.output_width * self.output_height * 3,
        ensures
            final(output)@.len() == old(output)@.len(),
            final(output)@ == composite_rain_spec(
                old(output)@,
                self.glyph_cache,
                self.output_width as int,
                self.ascent as int,
                self.glyph_cache.cell_width as int,
                self.glyph_cache.cell_height as int,
                self.ascii_cols as int,
                cells@,
                cells@.len() as int,
            ),
    {
        let cols = self.ascii_cols as usize;
        let rows = self.ascii_rows as usize;
        let cell_w = self.glyph_cache.cell_width;
        let cell_h = self.glyph_cache.cell_height;
        let mut row: usize = 0;
        while row < rows
            invariant
                self.wf(),
                row <= rows,
                cols == self.ascii_cols,
                rows == self.ascii_rows,
                cell_w == self.glyph_cache.cell_width,
                cell_h == self.glyph_cache.cell_height,
                cells@.len() == cols * rows,
                forall|i: int| 0 <= i < cells@.len() ==> (#[trigger] cells@[i]).intensity <= UNIT,
                output@.len() == self.output_width * self.output_height * 3,
                output@.len() == old(output)@.len(),
                output@ == composite_rain_spec(
                    old(output)@,
                    self.glyph_cache,
                    self.output_width as int,
                    self.ascent as int,
                    cell_w as int,
                    cell_h as int,
                    cols as int,
                    cells@,
                    (row * cols) as int,
                ),
            decreases rows - row,
        {
            let mut col: usize = 0;
            while col < cols
                invariant
                    self.wf(),
                    row < rows,
                    col <= cols,
                    cols == self.ascii_cols,
                    rows == self.ascii_rows,
                    cell_w == self.glyph_cache.cell_width,
                    cell_h == self.glyph_cache.cell_height,
                    cells@.len() == cols * rows,
                    forall|i: int|
                        0 <= i < cells@.len() ==> (#[trigger] cells@[i]).intensity <= UNIT,
                    output@.len() == self.output_width * self.output_height * 3,
                    output@.len() == old(output)@.len(),
                    output@ == composite_rain_spec(
                        old(output)@,
                        self.glyph_cache,
                        self.output_width as int,
                        self.ascent as int,
                        cell_w as int,
                        cell_h as int,
                        cols as int,
                        cells@,
                        (row * cols + col) as int,
                    ),
                decreases cols - col,
            {
                proof {
                    assert(row * cols + col < cols * rows && row * cols >= 0 && cols * rows
                        <= 16384int * 16384int) by (nonlinear_arith)
                        requires
                            0 <= row < rows <= 16384,
                            0 <= col < cols <= 16384,
                    ;
                    assert(col * cell_w + cell_w <= cols * cell_w && row * cell_h + cell_h <= rows
                        * cell_h && col * cell_w >= 0 && row * cell_h >= 0) by (nonlinear_arith)
                        requires
                            0 <= col < cols,
                            0 <= row < rows,
                            1 <= cell_w,
                            1 <= cell_h,
                    ;
                    lemma_fundamental_div_mod_converse(
                        (row as int) * (cols as int) + (col as int),
                        cols as int,
                        row as int,
                        col as int,
                    );
                }
                let ghost k = (row * cols + col) as int;
                let ghost prev = output@;
                let cell_idx: usize = row * cols + col;
                let cell_ch = cells[cell_idx].ch;
                let cell_color = cells[cell_idx].color;
                let intensity = cells[cell_idx].intensity;
                // Nearly dark cells are left as background.
                if cell_ch != ' ' && intensity >= 5000 {
                    match self.glyph_cache.get(cell_ch) {
                        Some(glyph) => {
                            proof {
                                let gi = choose|gi: int|
                                    0 <= gi < self.glyph_cache.glyphs.len() && (
                                    #[trigger] self.glyph_cache.glyphs[gi]).0 == cell_ch
                                        && self.glyph_cache.glyphs[gi].1 == *glyph;
                                assert(crate::glyph_cache::glyph_wf(*glyph));
                            }
                            if glyph.width > 0 && glyph.height > 0 {
                                // Effective color: the cell's color scaled by
                                // its intensity.
                                let eff_r = scale_channel(cell_color.r, intensity);
                                let eff_g = scale_channel(cell_color.g, intensity);
                                let eff_b = scale_channel(cell_color.b, intensity);
                                let cell_x: usize = col * cell_w;
                                let cell_y: usize = row * cell_h;
                                let mut used_glow = false;
                                match glyph.glow {
                                    Some(ref glow) => {
                                        if intensity > 200000 {
                                            // Brighter cells get thicker
                                            // strokes: blend from the base
                                            // coverage toward the dilated
                                            // variant, quadratically in
                                            // intensity.
                                            let lin: u32 = ((intensity - 200000) / 8) * 10;
                                            let lin_c: u32 = if lin > UNIT {
                                                UNIT
                                            } else {
                                                lin
                                            };
                                            let blend2 = scale_unit(lin_c, lin_c);
                                            let gx: i64 = (cell_x as i64) + (glow.xmin as i64);
                                            let gy: i64 = (cell_y as i64) + ((self.ascent as i64)
                                                - (glow.ymin as i64) - (glow.height as i64));
                                            let expand: i64 = (glyph.xmin as i64) - (
                                            glow.xmin as i64);
                                            blit_glow(
                                                output,
                                                self.output_width,
                                                self.output_height,
                                                &glow.coverage,
                                                glow.width,
                                                glow.height,
                                                gx,
                                                gy,
                                                &glyph.coverage,
                                                glyph.width,
                                                glyph.height,
                                                expand,
                                                blend2,
                                                eff_r,
                                                eff_g,
                                                eff_b,
                                            );
                                            used_glow = true;
                                        }
                                    },
                                    None => {},
                                }
                                if !used_glow {
                                    let gx: i64 = (cell_x as i64) + (glyph.xmin as i64);
                                    let gy: i64 = (cell_y as i64) + ((self.ascent as i64) - (
                                    glyph.ymin as i64) - (glyph.height as i64));
                                    blit_scaled(
                                        output,
                                        self.output_width,
                                        self.output_height,
                                        &glyph.coverage,
                                        glyph.width,
                                        glyph.height,
                                        gx,
                                        gy,
                                        eff_r,
                                        eff_g,
                                        eff_b,
                                    );
                                }
                                proof {
                                    assert(output@ =~= rain_cell_step(
                                        prev,
                                        self.glyph_cache,
                                        self.output_width as int,
                                        self.ascent as int,
                                        cell_w as int,
                                        cell_h as int,
                                        cols as int,
                                        cells@,
                                        k,
                                    ));
                                }
                            }
                        },
                        None => {},
                    }
                }
                proof {
                    assert(output@ == rain_cell_step(
                        prev,
                        self.glyph_cache,
                        self.output_width as int,
                        self.ascent as int,
                        cell_w as int,
                        cell_h as int,
                        cols as int,
                        cells@,
                        k,
                    ));
                }
                col = col + 1;
            }
            row = row + 1;
            proof {
                assert((row - 1) * cols + cols == row * cols) by (nonlinear_arith)
                    requires
                        row >= 1,
                ;
            }
        }
        proof {
            assert(rows * cols == cols * rows) by (nonlinear_arith);
        }
    }
}

/// Scale a color channel by an intensity in `0 ..= UNIT`.
fn scale_channel(c: u8, intensity: u32) -> (r: u16)
    requires
        intensity <= UNIT,
    ensures
        r == (c * intensity) / (UNIT as int),
        r <= 255,
{
    proof {
        assert((c as int) * (intensity as int) <= 255int * 1000000int && (c as int) * (
        intensity as int) / 1000000 <= 255) by (nonlinear_arith)
            requires
                0 <= c <= 255,
                0 <= intensity <= 1000000,
        ;
    }
    (((c as u64) * (intensity as u64)) / (UNIT as u64)) as u16
}

/// Read a coverage value, zero outside the bitmap's bounds.
fn cov_zero(s: &Vec<u8>, w: usize, h: usize, x: i64, y: i64) -> (r: u8)
    requires
        s@.len() == w * h,
        w <= 2 * 16384,
        h <= 2 * 16384,
        -10000000000 <= x <= 10000000000,
        -10000000000 <= y <= 10000000000,
    ensures
        r == crate::glyph_cache::cov_at(s@, w as int, h as int, x as int, y as int),
{
    if x >= 0 && x < (w as i64) && y >= 0 && y < (h as i64) {
        proof {
            assert((y as int) * (w as int) + (x as int) < w * h && (y as int) * (w as int) >= 0
                && w * h <= 4int * 16384int * 16384int) by (nonlinear_arith)
                requires
                    0 <= x < w <= 2 * 16384,
                    0 <= y < h <= 2 * 16384,
            ;
        }
        let idx: usize = (y as usize) * w + (x as usize);
        s[idx]
    } else {
        0
    }
}

/// Blit a glow-blended glyph: per pixel, the alpha interpolates between the
/// base coverage and the dilated glow coverage by the given blend factor.
#[verifier::spinoff_prover]
#[verifier::rlimit(100)]
fn blit_glow(
    output: &mut Vec<u8>,
    out_w: u32,
    out_h: u32,
    glow_cov: &Vec<u8>,
    glow_w: usize,
    glow_h: usize,
    gx: i64,
    gy: i64,
    base_cov: &Vec<u8>,
    base_w: usize,
    base_h: usize,
    expand: i64,
    blend2: u32,
    eff_r: u16,
    eff_g: u16,
    eff_b: u16,
)
    requires
        old(output)@.len() == out_w * out_h * 3,
        1 <= out_w <= DIM_MAX,
        1 <= out_h <= DIM_MAX,
        glow_cov@.len() == glow_w * glow_h,
        glow_w <= 2 * 16384,
        glow_h <= 2 * 16384,
        base_cov@.len() == base_w * base_h,
        base_w <= 2 * 16384,
        base_h <= 2 * 16384,
        -10000000000 <= gx <= 10000000000,
        -10000000000 <= gy <= 10000000000,
        -1000000 <= expand <= 1000000,
        blend2 <= UNIT,
        eff_r <= 255,
        eff_g <= 255,
        eff_b <= 255,
    ensures
        final(output)@.len() == old(output)@.len(),
        forall|i: int|
            0 <= i < final(output)@.len() ==> final(output)@[i] == blit_glow_at(
                old(output)@,
                out_w as int,
                glow_cov@,
                glow_w as int,
                glow_h as int,
                gx as int,
                gy as int,
                base_cov@,
                base_w as int,
                base_h as int,
                expand as int,
                blend2 as int,
                eff_r,
                eff_g,
                eff_b,
                i,
            ),
{
    let mut row: usize = 0;
    while row < glow_h
        invariant
            row <= glow_h,
            output@.len() == out_w * out_h * 3,
            output@.len() == old(output)@.len(),
            1 <= out_w <= DIM_MAX,
            1 <= out_h <= DIM_MAX,
            glow_cov@.len() == glow_w * glow_h,
            glow_w <= 2 * 16384,
            glow_h <= 2 * 16384,
            base_cov@.len() == base_w * base_h,
            base_w <= 2 * 16384,
            base_h <= 2 * 16384,
            -10000000000 <= gx <= 10000000000,
            -10000000000 <= gy <= 10000000000,
            -1000000 <= expand <= 1000000,
            blend2 <= UNIT,
            eff_r <= 255,
            eff_g <= 255,
            eff_b <= 255,
            forall|i: int|
                0 <= i < output@.len() ==> #[trigger] output@[i] == (if gy <= pix_y(
                    i,
                    out_w as int,
                ) < gy + row {
                    blit_glow_at(
                        old(output)@,
                        out_w as int,
                        glow_cov@,
                        glow_w as int,
                        glow_h as int,
                        gx as int,
                        gy as int,
                        base_cov@,
                        base_w as int,
                        base_h as int,
                        expand as int,
                        blend2 as int,
                        eff_r,
                        eff_g,
                        eff_b,
                        i,
                    )
                } else {
                    old(output)@[i]
                }),
        decreases glow_h - row,
    {
        let out_y: i64 = gy + (row as i64);
        if out_y >= 0 && out_y < (out_h as i64) {
            let mut cx: usize = 0;
            while cx < glow_w
                invariant
                    cx <= glow_w,
                    row < glow_h,
                    out_y == gy + row,
                    output@.len() == out_w * out_h * 3,
                    output@.len() == old(output)@.len(),
                    1 <= out_w <= DIM_MAX,
                    1 <= out_h <= DIM_MAX,
                    glow_cov@.len() == glow_w * glow_h,
                    glow_w <= 2 * 16384,
                    glow_h <= 2 * 16384,
                    base_cov@.len() == base_w * base_h,
                    base_w <= 2 * 16384,
                    base_h <= 2 * 16384,
                    -10000000000 <= gx <= 10000000000,
                    0 <= out_y < out_h,
                    -1000000 <= expand <= 1000000,
                    blend2 <= UNIT,
                    eff_r <= 255,
                    eff_g <= 255,
                    eff_b <= 255,
                    forall|i: int|
                        0 <= i < output@.len() ==> #[trigger] output@[i] == (if gy <= pix_y(
                            i,
                            out_w as int,
                        ) < gy + row || (pix_y(i, out_w as int) == gy + row && pix_x(
                            i,
                            out_w as int,
                        ) < gx + cx) {
                            blit_glow_at(
                                old(output)@,
                                out_w as int,
                                glow_cov@,
                                glow_w as int,
                                glow_h as int,
                                gx as int,
                                gy as int,
                                base_cov@,
                                base_w as int,
                                base_h as int,
                                expand as int,
                                blend2 as int,
                                eff_r,
                                eff_g,
                                eff_b,
                                i,
                            )
                        } else {
                            old(output)@[i]
                        }),
                decreases glow_w - cx,
            {
                let out_x: i64 = gx + (cx as i64);
                if out_x >= 0 && out_x < (out_w as i64) {
                    proof {
                        assert((row as int) * (glow_w as int) + (cx as int) < glow_w * glow_h && (
                        row as int) * (glow_w as int) >= 0 && glow_w * glow_h <= 4int * 16384int
                            * 16384int) by (nonlinear_arith)
                            requires
                                0 <= cx < glow_w <= 2 * 16384,
                                0 <= row < glow_h <= 2 * 16384,
                        ;
                        assert(((out_y as int) * (out_w as int) + (out_x as int)) * 3 + 2 < (
                        out_w as int) * (out_h as int) * 3 && (out_y as int) * (out_w as int) >= 0
                            && (out_w as int) * (out_h as int) * 3 <= 16384int * 16384int * 3)
                            by (nonlinear_arith)
                            requires
                                0 <= out_x < out_w <= 16384,
                                0 <= out_y < out_h <= 16384,
                        ;
                    }
                    let glow_a = glow_cov[row * glow_w + cx] as u32;
                    // Base alpha at the corresponding position of the
                    // unexpanded bitmap.
                    let bx: i64 = (cx as i64) - expand;
                    let by: i64 = (row as i64) - expand;
                    let base_a = cov_zero(base_cov, base_w, base_h, bx, by) as u32;
                    // Interpolate between base and glow coverage.
                    let alpha32: u32 = if glow_a >= base_a {
                        base_a + scale_unit(glow_a - base_a, blend2)
                    } else {
                        base_a - scale_unit(base_a - glow_a, blend2)
                    };
                    proof {
                        assert(alpha32 <= 255);
                        assert(alpha32 as int == glow_alpha_at(
                            glow_cov@,
                            glow_w as int,
                            base_cov@,
                            base_w as int,
                            base_h as int,
                            expand as int,
                            blend2 as int,
                            cx as int,
                            row as int,
                        ));
                    }
                    let alpha: u16 = alpha32 as u16;
                    let idx: usize = ((out_y as usize) * (out_w as usize) + (out_x as usize)) * 3;
                    proof {
                        let p = (out_y as int) * (out_w as int) + (out_x as int);
                        lemma_fundamental_div_mod_converse(p, out_w as int, out_y as int, out_x as int);
                        lemma_fundamental_div_mod_converse(3 * p, 3, p, 0);
                        lemma_fundamental_div_mod_converse(3 * p + 1, 3, p, 1);
                        lemma_fundamental_div_mod_converse(3 * p + 2, 3, p, 2);
                        assert(pix_y(idx as int, out_w as int) == out_y && pix_x(
                            idx as int,
                            out_w as int,
                        ) == out_x);
                        assert(pix_y(idx as int + 1, out_w as int) == out_y && pix_x(
                            idx as int + 1,
                            out_w as int,
                        ) == out_x);
                        assert(pix_y(idx as int + 2, out_w as int) == out_y && pix_x(
                            idx as int + 2,
                            out_w as int,
                        ) == out_x);
                    }
                    if alpha != 0 {
                        output[idx] = blend_px(eff_r, output[idx], alpha);
                        output[idx + 1] = blend_px(eff_g, output[idx + 1], alpha);
                        output[idx + 2] = blend_px(eff_b, output[idx + 2], alpha);
                    }
                    proof {
                        assert forall|i: int|
                            0 <= i < output@.len() implies #[trigger] output@[i] == (if gy <= pix_y(
                            i,
                            out_w as int,
                        ) < gy + row || (pix_y(i, out_w as int) == gy + row && pix_x(
                            i,
                            out_w as int,
                        ) < gx + cx + 1) {
                            blit_glow_at(
                                old(output)@,
                                out_w as int,
                                glow_cov@,
                                glow_w as int,
                                glow_h as int,
                                gx as int,
                                gy as int,
                                base_cov@,
                                base_w as int,
                                base_h as int,
                                expand as int,
                                blend2 as int,
                                eff_r,
                                eff_g,
                                eff_b,
                                i,
                            )
                        } else {
                            old(output)@[i]
                        }) by {
                            lemma_pix_bounds(i, out_w as int, out_h as int);
                            if pix_y(i, out_w as int) == gy + row && pix_x(i, out_w as int) == gx
                                + cx {
                                assert(i == ((out_y as int) * (out_w as int) + (out_x as int)) * 3
                                    + i % 3);
                                assert(i == idx + i % 3);
                                assert(pix_y(i, out_w as int) - gy == row && pix_x(i, out_w as int)
                                    - gx == cx);
                                assert(glow_alpha_at(
                                    glow_cov@,
                                    glow_w as int,
                                    base_cov@,
                                    base_w as int,
                                    base_h as int,
                                    expand as int,
                                    blend2 as int,
                                    cx as int,
                                    row as int,
                                ) == alpha as int);
                                assert(old(output)@[i] == output@[i] || alpha != 0);
                            } else {
                                assert(i != idx && i != idx + 1 && i != idx + 2);
                                assert(output@[i] == old(output)@[i] || (gy <= pix_y(
                                    i,
                                    out_w as int,
                                ) < gy + row || (pix_y(i, out_w as int) == gy + row && pix_x(
                                    i,
                                    out_w as int,
                                ) < gx + cx)));
                            }
                        };
                    }
                } else {
                    proof {
                        assert forall|i: int|
                            0 <= i < output@.len() implies #[trigger] output@[i] == (if gy <= pix_y(
                            i,
                            out_w as int,
                        ) < gy + row || (pix_y(i, out_w as int) == gy + row && pix_x(
                            i,
                            out_w as int,
                        ) < gx + cx + 1) {
                            blit_glow_at(
                                old(output)@,
                                out_w as int,
                                glow_cov@,
                                glow_w as int,
                                glow_h as int,
                                gx as int,
                                gy as int,
                                base_cov@,
                                base_w as int,
                                base_h as int,
                                expand as int,
                                blend2 as int,
                                eff_r,
                                eff_g,
                                eff_b,
                                i,
                            )
                        } else {
                            old(output)@[i]
                        }) by {
                            lemma_pix_bounds(i, out_w as int, out_h as int);
                        };
                    }
                }
                cx = cx + 1;
            }
        }
        proof {
            assert forall|i: int| 0 <= i < output@.len() implies #[trigger] output@[i] == (if gy
                <= pix_y(i, out_w as int) < gy + row + 1 {
                blit_glow_at(
                    old(output)@,
                    out_w as int,
                    glow_cov@,
                    glow_w as int,
                    glow_h as int,
                    gx as int,
                    gy as int,
                    base_cov@,
                    base_w as int,
                    base_h as int,
                    expand as int,
                    blend2 as int,
                    eff_r,
                    eff_g,
                    eff_b,
                    i,
                )
            } else {
                old(output)@[i]
            }) by {
                lemma_pix_bounds(i, out_w as int, out_h as int);
            };
        }
        row = row + 1;
    }
    proof {
        assert forall|i: int| 0 <= i < output@.len() implies output@[i] == blit_glow_at(
            old(output)@,
            out_w as int,
            glow_cov@,
            glow_w as int,
            glow_h as int,
            gx as int,
            gy as int,
            base_cov@,
            base_w as int,
            base_h as int,
            expand as int,
            blend2 as int,
            eff_r,
            eff_g,
            eff_b,
            i,
        ) by {
            lemma_pix_bounds(i, out_w as int, out_h as int);
            if !(gy <= pix_y(i, out_w as int) < gy + glow_h) {
                assert(output@[i] == old(output)@[i]);
            }
        };
    }
}

} // verus!

verus! {

/// A coordinate clamped to the edges of a side of the given length.
pub open spec fn clamp_idx(x: int, limit: int) -> int {
    if x < 0 {
        0
    } else if x >= limit {
        limit - 1
    } else {
        x
    }
}

/// Sum of the first `k` clamped samples of a horizontal blur window centered
/// at column `x` of the row starting at byte offset `row`.
pub open spec fn hwin_sum(
    src: Seq<u16>,
    w: int,
    row: int,
    x: int,
    c: int,
    r: int,
    k: int,
) -> int
    decreases k,
{
    if k <= 0 {
        0
    } else {
        hwin_sum(src, w, row, x, c, r, k - 1) + src[row + clamp_idx(x + (k - 1) - r, w) * 3 + c]
    }
}

/// Sum of the first `k` clamped samples of a vertical blur window centered
/// at row `y` of the column at byte offset `col`.
pub open spec fn vwin_sum(
    src: Seq<u16>,
    w: int,
    h: int,
    col: int,
    y: int,
    c: int,
    r: int,
    k: int,
) -> int
    decreases k,
{
    if k <= 0 {
        0
    } else {
        vwin_sum(src, w, h, col, y, c, r, k - 1) + src[clamp_idx(y + (k - 1) - r, h) * (w * 3) + col
            + c]
    }
}

/// The byte a horizontal box blur writes at index `i`: the mean of the
/// clamp-to-edge window around its pixel, per channel.
pub open spec fn blur_h_at(src: Seq<u16>, w: int, r: int, i: int) -> int {
    let y = i / (w * 3);
    let x = (i % (w * 3)) / 3;
    let c = i % 3;
    hwin_sum(src, w, y * (w * 3), x, c, r, 2 * r + 1) / (2 * r + 1)
}

/// The byte a vertical box blur writes at index `i`.
pub open spec fn blur_v_at(src: Seq<u16>, w: int, h: int, r: int, i: int) -> int {
    let y = i / (w * 3);
    let x = (i % (w * 3)) / 3;
    let c = i % 3;
    vwin_sum(src, w, h, x * 3, y, c, r, 2 * r + 1) / (2 * r + 1)
}

/// A scratch-buffer byte index decomposes uniquely into its row, column and
/// channel.
pub proof fn lemma_px3(i: int, w: int, h: int)
    requires
        0 <= i < w * h * 3,
        1 <= w,
        1 <= h,
    ensures
        0 <= i / (w * 3) < h,
        0 <= (i % (w * 3)) / 3 < w,
        0 <= i % 3 < 3,
        i == (i / (w * 3)) * (w * 3) + ((i % (w * 3)) / 3) * 3 + i % 3,
        i % (w * 3) == ((i % (w * 3)) / 3) * 3 + i % 3,
    decreases 0int,
{
    let y = i / (w * 3);
    let rem = i % (w * 3);
    vstd::arithmetic::div_mod::lemma_fundamental_div_mod(i, w * 3);
    assert(w * 3 > 0 && 0 <= y < h && 0 <= rem < w * 3) by (nonlinear_arith)
        requires
            0 <= i < w * h * 3,
            1 <= w,
            1 <= h,
            y == i / (w * 3),
            rem == i % (w * 3),
    ;
    let x = rem / 3;
    let c = rem % 3;
    vstd::arithmetic::div_mod::lemma_fundamental_div_mod(rem, 3);
    assert(0 <= x < w && 0 <= c < 3) by (nonlinear_arith)
        requires
            0 <= rem < w * 3,
            x == rem / 3,
            c == rem % 3,
    ;
    assert(i == (y * w + x) * 3 + c) by (nonlinear_arith)
        requires
            i == y * (w * 3) + rem,
            rem == x * 3 + c,
    ;
    vstd::arithmetic::div_mod::lemma_fundamental_div_mod_converse(i, 3, y * w + x, c);
}

/// Clamp a signed coordinate into `0 .. limit`.
fn clamp_coord(x: i64, limit: usize) -> (r: usize)
    requires
        1 <= limit <= 16384,
        -1000000 <= x <= 10000000000,
    ensures
        r < limit,
        r == clamp_idx(x as int, limit as int),
        0 <= x < limit ==> r == x,
        x < 0 ==> r == 0,
        x >= limit ==> r == limit - 1,
{
    if x < 0 {
        0
    } else if x >= (limit as i64) {
        limit - 1
    } else {
        x as usize
    }
}

/// Horizontal box blur with clamp-to-edge boundaries: every channel becomes
/// the mean of its clamped window.
#[verifier::rlimit(100)]
fn box_blur_h(src: &Vec<u16>, dst: &mut Vec<u16>, w: usize, h: usize, radius: usize)
    requires
        src@.len() == w * h * 3,
        old(dst)@.len() == w * h * 3,
        1 <= w <= DIM_MAX,
        1 <= h <= DIM_MAX,
        1 <= radius <= 100,
    ensures
        final(dst)@.len() == old(dst)@.len(),
        forall|i: int|
            0 <= i < final(dst)@.len() ==> final(dst)@[i] as int == blur_h_at(
                src@,
                w as int,
                radius as int,
                i,
            ),
{
    let d: u32 = (2 * radius + 1) as u32;
    let mut y: usize = 0;
    while y < h
        invariant
            y <= h,
            src@.len() == w * h * 3,
            dst@.len() == w * h * 3,
            dst@.len() == old(dst)@.len(),
            1 <= w <= DIM_MAX,
            1 <= h <= DIM_MAX,
            1 <= radius <= 100,
            d == 2 * radius + 1,
            forall|i: int|
                0 <= i < (y as int) * ((w as int) * 3) ==> #[trigger] dst@[i] as int == blur_h_at(
                    src@,
                    w as int,
                    radius as int,
                    i,
                ),
        decreases h - y,
    {
        proof {
            assert((y as int) * ((w as int) * 3) + (w as int) * 3 <= (w as int) * (h as int) * 3
                && (y as int) * ((w as int) * 3) >= 0 && (w as int) * (h as int) * 3 <= 16384int
                * 16384int * 3) by (nonlinear_arith)
                requires
                    0 <= y < h <= 16384,
                    1 <= w <= 16384,
            ;
        }
        let row: usize = y * (w * 3);
        let mut x: usize = 0;
        while x < w
            invariant
                y < h,
                x <= w,
                src@.len() == w * h * 3,
                dst@.len() == w * h * 3,
                dst@.len() == old(dst)@.len(),
                1 <= w <= DIM_MAX,
                1 <= h <= DIM_MAX,
                1 <= radius <= 100,
                d == 2 * radius + 1,
                row == (y as int) * ((w as int) * 3),
                row + (w as int) * 3 <= (w as int) * (h as int) * 3,
                row >= 0,
                forall|i: int|
                    0 <= i < row + (x as int) * 3 ==> #[trigger] dst@[i] as int == blur_h_at(
                        src@,
                        w as int,
                        radius as int,
                        i,
                    ),
            decreases w - x,
        {
            let mut c: usize = 0;
            while c < 3
                invariant
                    y < h,
                    x < w,
                    c <= 3,
                    src@.len() == w * h * 3,
                    dst@.len() == w * h * 3,
                    dst@.len() == old(dst)@.len(),
                    1 <= w <= DIM_MAX,
                    1 <= h <= DIM_MAX,
                    1 <= radius <= 100,
                    d == 2 * radius + 1,
                    row == (y as int) * ((w as int) * 3),
                    row + (w as int) * 3 <= (w as int) * (h as int) * 3,
                    row >= 0,
                    forall|i: int|
                        0 <= i < row + (x as int) * 3 + (c as int) ==> #[trigger] dst@[i] as int
                            == blur_h_at(src@, w as int, radius as int, i),
                decreases 3 - c,
            {
                let mut sum: u32 = 0;
                let mut k: usize = 0;
                while k < 2 * radius + 1
                    invariant
                        k <= 2 * radius + 1,
                        y < h,
                        x < w,
                        c < 3,
                        src@.len() == w * h * 3,
                        1 <= w <= DIM_MAX,
                        h <= DIM_MAX,
                        1 <= radius <= 100,
                        row == (y as int) * ((w as int) * 3),
                        row + (w as int) * 3 <= (w as int) * (h as int) * 3,
                        row >= 0,
                        sum <= k * 65535,
                        sum == hwin_sum(
                            src@,
                            w as int,
                            row as int,
                            x as int,
                            c as int,
                            radius as int,
                            k as int,
                        ),
                    decreases 2 * radius + 1 - k,
                {
                    let xi: i64 = (x as i64) + (k as i64) - (radius as i64);
                    let cx = clamp_coord(xi, w);
                    proof {
                        assert((cx as int) * 3 + (c as int) < (w as int) * 3)
                            by (nonlinear_arith)
                            requires
                                0 <= cx < w,
                                c < 3,
                        ;
                        assert(row + (cx as int) * 3 + (c as int) < (w as int) * (h as int) * 3);
                        assert((w as int) * (h as int) * 3 <= 16384int * 16384int * 3)
                            by (nonlinear_arith)
                            requires
                                w <= 16384,
                                h <= 16384,
                        ;
                        assert(sum + 65535 <= (k + 1) * 65535 && (k + 1) * 65535 <= 202int * 65535)
                            by (nonlinear_arith)
                            requires
                                sum <= k * 65535,
                                k < 2 * radius + 1,
                                radius <= 100,
                        ;
                    }
                    sum = sum + (src[row + cx * 3 + c] as u32);
                    k = k + 1;
                }
                proof {
                    assert((x as int) * 3 + (c as int) < (w as int) * 3) by (nonlinear_arith)
                        requires
                            0 <= x < w,
                            c < 3,
                    ;
                    assert(row + (x as int) * 3 + (c as int) < (w as int) * (h as int) * 3);
                    assert((w as int) * (h as int) * 3 <= 16384int * 16384int * 3)
                        by (nonlinear_arith)
                        requires
                            w <= 16384,
                            h <= 16384,
                    ;
                }
                let idx: usize = row + x * 3 + c;
                proof {
                    assert(sum / d <= 65535) by (nonlinear_arith)
                        requires
                            sum <= (2 * (radius as int) + 1) * 65535,
                            d == 2 * (radius as int) + 1,
                            d > 0,
                    ;
                    lemma_px3(idx as int, w as int, h as int);
                    lemma_fundamental_div_mod_converse(
                        idx as int,
                        (w as int) * 3,
                        y as int,
                        (x as int) * 3 + (c as int),
                    );
                    lemma_fundamental_div_mod_converse(
                        (x as int) * 3 + (c as int),
                        3,
                        x as int,
                        c as int,
                    );
                }
                dst[idx] = (sum / d) as u16;
                c = c + 1;
            }
            x = x + 1;
        }
        proof {
            assert(row + (w as int) * 3 == ((y as int) + 1) * ((w as int) * 3))
                by (nonlinear_arith)
                requires
                    row == (y as int) * ((w as int) * 3),
            ;
        }
        y = y + 1;
    }
    proof {
        assert((h as int) * ((w as int) * 3) == (w as int) * (h as int) * 3) by (nonlinear_arith);
    }
}

/// Vertical box blur with clamp-to-edge boundaries: every channel becomes
/// the mean of its clamped window.
#[verifier::rlimit(100)]
fn box_blur_v(src: &Vec<u16>, dst: &mut Vec<u16>, w: usize, h: usize, radius: usize)
    requires
        src@.len() == w * h * 3,
        old(dst)@.len() == w * h * 3,
        1 <= w <= DIM_MAX,
        1 <= h <= DIM_MAX,
        1 <= radius <= 100,
    ensures
        final(dst)@.len() == old(dst)@.len(),
        forall|i: int|
            0 <= i < final(dst)@.len() ==> final(dst)@[i] as int == blur_v_at(
                src@,
                w as int,
                h as int,
                radius as int,
                i,
            ),
{
    let d: u32 = (2 * radius + 1) as u32;
    let mut x: usize = 0;
    while x < w
        invariant
            x <= w,
            src@.len() == w * h * 3,
            dst@.len() == w * h * 3,
            dst@.len() == old(dst)@.len(),
            1 <= w <= DIM_MAX,
            1 <= h <= DIM_MAX,
            1 <= radius <= 100,
            d == 2 * radius + 1,
            forall|i: int|
                0 <= i < dst@.len() ==> #[trigger] dst@[i] as int == (if (i % ((w as int) * 3)) / 3
                    < x {
                    blur_v_at(src@, w as int, h as int, radius as int, i)
                } else {
                    old(dst)@[i] as int
                }),
        decreases w - x,
    {
        let col: usize = x * 3;
        proof {
            assert((x as int) * 3 + 2 < (w as int) * 3) by (nonlinear_arith)
                requires
                    0 <= x < w,
            ;
        }
        let mut y: usize = 0;
        while y < h
            invariant
                x < w,
                y <= h,
                col == (x as int) * 3,
                col + 2 < (w as int) * 3,
                src@.len() == w * h * 3,
                dst@.len() == w * h * 3,
                dst@.len() == old(dst)@.len(),
                1 <= w <= DIM_MAX,
                1 <= h <= DIM_MAX,
                1 <= radius <= 100,
                d == 2 * radius + 1,
                forall|i: int|
                    0 <= i < dst@.len() ==> #[trigger] dst@[i] as int == (if (i % ((w as int) * 3))
                        / 3 < x || ((i % ((w as int) * 3)) / 3 == x && i / ((w as int) * 3) < y) {
                        blur_v_at(src@, w as int, h as int, radius as int, i)
                    } else {
                        old(dst)@[i] as int
                    }),
            decreases h - y,
        {
            let mut c: usize = 0;
            while c < 3
                invariant
                    x < w,
                    y < h,
                    c <= 3,
                    col == (x as int) * 3,
                    col + 2 < (w as int) * 3,
                    src@.len() == w * h * 3,
                    dst@.len() == w * h * 3,
                    dst@.len() == old(dst)@.len(),
                    1 <= w <= DIM_MAX,
                    1 <= h <= DIM_MAX,
                    1 <= radius <= 100,
                    d == 2 * radius + 1,
                    forall|i: int|
                        0 <= i < dst@.len() ==> #[trigger] dst@[i] as int == (if (i % ((
                        w as int) * 3)) / 3 < x || ((i % ((w as int) * 3)) / 3 == x && (i / ((
                        w as int) * 3) < y || (i / ((w as int) * 3) == y && i % 3 < c))) {
                            blur_v_at(src@, w as int, h as int, radius as int, i)
                        } else {
                            old(dst)@[i] as int
                        }),
                decreases 3 - c,
            {
                let mut sum: u32 = 0;
                let mut k: usize = 0;
                while k < 2 * radius + 1
                    invariant
                        k <= 2 * radius + 1,
                        x < w,
                        y < h,
                        c < 3,
                        col == (x as int) * 3,
                        col + 2 < (w as int) * 3,
                        src@.len() == w * h * 3,
                        1 <= w <= DIM_MAX,
                        1 <= h <= DIM_MAX,
                        1 <= radius <= 100,
                        sum <= k * 65535,
                        sum == vwin_sum(
                            src@,
                            w as int,
                            h as int,
                            col as int,
                            y as int,
                            c as int,
                            radius as int,
                            k as int,
                        ),
                    decreases 2 * radius + 1 - k,
                {
                    let yi: i64 = (y as i64) + (k as i64) - (radius as i64);
                    let cy = clamp_coord(yi, h);
                    proof {
                        assert((w as int) * (h as int) * 3 <= 16384int * 16384int * 3 && (
                        cy as int) * ((w as int) * 3) + (col as int) + (c as int) < (w as int) * (
                        h as int) * 3 && (cy as int) * ((w as int) * 3) >= 0)
                            by (nonlinear_arith)
                            requires
                                0 <= cy < h <= 16384,
                                col + 2 < (w as int) * 3,
                                col >= 0,
                                c < 3,
                                1 <= w <= 16384,
                        ;
                        assert(sum + 65535 <= (k + 1) * 65535 && (k + 1) * 65535 <= 202int * 65535)
                            by (nonlinear_arith)
                            requires
                                sum <= k * 65535,
                                k < 2 * radius + 1,
                                radius <= 100,
                        ;
                    }
                    let stride: usize = w * 3;
                    sum = sum + (src[cy * stride + col + c] as u32);
                    k = k + 1;
                }
                proof {
                    assert((y as int) * ((w as int) * 3) + (col as int) + (c as int) < (w as int)
                        * (h as int) * 3 && (y as int) * ((w as int) * 3) >= 0 && (w as int) * (
                    h as int) * 3 <= 16384int * 16384int * 3) by (nonlinear_arith)
                        requires
                            0 <= y < h <= 16384,
                            col + 2 < (w as int) * 3,
                            col >= 0,
                            c < 3,
                            1 <= w <= 16384,
                    ;
                    assert(sum / d <= 65535) by (nonlinear_arith)
                        requires
                            sum <= (2 * (radius as int) + 1) * 65535,
                            d == 2 * (radius as int) + 1,
                            d > 0,
                    ;
                }
                let stride: usize = w * 3;
                let idx: usize = y * stride + col + c;
                proof {
                    lemma_px3(idx as int, w as int, h as int);
                    lemma_fundamental_div_mod_converse(
                        idx as int,
                        (w as int) * 3,
                        y as int,
                        (col as int) + (c as int),
                    );
                    lemma_fundamental_div_mod_converse(
                        (col as int) + (c as int),
                        3,
                        x as int,
                        c as int,
                    );
                    assert(idx as int % 3 == c);
                }
                dst[idx] = (sum / d) as u16;
                proof {
                    assert forall|i: int|
                        0 <= i < dst@.len() implies #[trigger] dst@[i] as int == (if (i % ((
                    w as int) * 3)) / 3 < x || ((i % ((w as int) * 3)) / 3 == x && (i / ((
                    w as int) * 3) < y || (i / ((w as int) * 3) == y && i % 3 < c + 1))) {
                        blur_v_at(src@, w as int, h as int, radius as int, i)
                    } else {
                        old(dst)@[i] as int
                    }) by {
                        lemma_px3(i, w as int, h as int);
                    };
                }
                c = c + 1;
            }
            y = y + 1;
        }
        proof {
            assert forall|i: int|
                0 <= i < dst@.len() implies #[trigger] dst@[i] as int == (if (i % ((w as int) * 3))
                / 3 < x + 1 {
                blur_v_at(src@, w as int, h as int, radius as int, i)
            } else {
                old(dst)@[i] as int
            }) by {
                lemma_px3(i, w as int, h as int);
            };
        }
        x = x + 1;
    }
    proof {
        assert forall|i: int| 0 <= i < dst@.len() implies dst@[i] as int == blur_v_at(
            src@,
            w as int,
            h as int,
            radius as int,
            i,
        ) by {
            lemma_px3(i, w as int, h as int);
        };
    }
}

} // verus!

verus! {

/// The source cell and 8-bit fraction of a bilinear upsample lookup along
/// one axis, clamped to the downsampled edges.
pub open spec fn lerp_cell(v: int, ds: int) -> int {
    let q = 64 * v - 96;
    let qc = if q < 0 {
        0
    } else if q > (ds - 1) * 256 {
        (ds - 1) * 256
    } else {
        q
    };
    if qc / 256 > ds - 2 {
        ds - 2
    } else {
        qc / 256
    }
}

/// The fractional part of a bilinear upsample lookup along one axis.
pub open spec fn lerp_frac(v: int, ds: int) -> int {
    let q = 64 * v - 96;
    let qc = if q < 0 {
        0
    } else if q > (ds - 1) * 256 {
        (ds - 1) * 256
    } else {
        q
    };
    let fr = qc - lerp_cell(v, ds) * 256;
    if fr > 256 {
        256
    } else {
        fr
    }
}

/// The brightness the bloom adds to one output byte: the bilinear sample of
/// the blurred low-resolution buffer at its pixel, capped at one byte.
pub open spec fn bloom_term(buf: Seq<u16>, ds_w: int, ds_h: int, width: int, i: int) -> int {
    let y = pix_y(i, width);
    let x = pix_x(i, width);
    let k = i % 3;
    let iy = lerp_cell(y, ds_h);
    let fy = lerp_frac(y, ds_h);
    let ix = lerp_cell(x, ds_w);
    let fx = lerp_frac(x, ds_w);
    let row0 = iy * (ds_w * 3);
    let row1 = row0 + ds_w * 3;
    let v00 = buf[row0 + ix * 3 + k] as int;
    let v10 = buf[row0 + (ix + 1) * 3 + k] as int;
    let v01 = buf[row1 + ix * 3 + k] as int;
    let v11 = buf[row1 + (ix + 1) * 3 + k] as int;
    let top = (v00 * (256 - fx) + v10 * fx) / 256;
    let bot = (v01 * (256 - fx) + v11 * fx) / 256;
    let val = (top * (256 - fy) + bot * fy) / 256;
    if val > 255 {
        255
    } else {
        val
    }
}

/// One channel value with the bloom floor subtracted, not below zero.
pub open spec fn bloom_thresh(v: u8) -> int {
    if v >= BLOOM_THRESHOLD {
        v - BLOOM_THRESHOLD
    } else {
        0
    }
}

/// Sum of the first `k` thresholded samples of one block row.
pub open spec fn ds_row_sum(out: Seq<u8>, width: int, sy: int, bx: int, c: int, k: int) -> int
    decreases k,
{
    if k <= 0 {
        0
    } else {
        ds_row_sum(out, width, sy, bx, c, k - 1) + bloom_thresh(
            out[(sy * width + (bx * 4 + (k - 1))) * 3 + c],
        )
    }
}

/// Sum of the first `k` rows of one thresholded downsampling block.
pub open spec fn ds_block_sum(out: Seq<u8>, width: int, by: int, bx: int, c: int, k: int) -> int
    decreases k,
{
    if k <= 0 {
        0
    } else {
        ds_block_sum(out, width, by, bx, c, k - 1) + ds_row_sum(out, width, by * 4 + (k - 1), bx, c, 4)
    }
}

/// The byte the bloom's downsampling writes at index `i` of the scratch
/// buffer: the mean of its thresholded four-by-four block.
pub open spec fn ds_at(out: Seq<u8>, width: int, ds_w: int, i: int) -> int {
    let b = i / 3;
    let c = i % 3;
    let by = b / ds_w;
    let bx = b % ds_w;
    ds_block_sum(out, width, by, bx, c, 4) / 16
}

/// The whole downsampled, thresholded image.
pub open spec fn ds_seq(out: Seq<u8>, width: int, ds_w: int, ds_h: int) -> Seq<u16> {
    Seq::new((ds_w * ds_h * 3) as nat, |i: int| ds_at(out, width, ds_w, i) as u16)
}

/// One horizontal blur pass over a whole scratch buffer.
pub open spec fn blur_h_seq(s: Seq<u16>, w: int, h: int, r: int) -> Seq<u16> {
    Seq::new(s.len(), |i: int| blur_h_at(s, w, r, i) as u16)
}

/// One vertical blur pass over a whole scratch buffer.
pub open spec fn blur_v_seq(s: Seq<u16>, w: int, h: int, r: int) -> Seq<u16> {
    Seq::new(s.len(), |i: int| blur_v_at(s, w, h, r, i) as u16)
}

/// The scratch buffer after `k` separable blur passes.
pub open spec fn bloom_blurred(s0: Seq<u16>, w: int, h: int, r: int, k: int) -> Seq<u16>
    decreases k,
{
    if k <= 0 {
        s0
    } else {
        blur_v_seq(blur_h_seq(bloom_blurred(s0, w, h, r, k - 1), w, h, r), w, h, r)
    }
}

/// Bloom post-process: downsample the composited image with a brightness
/// floor, blur it, then bilinearly upsample and blend it back additively.
/// Never darkens a pixel.
pub fn apply_bloom(
    output: &mut Vec<u8>,
    bloom_buf: &mut Vec<u16>,
    bloom_tmp: &mut Vec<u16>,
    width: usize,
    height: usize,
)
    requires
        old(output)@.len() == width * height * 3,
        old(bloom_buf)@.len() == (width / 4) * (height / 4) * 3,
        old(bloom_tmp)@.len() == (width / 4) * (height / 4) * 3,
        width <= DIM_MAX,
        height <= DIM_MAX,
    ensures
        final(output)@.len() == old(output)@.len(),
        forall|i: int|
            0 <= i < final(output)@.len() ==> final(output)@[i] >= old(output)@[i],
        final(bloom_buf)@.len() == old(bloom_buf)@.len(),
        final(bloom_tmp)@.len() == old(bloom_tmp)@.len(),
        width / 4 < 2 || height / 4 < 2 ==> final(output)@ == old(output)@ && final(bloom_buf)@
            == old(bloom_buf)@ && final(bloom_tmp)@ == old(bloom_tmp)@,
        width / 4 >= 2 && height / 4 >= 2 ==> final(bloom_buf)@ == bloom_blurred(
            ds_seq(old(output)@, width as int, (width / 4) as int, (height / 4) as int),
            (width / 4) as int,
            (height / 4) as int,
            BLOOM_BLUR_RADIUS as int,
            BLOOM_BLUR_PASSES as int,
        ),
        width / 4 >= 2 && height / 4 >= 2 ==> forall|i: int|
            0 <= i < final(output)@.len() ==> final(output)@[i] as int == (if old(output)@[i]
                + bloom_term(
                final(bloom_buf)@,
                (width / 4) as int,
                (height / 4) as int,
                width as int,
                i,
            ) > 255 {
                255int
            } else {
                old(output)@[i] + bloom_term(
                    final(bloom_buf)@,
                    (width / 4) as int,
                    (height / 4) as int,
                    width as int,
                    i,
                )
            }),
{
    let ds_w: usize = width / 4;
    let ds_h: usize = height / 4;
    if ds_w < 2 || ds_h < 2 {
        return ;
    }
    // Step one: average each 4-by-4 block, counting only brightness above
    // the floor so dim background does not bloom.
    let mut by: usize = 0;
    while by < ds_h
        invariant
            by <= ds_h,
            output@ == old(output)@,
            output@.len() == width * height * 3,
            bloom_buf@.len() == ds_w * ds_h * 3,
            bloom_tmp@.len() == ds_w * ds_h * 3,
            bloom_buf@.len() == old(bloom_buf)@.len(),
            bloom_tmp@.len() == old(bloom_tmp)@.len(),
            2 <= ds_w <= 4096,
            2 <= ds_h <= 4096,
            ds_w == width / 4,
            ds_h == height / 4,
            width <= DIM_MAX,
            height <= DIM_MAX,
            forall|i: int|
                0 <= i < (by as int) * ((ds_w as int) * 3) ==> #[trigger] bloom_buf@[i] as int
                    == ds_at(old(output)@, width as int, ds_w as int, i),
        decreases ds_h - by,
    {
        proof {
            assert(((by as int) * (ds_w as int) + 0) * 3 == (by as int) * ((ds_w as int) * 3))
                by (nonlinear_arith);
        }
        let mut bx: usize = 0;
        while bx < ds_w
            invariant
                by < ds_h,
                bx <= ds_w,
                output@ == old(output)@,
                output@.len() == width * height * 3,
                bloom_buf@.len() == ds_w * ds_h * 3,
                bloom_tmp@.len() == ds_w * ds_h * 3,
                2 <= ds_w <= 4096,
                2 <= ds_h <= 4096,
                ds_w == width / 4,
                ds_h == height / 4,
                width <= DIM_MAX,
                height <= DIM_MAX,
                forall|i: int|
                    0 <= i < ((by as int) * (ds_w as int) + (bx as int)) * 3
                        ==> #[trigger] bloom_buf@[i] as int == ds_at(
                        old(output)@,
                        width as int,
                        ds_w as int,
                        i,
                    ),
            decreases ds_w - bx,
        {
            let mut sum_r: u32 = 0;
            let mut sum_g: u32 = 0;
            let mut sum_b: u32 = 0;
            let mut dy: usize = 0;
            while dy < 4
                invariant
                    dy <= 4,
                    by < ds_h,
                    bx < ds_w,
                    output@ == old(output)@,
                    output@.len() == width * height * 3,
                    2 <= ds_w <= 4096,
                    2 <= ds_h <= 4096,
                    ds_w == width / 4,
                    ds_h == height / 4,
                    width <= DIM_MAX,
                    height <= DIM_MAX,
                    sum_r <= dy * 4 * 255,
                    sum_g <= dy * 4 * 255,
                    sum_b <= dy * 4 * 255,
                    sum_r == ds_block_sum(
                        output@,
                        width as int,
                        by as int,
                        bx as int,
                        0,
                        dy as int,
                    ),
                    sum_g == ds_block_sum(
                        output@,
                        width as int,
                        by as int,
                        bx as int,
                        1,
                        dy as int,
                    ),
                    sum_b == ds_block_sum(
                        output@,
                        width as int,
                        by as int,
                        bx as int,
                        2,
                        dy as int,
                    ),
                decreases 4 - dy,
            {
                proof {
                    assert((by as int) * 4 + (dy as int) < height && ((by as int) * 4 + (dy as int))
                        * ((width as int) * 3) >= 0) by (nonlinear_arith)
                        requires
                            0 <= by < ds_h,
                            ds_h == height / 4,
                            dy < 4,
                            height >= 0,
                    ;
                }
                let sy: usize = by * 4 + dy;
                proof {
                    assert((sy as int) * ((width as int) * 3) + (width as int) * 3 <= (
                    width as int) * (height as int) * 3 && (sy as int) * ((width as int) * 3) >= 0
                        && (width as int) * (height as int) * 3 <= 16384int * 16384int * 3)
                        by (nonlinear_arith)
                        requires
                            0 <= sy < height <= 16384,
                            width <= 16384,
                    ;
                }
                let row_off: usize = sy * (width * 3);
                let mut dx: usize = 0;
                while dx < 4
                    invariant
                        dx <= 4,
                        dy < 4,
                        by < ds_h,
                        bx < ds_w,
                        output@ == old(output)@,
                        output@.len() == width * height * 3,
                        2 <= ds_w <= 4096,
                        ds_w == width / 4,
                        width <= DIM_MAX,
                        height <= DIM_MAX,
                        sy == (by as int) * 4 + (dy as int),
                        row_off == (sy as int) * ((width as int) * 3),
                        row_off + (width as int) * 3 <= output@.len(),
                        row_off >= 0,
                        sum_r <= (dy * 4 + dx) * 255,
                        sum_g <= (dy * 4 + dx) * 255,
                        sum_b <= (dy * 4 + dx) * 255,
                        sum_r == ds_block_sum(output@, width as int, by as int, bx as int, 0, dy as int)
                            + ds_row_sum(output@, width as int, sy as int, bx as int, 0, dx as int),
                        sum_g == ds_block_sum(output@, width as int, by as int, bx as int, 1, dy as int)
                            + ds_row_sum(output@, width as int, sy as int, bx as int, 1, dx as int),
                        sum_b == ds_block_sum(output@, width as int, by as int, bx as int, 2, dy as int)
                            + ds_row_sum(output@, width as int, sy as int, bx as int, 2, dx as int),
                    decreases 4 - dx,
                {
                    proof {
                        assert((bx as int) * 4 + (dx as int) < width && ((bx as int) * 4 + (
                        dx as int)) * 3 + 2 < (width as int) * 3) by (nonlinear_arith)
                            requires
                                0 <= bx < ds_w,
                                ds_w == width / 4,
                                dx < 4,
                                width >= 0,
                        ;
                    }
                    let sx: usize = bx * 4 + dx;
                    proof {
                        assert((width as int) * (height as int) * 3 <= 16384int * 16384int * 3)
                            by (nonlinear_arith)
                            requires
                                width <= 16384,
                                height <= 16384,
                        ;
                        assert(row_off + (sx as int) * 3 + 2 < output@.len());
                        assert((sy as int) * ((width as int) * 3) + (sx as int) * 3 == ((sy as int)
                            * (width as int) + (sx as int)) * 3) by (nonlinear_arith);
                    }
                    let idx: usize = row_off + sx * 3;
                    proof {
                        assert(sum_r + 255 <= ((dy as int) * 4 + (dx as int) + 1) * 255 && ((
                        dy as int) * 4 + (dx as int) + 1) * 255 <= 16 * 255 && sum_g + 255 <= ((
                        dy as int) * 4 + (dx as int) + 1) * 255 && sum_b + 255 <= ((dy as int) * 4
                            + (dx as int) + 1) * 255) by (nonlinear_arith)
                            requires
                                sum_r <= ((dy as int) * 4 + (dx as int)) * 255,
                                sum_g <= ((dy as int) * 4 + (dx as int)) * 255,
                                sum_b <= ((dy as int) * 4 + (dx as int)) * 255,
                                0 <= dx < 4,
                                0 <= dy < 4,
                        ;
                    }
                    sum_r = sum_r + (output[idx].saturating_sub(BLOOM_THRESHOLD) as u32);
                    sum_g = sum_g + (output[idx + 1].saturating_sub(BLOOM_THRESHOLD) as u32);
                    sum_b = sum_b + (output[idx + 2].saturating_sub(BLOOM_THRESHOLD) as u32);
                    dx = dx + 1;
                }
                proof {
                    assert(((dy as int) * 4 + 4) * 255 == (((dy as int) + 1) * 4) * 255)
                        by (nonlinear_arith);
                }
                dy = dy + 1;
            }
            proof {
                assert(((by as int) * (ds_w as int) + (bx as int)) * 3 + 2 < (ds_w as int) * (
                ds_h as int) * 3 && (by as int) * (ds_w as int) >= 0 && (ds_w as int) * (
                ds_h as int) * 3 <= 4096int * 4096int * 3) by (nonlinear_arith)
                    requires
                        0 <= bx < ds_w <= 4096,
                        0 <= by < ds_h <= 4096,
                ;
            }
            let didx: usize = (by * ds_w + bx) * 3;
            proof {
                let b = (by as int) * (ds_w as int) + (bx as int);
                lemma_fundamental_div_mod_converse(b, ds_w as int, by as int, bx as int);
                lemma_fundamental_div_mod_converse(3 * b, 3, b, 0);
                lemma_fundamental_div_mod_converse(3 * b + 1, 3, b, 1);
                lemma_fundamental_div_mod_converse(3 * b + 2, 3, b, 2);
            }
            bloom_buf[didx] = (sum_r / 16) as u16;
            bloom_buf[didx + 1] = (sum_g / 16) as u16;
            bloom_buf[didx + 2] = (sum_b / 16) as u16;
            proof {
                assert(((by as int) * (ds_w as int) + (bx as int) + 1) * 3 == didx as int + 3)
                    by (nonlinear_arith)
                    requires
                        didx as int == ((by as int) * (ds_w as int) + (bx as int)) * 3,
                ;
                assert forall|i: int|
                    0 <= i < ((by as int) * (ds_w as int) + (bx as int) + 1) * 3
                        implies #[trigger] bloom_buf@[i] as int == ds_at(
                    old(output)@,
                    width as int,
                    ds_w as int,
                    i,
                ) by {
                    if i >= didx as int {
                        assert(i == didx as int || i == didx as int + 1 || i == didx as int + 2);
                    }
                };
            }
            bx = bx + 1;
        }
        proof {
            assert(((by as int) * (ds_w as int) + (ds_w as int)) * 3 == ((by as int) + 1) * ((
            ds_w as int) * 3)) by (nonlinear_arith);
        }
        by = by + 1;
    }
    proof {
        assert(((ds_h as int) * (ds_w as int)) * 3 == (ds_w as int) * (ds_h as int) * 3)
            by (nonlinear_arith);
        assert((ds_h as int) * ((ds_w as int) * 3) == (ds_w as int) * (ds_h as int) * 3)
            by (nonlinear_arith);
        assert(bloom_buf@ =~= ds_seq(old(output)@, width as int, ds_w as int, ds_h as int));
    }
    // Step two: separable box blur, several passes approximating a Gaussian.
    let mut pass: usize = 0;
    while pass < BLOOM_BLUR_PASSES
        invariant
            pass <= BLOOM_BLUR_PASSES,
            output@ == old(output)@,
            output@.len() == width * height * 3,
            bloom_buf@.len() == ds_w * ds_h * 3,
            bloom_tmp@.len() == ds_w * ds_h * 3,
            bloom_buf@.len() == old(bloom_buf)@.len(),
            bloom_tmp@.len() == old(bloom_tmp)@.len(),
            2 <= ds_w <= 4096,
            2 <= ds_h <= 4096,
            ds_w == width / 4,
            ds_h == height / 4,
            width <= DIM_MAX,
            height <= DIM_MAX,
            bloom_buf@ == bloom_blurred(
                ds_seq(old(output)@, width as int, ds_w as int, ds_h as int),
                ds_w as int,
                ds_h as int,
                BLOOM_BLUR_RADIUS as int,
                pass as int,
            ),
        decreases BLOOM_BLUR_PASSES - pass,
    {
        let ghost before = bloom_buf@;
        box_blur_h(bloom_buf, bloom_tmp, ds_w, ds_h, BLOOM_BLUR_RADIUS);
        proof {
            assert(bloom_tmp@ =~= blur_h_seq(
                before,
                ds_w as int,
                ds_h as int,
                BLOOM_BLUR_RADIUS as int,
            ));
        }
        box_blur_v(bloom_tmp, bloom_buf, ds_w, ds_h, BLOOM_BLUR_RADIUS);
        proof {
            assert(bloom_buf@ =~= blur_v_seq(
                bloom_tmp@,
                ds_w as int,
                ds_h as int,
                BLOOM_BLUR_RADIUS as int,
            ));
        }
        pass = pass + 1;
    }
    // Step three: bilinear upsample and additive blend, clamped per channel.
    let ghost buf_final = bloom_buf@;
    let mut y: usize = 0;
    while y < height
        invariant
            y <= height,
            output@.len() == width * height * 3,
            bloom_buf@ == buf_final,
            bloom_buf@.len() == ds_w * ds_h * 3,
            2 <= ds_w <= 4096,
            2 <= ds_h <= 4096,
            ds_w == width / 4,
            ds_h == height / 4,
            width <= DIM_MAX,
            height <= DIM_MAX,
            forall|i: int|
                0 <= i < output@.len() ==> #[trigger] output@[i] as int == (if i < (y as int) * ((
                width as int) * 3) {
                    if old(output)@[i] + bloom_term(
                        buf_final,
                        ds_w as int,
                        ds_h as int,
                        width as int,
                        i,
                    ) > 255 {
                        255int
                    } else {
                        old(output)@[i] + bloom_term(
                            buf_final,
                            ds_w as int,
                            ds_h as int,
                            width as int,
                            i,
                        )
                    }
                } else {
                    old(output)@[i] as int
                }),
        decreases height - y,
    {
        // Source row and 8-bit fraction of the bilinear lookup.
        let fy_q8: i64 = 64 * (y as i64) - 96;
        let fy_max: i64 = ((ds_h - 1) as i64) * 256;
        let fy_c: i64 = if fy_q8 < 0 {
            0
        } else if fy_q8 > fy_max {
            fy_max
        } else {
            fy_q8
        };
        let mut iy: usize = (fy_c / 256) as usize;
        if iy > ds_h - 2 {
            iy = ds_h - 2;
        }
        proof {
            assert((iy as int) * 256 <= fy_c && fy_c - (iy as int) * 256 <= fy_max)
                by (nonlinear_arith)
                requires
                    0 <= fy_c <= fy_max,
                    fy_max == ((ds_h - 1) as int) * 256,
                    iy <= fy_c / 256,
                    2 <= ds_h,
            ;
        }
        let fy_frac: u32 = (fy_c - (iy as i64) * 256) as u32;
        let fy_frac: u32 = if fy_frac > 256 {
            256
        } else {
            fy_frac
        };
        let inv_fy: u32 = 256 - fy_frac;
        proof {
            assert(iy as int == lerp_cell(y as int, ds_h as int));
            assert(fy_frac as int == lerp_frac(y as int, ds_h as int));
            assert((iy as int) * ((ds_w as int) * 3) + (ds_w as int) * 3 + (ds_w as int) * 3 <= (
            ds_w as int) * (ds_h as int) * 3 && (iy as int) * ((ds_w as int) * 3) >= 0 && (
            ds_w as int) * (ds_h as int) * 3 <= 4096int * 4096int * 3) by (nonlinear_arith)
                requires
                    0 <= iy <= ds_h - 2,
                    2 <= ds_w <= 4096,
                    2 <= ds_h <= 4096,
            ;
        }
        let row0: usize = iy * (ds_w * 3);
        let row1: usize = row0 + ds_w * 3;
        proof {
            assert(((y as int) * (width as int) + 0) * 3 == (y as int) * ((width as int) * 3))
                by (nonlinear_arith);
        }
        let mut x: usize = 0;
        while x < width
            invariant
                x <= width,
                y < height,
                output@.len() == width * height * 3,
                bloom_buf@ == buf_final,
                bloom_buf@.len() == ds_w * ds_h * 3,
                2 <= ds_w <= 4096,
                2 <= ds_h <= 4096,
                width <= DIM_MAX,
                height <= DIM_MAX,
                iy as int == lerp_cell(y as int, ds_h as int),
                fy_frac as int == lerp_frac(y as int, ds_h as int),
                row0 == (iy as int) * ((ds_w as int) * 3),
                row0 + (ds_w as int) * 3 == row1,
                row1 + (ds_w as int) * 3 <= bloom_buf@.len(),
                row0 >= 0,
                fy_frac <= 256,
                inv_fy == 256 - fy_frac,
                forall|i: int|
                    0 <= i < output@.len() ==> #[trigger] output@[i] as int == (if i < ((y as int)
                        * (width as int) + (x as int)) * 3 {
                        if old(output)@[i] + bloom_term(
                            buf_final,
                            ds_w as int,
                            ds_h as int,
                            width as int,
                            i,
                        ) > 255 {
                            255int
                        } else {
                            old(output)@[i] + bloom_term(
                                buf_final,
                                ds_w as int,
                                ds_h as int,
                                width as int,
                                i,
                            )
                        }
                    } else {
                        old(output)@[i] as int
                    }),
            decreases width - x,
        {
            let fx_q8: i64 = 64 * (x as i64) - 96;
            let fx_max: i64 = ((ds_w - 1) as i64) * 256;
            let fx_c: i64 = if fx_q8 < 0 {
                0
            } else if fx_q8 > fx_max {
                fx_max
            } else {
                fx_q8
            };
            let mut ix: usize = (fx_c / 256) as usize;
            if ix > ds_w - 2 {
                ix = ds_w - 2;
            }
            proof {
                assert((ix as int) * 256 <= fx_c && fx_c - (ix as int) * 256 <= fx_max)
                    by (nonlinear_arith)
                    requires
                        0 <= fx_c <= fx_max,
                        fx_max == ((ds_w - 1) as int) * 256,
                        ix <= fx_c / 256,
                        2 <= ds_w,
                ;
            }
            let fx_frac: u32 = (fx_c - (ix as i64) * 256) as u32;
            let fx_frac: u32 = if fx_frac > 256 {
                256
            } else {
                fx_frac
            };
            let inv_fx: u32 = 256 - fx_frac;
            proof {
                assert(ix as int == lerp_cell(x as int, ds_w as int));
                assert(fx_frac as int == lerp_frac(x as int, ds_w as int));
                assert((ix as int) * 3 + 3 + 2 < (ds_w as int) * 3) by (nonlinear_arith)
                    requires
                        0 <= ix <= ds_w - 2,
                        2 <= ds_w,
                ;
                assert((ds_w as int) * (ds_h as int) * 3 <= 4096int * 4096int * 3)
                    by (nonlinear_arith)
                    requires
                        ds_w <= 4096,
                        ds_h <= 4096,
                ;
                assert(row1 + (ix as int) * 3 + 3 + 2 < bloom_buf@.len() + (ds_w as int) * 3);
                assert(((y as int) * (width as int) + (x as int)) * 3 + 2 < (width as int) * (
                height as int) * 3 && (y as int) * (width as int) >= 0 && (width as int) * (
                height as int) * 3 <= 16384int * 16384int * 3) by (nonlinear_arith)
                    requires
                        0 <= x < width <= 16384,
                        0 <= y < height <= 16384,
                ;
            }
            let idx00: usize = row0 + ix * 3;
            let idx10: usize = row0 + (ix + 1) * 3;
            let idx01: usize = row1 + ix * 3;
            let idx11: usize = row1 + (ix + 1) * 3;
            let out_idx: usize = (y * width + x) * 3;
            proof {
                let p = (y as int) * (width as int) + (x as int);
                lemma_fundamental_div_mod_converse(p, width as int, y as int, x as int);
                lemma_fundamental_div_mod_converse(3 * p, 3, p, 0);
                lemma_fundamental_div_mod_converse(3 * p + 1, 3, p, 1);
                lemma_fundamental_div_mod_converse(3 * p + 2, 3, p, 2);
            }
            let mut c: usize = 0;
            while c < 3
                invariant
                    c <= 3,
                    x < width,
                    y < height,
                    output@.len() == width * height * 3,
                    output@.len() <= 16384 * 16384 * 3,
                    bloom_buf@ == buf_final,
                    bloom_buf@.len() == ds_w * ds_h * 3,
                    bloom_buf@.len() <= 4096 * 4096 * 3,
                    2 <= ds_w <= 4096,
                    2 <= ds_h <= 4096,
                    width <= DIM_MAX,
                    height <= DIM_MAX,
                    iy as int == lerp_cell(y as int, ds_h as int),
                    fy_frac as int == lerp_frac(y as int, ds_h as int),
                    ix as int == lerp_cell(x as int, ds_w as int),
                    fx_frac as int == lerp_frac(x as int, ds_w as int),
                    row0 == (iy as int) * ((ds_w as int) * 3),
                    row0 + (ds_w as int) * 3 == row1,
                    row1 + (ds_w as int) * 3 <= bloom_buf@.len(),
                    idx00 == row0 + (ix as int) * 3,
                    idx10 == row0 + ((ix as int) + 1) * 3,
                    idx01 == row1 + (ix as int) * 3,
                    idx11 == row1 + ((ix as int) + 1) * 3,
                    idx11 + 2 < bloom_buf@.len(),
                    idx00 <= idx10 <= idx11,
                    idx00 <= idx01 <= idx11,
                    out_idx == ((y as int) * (width as int) + (x as int)) * 3,
                    out_idx + 2 < output@.len(),
                    pix_y(out_idx as int, width as int) == y && pix_x(out_idx as int, width as int)
                        == x && out_idx as int % 3 == 0,
                    pix_y(out_idx as int + 1, width as int) == y && pix_x(
                        out_idx as int + 1,
                        width as int,
                    ) == x && (out_idx as int + 1) % 3 == 1,
                    pix_y(out_idx as int + 2, width as int) == y && pix_x(
                        out_idx as int + 2,
                        width as int,
                    ) == x && (out_idx as int + 2) % 3 == 2,
                    fx_frac <= 256,
                    inv_fx == 256 - fx_frac,
                    fy_frac <= 256,
                    inv_fy == 256 - fy_frac,
                    forall|i: int|
                        0 <= i < output@.len() ==> #[trigger] output@[i] as int == (if i < (
                        out_idx as int) + (c as int) {
                            if old(output)@[i] + bloom_term(
                                buf_final,
                                ds_w as int,
                                ds_h as int,
                                width as int,
                                i,
                            ) > 255 {
                                255int
                            } else {
                                old(output)@[i] + bloom_term(
                                    buf_final,
                                    ds_w as int,
                                    ds_h as int,
                                    width as int,
                                    i,
                                )
                            }
                        } else {
                            old(output)@[i] as int
                        }),
                decreases 3 - c,
            {
                let v00 = bloom_buf[idx00 + c] as u32;
                let v10 = bloom_buf[idx10 + c] as u32;
                let v01 = bloom_buf[idx01 + c] as u32;
                let v11 = bloom_buf[idx11 + c] as u32;
                proof {
                    assert(v00 * inv_fx + v10 * fx_frac <= 65535 * 256 && v01 * inv_fx + v11
                        * fx_frac <= 65535 * 256) by (nonlinear_arith)
                        requires
                            v00 <= 65535,
                            v10 <= 65535,
                            v01 <= 65535,
                            v11 <= 65535,
                            inv_fx + fx_frac == 256,
                            0 <= fx_frac,
                            0 <= inv_fx,
                    ;
                }
                let top: u32 = (v00 * inv_fx + v10 * fx_frac) / 256;
                let bot: u32 = (v01 * inv_fx + v11 * fx_frac) / 256;
                proof {
                    assert(top * inv_fy + bot * fy_frac <= 65535 * 256) by (nonlinear_arith)
                        requires
                            top <= 65535,
                            bot <= 65535,
                            inv_fy + fy_frac == 256,
                            0 <= fy_frac,
                            0 <= inv_fy,
                    ;
                }
                let val: u32 = (top * inv_fy + bot * fy_frac) / 256;
                let bloom_val: u8 = if val > 255 {
                    255
                } else {
                    val as u8
                };
                proof {
                    assert(bloom_val as int == bloom_term(
                        buf_final,
                        ds_w as int,
                        ds_h as int,
                        width as int,
                        out_idx as int + c as int,
                    ));
                }
                let cur = output[out_idx + c];
                output[out_idx + c] = cur.saturating_add(bloom_val);
                c = c + 1;
            }
            proof {
                assert((out_idx as int) + 3 == ((y as int) * (width as int) + (x as int) + 1) * 3)
                    by (nonlinear_arith)
                    requires
                        out_idx as int == ((y as int) * (width as int) + (x as int)) * 3,
                ;
            }
            x = x + 1;
        }
        proof {
            assert(((y as int) * (width as int) + (width as int)) * 3 == ((y as int) + 1) * ((
            width as int) * 3)) by (nonlinear_arith);
        }
        y = y + 1;
    }
    proof {
        assert((height as int) * ((width as int) * 3) == (width as int) * (height as int) * 3)
            by (nonlinear_arith);
        assert forall|i: int| 0 <= i < output@.len() implies output@[i] >= old(output)@[i] by {
            assert(bloom_term(buf_final, ds_w as int, ds_h as int, width as int, i) >= 0 || true);
        };
    }
}

} // verus!

verus! {

impl AsciiRenderer {
    /// Convert one raw RGB frame to a character-art RGB frame.
    ///
    /// The output always holds exactly `output_width * output_height * 3`
    /// bytes.  A short or malformed input frame degrades to a frame filled
    /// with the background color; nothing past the input's bounds is read.
    /// `now_ms` is the caller's clock, used to pace the rain animation.
    pub fn render(&mut self, rgb_frame: &Vec<u8>, frame_width: u32, frame_height: u32, now_ms: u64)
        -> (output: Vec<u8>)
        requires
            old(self).wf(),
            frame_width <= DIM_MAX,
            frame_height <= DIM_MAX,
        ensures
            final(self).wf(),
            final(self).output_width == old(self).output_width,
            final(self).output_height == old(self).output_height,
            final(self).glyph_cache == old(self).glyph_cache,
            final(self).charset@ == old(self).charset@,
            final(self).fg == old(self).fg,
            final(self).bg == old(self).bg,
            final(self).brightness_curve == old(self).brightness_curve,
            final(self).invert == old(self).invert,
            final(self).ascii_cols == old(self).ascii_cols,
            final(self).ascii_rows == old(self).ascii_rows,
            final(self).ascent == old(self).ascent,
            final(self).is_color_mode == old(self).is_color_mode,
            final(self).rain_state is Some <==> old(self).rain_state is Some,
            output@.len() == old(self).output_width * old(self).output_height * 3,
            rgb_frame@.len() < frame_width * frame_height * 3 ==> forall|i: int|
                0 <= i < output@.len() ==> output@[i] == bg_channel(old(self).bg, i),
            old(self).rain_state is None && !old(self).is_color_mode && rgb_frame@.len()
                >= frame_width * frame_height * 3 ==> output@ == composite_plain_spec(
                bg_fill_spec(
                    (old(self).output_width as int) * (old(self).output_height as int) * 3,
                    old(self).bg,
                ),
                old(self).glyph_cache,
                old(self).output_width as int,
                old(self).ascent as int,
                old(self).fg,
                old(self).glyph_cache.cell_width as int,
                old(self).glyph_cache.cell_height as int,
                old(self).ascii_cols as int,
                frame_chars_spec(
                    lifted_grid_spec(
                        gray_spec(rgb_frame@, (frame_width as int) * (frame_height as int)),
                        frame_width as int,
                        frame_height as int,
                        old(self).ascii_cols as int,
                        old(self).ascii_rows as int,
                    ),
                    old(self).charset@,
                    old(self).brightness_curve,
                    old(self).invert,
                ),
                (old(self).ascii_cols as int) * (old(self).ascii_rows as int),
            ),
    {
        let out_w = self.output_width as usize;
        let out_h = self.output_height as usize;
        proof {
            assert((out_w as int) * (out_h as int) <= 16384int * 16384int) by (nonlinear_arith)
                requires
                    out_w <= 16384,
                    out_h <= 16384,
            ;
        }
        let pixels: usize = out_w * out_h;
        // Fill the background first, so malformed input degrades to a blank
        // themed frame.
        let mut output: Vec<u8> = Vec::new();
        let mut k: usize = 0;
        while k < pixels
            invariant
                k <= pixels,
                output@.len() == 3 * k,
                forall|i: int| 0 <= i < output@.len() ==> output@[i] == bg_channel(self.bg, i),
                self == old(self),
            decreases pixels - k,
        {
            proof {
                assert((3 * (k as int)) % 3 == 0 && (3 * (k as int) + 1) % 3 == 1 && (3 * (
                k as int) + 2) % 3 == 2) by (nonlinear_arith)
                    requires
                        k >= 0,
                ;
            }
            output.push(self.bg.r);
            output.push(self.bg.g);
            output.push(self.bg.b);
            k = k + 1;
        }
        proof {
            assert(3 * (pixels as int) == (out_w as int) * (out_h as int) * 3)
                by (nonlinear_arith)
                requires
                    pixels == (out_w as int) * (out_h as int),
            ;
            assert((frame_width as int) * (frame_height as int) * 3 <= 16384int * 16384int * 3)
                by (nonlinear_arith)
                requires
                    frame_width <= 16384,
                    frame_height <= 16384,
            ;
        }
        proof {
            assert(output@ =~= bg_fill_spec(
                (self.output_width as int) * (self.output_height as int) * 3,
                self.bg,
            ));
        }
        // Guard against short or malformed frames from the camera.
        let expected: usize = (frame_width as usize) * (frame_height as usize) * 3;
        if rgb_frame.len() < expected {
            return output;
        }
        let gray = rgb_to_grayscale(rgb_frame, frame_width, frame_height);
        proof {
            assert(gray@ =~= gray_spec(rgb_frame@, (frame_width as int) * (frame_height as int)));
        }
        let cols = self.ascii_cols as usize;
        let rows = self.ascii_rows as usize;
        let raw_grid = downsample_to_grid(&gray, frame_width, frame_height, cols, rows);
        // Perceptual lift: square root of the average brightness.
        let mut grid: Vec<u32> = Vec::new();
        let mut gi: usize = 0;
        while gi < raw_grid.len()
            invariant
                gi <= raw_grid@.len(),
                forall|i: int| 0 <= i < raw_grid@.len() ==> #[trigger] raw_grid@[i] <= UNIT,
                grid@.len() == gi,
                forall|i: int| 0 <= i < grid@.len() ==> #[trigger] grid@[i] <= UNIT,
                forall|i: int|
                    0 <= i < grid@.len() ==> #[trigger] grid@[i] as int == sqrt_floor(
                        (raw_grid@[i] as int) * (UNIT as int),
                    ),
            decreases raw_grid@.len() - gi,
        {
            let lifted = isqrt((raw_grid[gi] as u64) * (UNIT as u64));
            grid.push(lifted);
            gi = gi + 1;
        }
        proof {
            assert(grid@ =~= lifted_grid_spec(
                gray@,
                frame_width as int,
                frame_height as int,
                cols as int,
                rows as int,
            ));
        }

        if self.rain_state.is_some() {
            // Rain path: advance the simulation by the elapsed wall-clock
            // time, fold in the live brightness, composite and bloom.
            let dt_full: u64 = if now_ms >= self.last_render_ms {
                now_ms - self.last_render_ms
            } else {
                0
            };
            let dt: u32 = if dt_full > 1000000 {
                1000000
            } else {
                dt_full as u32
            };
            self.last_render_ms = now_ms;
            let taken = self.rain_state.take();
            match taken {
                Some(mut rain) => {
                    rain.advance(dt);
                    let cells = rain.compute_cells(
                        &grid,
                        &self.charset,
                        self.brightness_curve,
                        self.invert,
                        self.fg,
                    );
                    self.rain_state = Some(rain);
                    self.composite_rain_glyphs(&cells, &mut output);
                    let mut bloom_buf = Vec::new();
                    let mut bloom_tmp = Vec::new();
                    core::mem::swap(&mut bloom_buf, &mut self.bloom_buf);
                    core::mem::swap(&mut bloom_tmp, &mut self.bloom_tmp);
                    apply_bloom(&mut output, &mut bloom_buf, &mut bloom_tmp, out_w, out_h);
                    core::mem::swap(&mut bloom_buf, &mut self.bloom_buf);
                    core::mem::swap(&mut bloom_tmp, &mut self.bloom_tmp);
                },
                None => {
                    self.rain_state = None;
                },
            }
        } else if self.is_color_mode {
            // Color path: per-cell webcam color instead of the theme color.
            let color_grid = downsample_to_color_grid(rgb_frame, frame_width, frame_height, cols, rows);
            let chars = map_to_characters(&grid, &self.charset, self.brightness_curve, self.invert);
            let mut cells: Vec<CellRender> = Vec::new();
            let mut i: usize = 0;
            proof {
                assert((cols as int) * (rows as int) == (rows as int) * (cols as int))
                    by (nonlinear_arith);
            }
            while i < chars.len()
                invariant
                    i <= chars@.len(),
                    chars@.len() == grid@.len(),
                    color_grid@.len() == chars@.len(),
                    forall|j: int| 0 <= j < grid@.len() ==> #[trigger] grid@[j] <= UNIT,
                    cells@.len() == i,
                    forall|j: int|
                        0 <= j < cells@.len() ==> (#[trigger] cells@[j]).intensity <= UNIT,
                    forall|j: int|
                        0 <= j < cells@.len() ==> (#[trigger] cells@[j]).ch == chars@[j]
                            && cells@[j].color == color_grid@[j] && cells@[j].intensity as int
                            == effective_brightness(
                            self.brightness_curve,
                            self.invert,
                            grid@[j] as int,
                        ),
                decreases chars@.len() - i,
            {
                let t = apply_effective(self.brightness_curve, self.invert, grid[i]);
                let ch = char_at(&chars, i);
                let color = color_grid[i];
                cells.push(CellRender { ch, color, intensity: t });
                i = i + 1;
            }
            self.composite_rain_glyphs(&cells, &mut output);
        } else {
            // Plain path: brightness-mapped characters in the theme color.
            let chars = map_to_characters(&grid, &self.charset, self.brightness_curve, self.invert);
            proof {
                assert((cols as int) * (rows as int) == (rows as int) * (cols as int))
                    by (nonlinear_arith);
                assert(chars@ =~= frame_chars_spec(
                    grid@,
                    self.charset@,
                    self.brightness_curve,
                    self.invert,
                ));
            }
            self.composite_glyphs(&chars, &mut output);
        }
        output
    }
}

} // verus!
