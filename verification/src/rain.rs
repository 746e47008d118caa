//! The falling-rain simulation: per-column streams with bright active trails
//! and dim ghost trails, advanced by wall-clock time and rendered against a
//! live brightness grid.
//!
//! Positions are carried in milli-rows and speeds in milli-rows per second;
//! intensities are fixed-point values in `0 ..= UNIT`.

use vstd::prelude::*;

use crate::config::{
    char_index, char_index_spec, effective_brightness, BrightnessCurve, Rgb,
};
use crate::fixed::{scale_unit, UNIT};

verus! {

/// Largest supported grid side, in cells.
pub const GRID_MAX: u32 = 16384;

/// Largest trail or ghost length a stream can be created with.
pub const TRAIL_MAX: u32 = 5462;

/// Largest stream head position, in milli-rows, that survives retirement.
pub const POS_MAX: i64 = 30000000;

/// Ghost trails start at this intensity (0.18) right behind the active trail.
pub const GHOST_START: u32 = 180000;

/// The bright white-green color of a stream head.
pub open spec fn head_color_spec() -> Rgb {
    Rgb { r: 220, g: 255, b: 220 }
}

/// The bright white-green color of a stream head (distinct from trail green).
pub fn head_color() -> (c: Rgb)
    ensures
        c == head_color_spec(),
{
    Rgb { r: 220, g: 255, b: 220 }
}

/// Per-cell render instruction produced by the rain simulation.
pub struct CellRender {
    pub ch: char,
    pub color: Rgb,
    /// Brightness of the cell, in `0 ..= UNIT`.
    pub intensity: u32,
}

/// A single rain stream within a column.
pub struct RainStream {
    /// Row position of the stream head, in milli-rows; negative while the
    /// stream is still above the top edge.
    pub position: i64,
    /// Milli-rows per second, randomized per stream.
    pub speed: u32,
    /// Number of bright active trail rows behind the head.
    pub trail_length: u32,
    /// Number of dim ghost trail rows after the active trail (zero in
    /// classic mode).
    pub ghost_length: u32,
}

/// State for a single rain column; it may hold several concurrent streams.
pub struct RainColumn {
    /// Active streams in this column: one in classic mode, up to three in
    /// movie mode.
    pub streams: Vec<RainStream>,
    /// Random character index per row, shared across the column's streams.
    pub char_indices: Vec<u16>,
    /// Ticks until the next character mutation per row (movie mode only).
    pub char_timers: Vec<u8>,
    /// Ticks before another stream may spawn.
    pub spawn_cooldown: u16,
}

pub struct MatrixRainState {
    pub columns: Vec<RainColumn>,
    pub rows: u32,
    pub cols: u32,
    pub charset_len: usize,
    pub rng: u64,
    /// True for the matrix theme: multiple streams, ghost trails and
    /// character mutation.
    pub is_movie_mode: bool,
}

/// One step of the xorshift generator.
pub open spec fn xorshift_spec(x: u64) -> u64 {
    let a = x ^ (x << 13);
    let b = a ^ (a >> 7);
    b ^ (b << 17)
}

/// A nonzero state never collapses to zero: every step of the generator is
/// an invertible transformation.
pub proof fn lemma_xorshift_nonzero(x: u64)
    requires
        x != 0,
    ensures
        xorshift_spec(x) != 0,
{
    let a = x ^ (x << 13);
    let b = a ^ (a >> 7);
    let c = b ^ (b << 17);
    assert(x != 0 ==> (x ^ (x << 13)) != 0) by (bit_vector);
    assert(a != 0 ==> (a ^ (a >> 7)) != 0) by (bit_vector);
    assert(b != 0 ==> (b ^ (b << 17)) != 0) by (bit_vector);
}

/// Inline xorshift generator over 64 bits.
pub fn xorshift64(state: &mut u64) -> (r: u64)
    ensures
        r == xorshift_spec(*old(state)),
        *final(state) == r,
        *old(state) != 0 ==> r != 0,
{
    proof {
        if *state != 0 {
            lemma_xorshift_nonzero(*state);
        }
    }
    let mut x: u64 = *state;
    x = x ^ (x << 13u64);
    x = x ^ (x >> 7u64);
    x = x ^ (x << 17u64);
    *state = x;
    x
}

/// The head row a milli-row position stands for: division by a thousand,
/// rounded toward zero.
pub open spec fn head_row_spec(p: int) -> int {
    if p >= 0 {
        p / 1000
    } else {
        -((-p) / 1000)
    }
}

/// The head row of a stream position, rounding milli-rows toward zero.
pub fn head_row_of(p: i64) -> (r: i64)
    requires
        -100000000 <= p <= 100000000,
    ensures
        r == head_row_spec(p as int),
        -100000 <= r <= 100000,
{
    if p >= 0 {
        let q: i64 = p / 1000;
        q
    } else {
        let q: i64 = (-p) / 1000;
        -q
    }
}

/// Shortest trail a fresh stream may get: a sixth of the grid, at least three.
pub open spec fn min_trail_spec(rows: u32) -> int {
    if rows / 6 > 3 {
        (rows / 6) as int
    } else {
        3
    }
}

/// One past the longest trail a fresh stream may get: a third of the grid,
/// at least one more than the shortest.
pub open spec fn max_trail_spec(rows: u32) -> int {
    if rows / 3 > min_trail_spec(rows) + 1 {
        (rows / 3) as int
    } else {
        min_trail_spec(rows) + 1
    }
}

/// A well-formed stream: positive bounded trail, bounded ghost and speed,
/// and a position inside the simulated band.
pub open spec fn stream_wf(s: RainStream) -> bool {
    &&& 1 <= s.trail_length <= TRAIL_MAX
    &&& s.ghost_length <= TRAIL_MAX
    &&& 10000 <= s.speed <= 44990
    &&& -20000000 <= s.position <= POS_MAX
}

/// A well-formed column for a grid of `rows` rows.
pub open spec fn column_wf(c: RainColumn, rows: u32, movie: bool) -> bool {
    &&& c.char_indices.len() == rows
    &&& (movie ==> c.char_timers.len() == rows)
    &&& (!movie ==> c.char_timers.len() == 0)
    &&& 1 <= c.streams.len()
    &&& (movie ==> c.streams.len() <= 3)
    &&& (!movie ==> c.streams.len() <= 1)
    &&& (forall|i: int| 0 <= i < c.streams.len() ==> stream_wf(#[trigger] c.streams[i]))
    &&& (!movie ==> forall|i: int|
        0 <= i < c.streams.len() ==> (#[trigger] c.streams[i]).ghost_length == 0)
}

/// A stream after one tick's movement: the head advanced by `speed * dt`,
/// everything else unchanged.
pub open spec fn moved_stream(s: RainStream, dt: int) -> RainStream {
    RainStream {
        position: (s.position + s.speed * dt / 1000) as i64,
        speed: s.speed,
        trail_length: s.trail_length,
        ghost_length: s.ghost_length,
    }
}

/// A whole column's streams after one tick's movement, in order.
pub open spec fn moved_seq(streams: Seq<RainStream>, dt: int) -> Seq<RainStream> {
    Seq::new(streams.len(), |i: int| moved_stream(streams[i], dt))
}

/// Whether a stream survives retirement: its head row minus active and ghost
/// trail has not yet scrolled entirely past the bottom edge.
pub open spec fn stream_survives(s: RainStream, rows: u32) -> bool {
    head_row_spec(s.position as int) - s.trail_length - s.ghost_length <= rows
}

/// The surviving streams of a moved column, in their original order.
pub open spec fn retained_streams(moved: Seq<RainStream>, rows: u32) -> Seq<RainStream>
    decreases moved.len(),
{
    if moved.len() == 0 {
        Seq::empty()
    } else {
        let rest = retained_streams(moved.drop_last(), rows);
        if stream_survives(moved.last(), rows) {
            rest.push(moved.last())
        } else {
            rest
        }
    }
}

pub proof fn lemma_retained_len(moved: Seq<RainStream>, rows: u32)
    ensures
        retained_streams(moved, rows).len() <= moved.len(),
    decreases moved.len(),
{
    if moved.len() > 0 {
        lemma_retained_len(moved.drop_last(), rows);
    }
}

/// How one tick transforms a column's streams and its spawn cooldown: every
/// stream moves by `speed * dt`; streams whose whole trail passed the bottom
/// are retired; an emptied column respawns one fresh stream in the same
/// tick; otherwise a cooling column only counts its cooldown down, and a
/// cooled-down column below its capacity gains one fresh stream.  Every
/// spawn resets the cooldown into the rate-limiting window.
pub open spec fn column_advanced(
    oldc: RainColumn,
    newc: RainColumn,
    rows: u32,
    movie: bool,
    dt: int,
) -> bool {
    let kept = retained_streams(moved_seq(oldc.streams@, dt), rows);
    let maxs: int = if movie {
        3
    } else {
        1
    };
    if kept.len() == 0 {
        &&& newc.streams@.len() == 1
        &&& newc.streams@[0].position == 0
        &&& 20 <= newc.spawn_cooldown < 60
    } else if oldc.spawn_cooldown > 0 {
        &&& newc.streams@ == kept
        &&& newc.spawn_cooldown == oldc.spawn_cooldown - 1
    } else if kept.len() < maxs {
        &&& newc.streams@.len() == kept.len() + 1
        &&& newc.streams@.drop_last() == kept
        &&& newc.streams@.last().position == 0
        &&& 20 <= newc.spawn_cooldown < 60
    } else {
        &&& newc.streams@ == kept
        &&& newc.spawn_cooldown == 0
    }
}

impl MatrixRainState {
    /// The state's structural invariant.
    pub open spec fn wf(self) -> bool {
        &&& self.cols <= GRID_MAX
        &&& self.rows <= GRID_MAX
        &&& self.charset_len <= 65535
        &&& self.columns.len() == self.cols
        &&& (forall|i: int|
            0 <= i < self.columns.len() ==> column_wf(
                #[trigger] self.columns[i],
                self.rows,
                self.is_movie_mode,
            ))
    }

    /// Build the rain state for a grid, seeded explicitly so that a fixed
    /// seed and tick sequence reproduce the same animation.
    pub fn new(cols: u32, rows: u32, charset_len: usize, is_movie_mode: bool, seed: u64) -> (r:
        MatrixRainState)
        requires
            cols <= GRID_MAX,
            rows <= GRID_MAX,
            charset_len <= 65535,
        ensures
            r.wf(),
            r.cols == cols,
            r.rows == rows,
            r.charset_len == charset_len,
            r.is_movie_mode == is_movie_mode,
            r.columns.len() == cols,
            forall|i: int| 0 <= i < r.columns.len() ==> (#[trigger] r.columns[i]).streams.len() == 1,
            forall|i: int| 0 <= i < r.columns.len() ==> (#[trigger] r.columns[i]).spawn_cooldown < 60,
            charset_len > 0 ==> forall|i: int, j: int|
                0 <= i < r.columns.len() && 0 <= j < rows ==> (#[trigger] r.columns[i].char_indices@[j])
                    < charset_len,
            r.rng != 0,
    {
        proof {
            assert(seed | 1 != 0u64) by (bit_vector);
        }
        let mut rng: u64 = seed | 1;
        let mut columns: Vec<RainColumn> = Vec::new();
        let mut c: u32 = 0;
        while c < cols
            invariant
                c <= cols,
                rows <= GRID_MAX,
                charset_len <= 65535,
                columns.len() == c,
                rng != 0,
                forall|i: int|
                    0 <= i < columns.len() ==> column_wf(
                        #[trigger] columns[i],
                        rows,
                        is_movie_mode,
                    ),
                forall|i: int|
                    0 <= i < columns.len() ==> (#[trigger] columns[i]).streams.len() == 1,
                charset_len > 0 ==> forall|i: int, j: int|
                    0 <= i < columns.len() && 0 <= j < rows ==> (#[trigger] columns[i].char_indices@[j])
                        < charset_len,
            decreases cols - c,
        {
            let col = Self::new_column(&mut rng, rows, charset_len, is_movie_mode);
            columns.push(col);
            c = c + 1;
        }
        // Stagger initial dormancy and, for every third column, initial
        // position, so columns do not all start at once.
        let mut i: usize = 0;
        while i < columns.len()
            invariant
                rows <= GRID_MAX,
                charset_len <= 65535,
                columns.len() == cols,
                rng != 0,
                forall|j: int|
                    0 <= j < columns.len() ==> column_wf(
                        #[trigger] columns[j],
                        rows,
                        is_movie_mode,
                    ),
                forall|j: int|
                    0 <= j < columns.len() ==> (#[trigger] columns[j]).streams.len() == 1,
                forall|j: int| 0 <= j < i ==> (#[trigger] columns[j]).spawn_cooldown < 60,
                charset_len > 0 ==> forall|j: int, k: int|
                    0 <= j < columns.len() && 0 <= k < rows ==> (#[trigger] columns[j].char_indices@[k])
                        < charset_len,
            decreases columns.len() - i,
        {
            let stagger = (xorshift64(&mut rng) % 60) as u16;
            columns[i].spawn_cooldown = stagger;
            if i % 3 == 0 && rows > 0 && columns[i].streams.len() > 0 {
                let offset_rows: u64 = xorshift64(&mut rng) % (rows as u64);
                let p: i64 = -((offset_rows as i64) * 1000);
                columns[i].streams[0].position = p;
            }
            i = i + 1;
        }
        MatrixRainState { columns, rows, cols, charset_len, rng, is_movie_mode }
    }

    /// Build one fresh column with a single stream and randomized per-row
    /// character indices (and mutation timers in movie mode).
    fn new_column(rng: &mut u64, rows: u32, charset_len: usize, is_movie_mode: bool) -> (r:
        RainColumn)
        requires
            rows <= GRID_MAX,
            charset_len <= 65535,
        ensures
            column_wf(r, rows, is_movie_mode),
            r.streams.len() == 1,
            r.spawn_cooldown == 0,
            charset_len > 0 ==> forall|j: int|
                0 <= j < rows ==> (#[trigger] r.char_indices@[j]) < charset_len,
            *old(rng) != 0 ==> *final(rng) != 0,
    {
        let stream = Self::new_stream(rng, rows, is_movie_mode);
        let ghost rng0 = *rng;
        let mut char_indices: Vec<u16> = Vec::new();
        let mut i: u32 = 0;
        while i < rows
            invariant
                i <= rows,
                char_indices.len() == i,
                charset_len <= 65535,
                rng0 != 0 ==> *rng != 0,
                charset_len > 0 ==> forall|j: int|
                    0 <= j < i ==> (#[trigger] char_indices@[j]) < charset_len,
            decreases rows - i,
        {
            let idx: u16 = if charset_len > 0 {
                (xorshift64(rng) % (charset_len as u64)) as u16
            } else {
                0
            };
            char_indices.push(idx);
            i = i + 1;
        }
        let mut char_timers: Vec<u8> = Vec::new();
        if is_movie_mode {
            let mut j: u32 = 0;
            while j < rows
                invariant
                    j <= rows,
                    char_timers.len() == j,
                    rng0 != 0 ==> *rng != 0,
                decreases rows - j,
            {
                char_timers.push((xorshift64(rng) % 4 + 2) as u8);
                j = j + 1;
            }
        }
        let mut streams: Vec<RainStream> = Vec::new();
        streams.push(stream);
        RainColumn { streams, char_indices, char_timers, spawn_cooldown: 0 }
    }

    /// Draw a fresh stream: random speed, trail scaled to the grid height,
    /// and, in movie mode, a ghost trail of half to one trail length.
    fn new_stream(rng: &mut u64, rows: u32, is_movie_mode: bool) -> (r: RainStream)
        requires
            rows <= GRID_MAX,
        ensures
            stream_wf(r),
            r.position == 0,
            r.speed % 10 == 0,
            *old(rng) != 0 ==> *final(rng) != 0,
            min_trail_spec(rows) <= r.trail_length < max_trail_spec(rows),
            !is_movie_mode ==> r.ghost_length == 0,
            is_movie_mode ==> r.ghost_length <= r.trail_length && r.ghost_length >= (
            if r.trail_length / 2 > 1 {
                (r.trail_length / 2) as int
            } else {
                1int
            }) && r.ghost_length <= (if r.trail_length - 1 > 1 {
                (r.trail_length - 1) as int
            } else {
                1int
            }),
    {
        let speed: u32 = 10000 + ((xorshift64(rng) % 3500) as u32) * 10;
        let min_trail: u32 = if rows / 6 > 3 {
            rows / 6
        } else {
            3
        };
        let max_trail: u32 = if rows / 3 > min_trail + 1 {
            rows / 3
        } else {
            min_trail + 1
        };
        let trail_range: u32 = max_trail - min_trail;
        let modulus: u32 = if trail_range > 1 {
            trail_range
        } else {
            1
        };
        let trail_length: u32 = min_trail + ((xorshift64(rng) as u32) % modulus);
        let ghost_length: u32 = if is_movie_mode {
            let min_ghost = trail_length / 2;
            let spread = trail_length - min_ghost;
            let ghost_range: u32 = if spread > 1 {
                spread
            } else {
                1
            };
            let g = min_ghost + ((xorshift64(rng) as u32) % ghost_range);
            if g > 1 {
                g
            } else {
                1
            }
        } else {
            0
        };
        RainStream { position: 0, speed, trail_length, ghost_length }
    }
}

} // verus!

verus! {

/// Intensity of the active trail at distance `d` behind the head of a
/// stream with trail length `l`: quadratic decay `(1 - d/l)^2`.
pub open spec fn active_intensity_spec(d: int, l: int) -> int {
    ((l - d) * (l - d) * (UNIT as int)) / (l * l)
}

/// Intensity of the ghost trail `gd` rows into a ghost of length `g`:
/// `0.18 * (1 - gd/g)^2`.
pub open spec fn ghost_intensity_spec(gd: int, g: int) -> int {
    ((GHOST_START as int) * (g - gd) * (g - gd)) / (g * g)
}

/// Active-trail intensity, bounded by one.
pub fn active_intensity(d: u32, l: u32) -> (r: u32)
    requires
        d < l,
        l <= TRAIL_MAX,
    ensures
        r == active_intensity_spec(d as int, l as int),
        r <= UNIT,
{
    let diff: u64 = (l - d) as u64;
    proof {
        let dd = diff as int;
        let ll = l as int;
        assert(dd * dd * 1000000 <= 5462int * 5462int * 1000000int && dd * dd * 1000000 <= ll * ll
            * 1000000 && 0 < ll * ll <= 5462int * 5462int && (dd * dd * 1000000) / (ll * ll)
            <= 1000000) by (nonlinear_arith)
            requires
                0 < dd <= ll <= 5462,
        ;
    }
    let num: u64 = diff * diff * (UNIT as u64);
    let den: u64 = (l as u64) * (l as u64);
    (num / den) as u32
}

/// Ghost-trail intensity, bounded by its fixed starting value.
pub fn ghost_intensity(gd: u32, g: u32) -> (r: u32)
    requires
        gd < g,
        g <= TRAIL_MAX,
    ensures
        r == ghost_intensity_spec(gd as int, g as int),
        r <= GHOST_START,
{
    let diff: u64 = (g - gd) as u64;
    proof {
        let dd = diff as int;
        let gg = g as int;
        assert(180000 * dd * dd <= 180000int * 5462int * 5462int && 180000 * dd * dd <= 180000 * gg
            * gg && 0 < gg * gg <= 5462int * 5462int && (180000 * dd * dd) / (gg * gg) <= 180000)
            by (nonlinear_arith)
            requires
                0 < dd <= gg <= 5462,
        ;
    }
    let num: u64 = (GHOST_START as u64) * diff * diff;
    let den: u64 = (g as u64) * (g as u64);
    (num / den) as u32
}

/// The ghost trail starts at exactly its fixed value where the active trail
/// ends, and never brightens as the distance grows; the decay is strict
/// whenever the ghost is short enough for one row to change the quantized
/// intensity.
pub proof fn lemma_ghost_trail(g: int, d1: int, d2: int)
    requires
        0 <= d1 <= d2 < g,
    ensures
        ghost_intensity_spec(0, g) == GHOST_START,
        ghost_intensity_spec(d1, g) >= ghost_intensity_spec(d2, g),
        (d1 < d2 && g * g <= GHOST_START) ==> ghost_intensity_spec(d1, g) > ghost_intensity_spec(
            d2,
            g,
        ),
{
    assert((180000 * g * g) / (g * g) == 180000) by (nonlinear_arith)
        requires
            g > 0,
    ;
    let a = 180000 * (g - d1) * (g - d1);
    let b = 180000 * (g - d2) * (g - d2);
    assert(a >= b && b >= 0 && g * g > 0) by (nonlinear_arith)
        requires
            0 <= d1 <= d2 < g,
            a == 180000 * (g - d1) * (g - d1),
            b == 180000 * (g - d2) * (g - d2),
    ;
    assert(a / (g * g) >= b / (g * g)) by (nonlinear_arith)
        requires
            a >= b,
            b >= 0,
            g * g > 0,
    ;
    if d1 < d2 && g * g <= GHOST_START {
        assert(a >= b + g * g) by (nonlinear_arith)
            requires
                0 <= d1 < d2 < g,
                g * g <= 180000,
                a == 180000 * (g - d1) * (g - d1),
                b == 180000 * (g - d2) * (g - d2),
        ;
        assert(a / (g * g) > b / (g * g)) by (nonlinear_arith)
            requires
                a >= b + g * g,
                b >= 0,
                g * g > 0,
        ;
    }
}

/// The active trail's intensity is one at the head and bounded by one
/// everywhere, and it never brightens with distance.
pub proof fn lemma_active_trail(l: int, d1: int, d2: int)
    requires
        0 <= d1 <= d2 < l,
    ensures
        active_intensity_spec(0, l) == UNIT,
        0 <= active_intensity_spec(d2, l) <= active_intensity_spec(d1, l) <= UNIT,
{
    assert((l * l * 1000000) / (l * l) == 1000000) by (nonlinear_arith)
        requires
            l > 0,
    ;
    let a = (l - d1) * (l - d1) * 1000000;
    let b = (l - d2) * (l - d2) * 1000000;
    assert(a >= b && b >= 0 && a <= l * l * 1000000 && l * l > 0) by (nonlinear_arith)
        requires
            0 <= d1 <= d2 < l,
            a == (l - d1) * (l - d1) * 1000000,
            b == (l - d2) * (l - d2) * 1000000,
    ;
    assert(b / (l * l) >= 0 && a / (l * l) >= b / (l * l) && a / (l * l) <= 1000000)
        by (nonlinear_arith)
        requires
            a >= b,
            b >= 0,
            a <= l * l * 1000000,
            l * l > 0,
    ;
}

/// A stream past its whole trail: the head has scrolled the active and ghost
/// trails entirely past the bottom edge.
pub open spec fn stream_expired(s: RainStream, rows: u32) -> bool {
    head_row_spec(s.position as int) - s.trail_length - s.ghost_length > rows
}

impl MatrixRainState {
    /// Advance every column by `dt_ms` milliseconds: move stream heads,
    /// mutate characters, retire streams that scrolled past the bottom and
    /// spawn replacements.  Every column holds at least one stream when this
    /// returns, also in the tick in which its last stream retired.
    pub fn advance(&mut self, dt_ms: u32)
        requires
            old(self).wf(),
            dt_ms <= 1000000,
        ensures
            final(self).wf(),
            final(self).cols == old(self).cols,
            final(self).rows == old(self).rows,
            final(self).charset_len == old(self).charset_len,
            final(self).is_movie_mode == old(self).is_movie_mode,
            forall|i: int|
                0 <= i < final(self).columns.len()
                    ==> (#[trigger] final(self).columns[i]).streams.len() >= 1,
            forall|i: int|
                0 <= i < old(self).columns.len() ==> column_advanced(
                    old(self).columns[i],
                    #[trigger] final(self).columns[i],
                    old(self).rows,
                    old(self).is_movie_mode,
                    dt_ms as int,
                ),
    {
        let rows = self.rows;
        let charset_len = self.charset_len;
        let is_movie = self.is_movie_mode;
        let max_streams: usize = if is_movie {
            3
        } else {
            1
        };
        let mut rng: u64 = self.rng;
        let ncols = self.columns.len();
        let mut ci: usize = 0;
        while ci < ncols
            invariant
                ncols == self.columns.len(),
                rows == self.rows,
                charset_len == self.charset_len,
                is_movie == self.is_movie_mode,
                self.cols == old(self).cols,
                self.rows == old(self).rows,
                self.charset_len == old(self).charset_len,
                self.is_movie_mode == old(self).is_movie_mode,
                self.columns.len() == old(self).columns.len(),
                rows <= GRID_MAX,
                charset_len <= 65535,
                max_streams == (if is_movie {
                    3int
                } else {
                    1int
                }),
                dt_ms <= 1000000,
                forall|i: int|
                    0 <= i < self.columns.len() ==> column_wf(
                        #[trigger] self.columns[i],
                        rows,
                        is_movie,
                    ),
                forall|i: int| 0 <= i < ci ==> (#[trigger] self.columns[i]).streams.len() >= 1,
                forall|i: int|
                    0 <= i < ci ==> column_advanced(
                        old(self).columns[i],
                        #[trigger] self.columns[i],
                        rows,
                        is_movie,
                        dt_ms as int,
                    ),
                forall|i: int|
                    ci <= i < ncols ==> #[trigger] self.columns[i] == old(self).columns[i],
            decreases ncols - ci,
        {
            advance_column(&mut self.columns[ci], &mut rng, rows, charset_len, is_movie, dt_ms, max_streams);
            ci = ci + 1;
        }
        self.rng = rng;
    }
}

/// A stream whose position may exceed the resident band by one tick's
/// movement, before retirement trims it back.
pub open spec fn stream_wf_moved(s: RainStream) -> bool {
    &&& 1 <= s.trail_length <= TRAIL_MAX
    &&& s.ghost_length <= TRAIL_MAX
    &&& 10000 <= s.speed <= 44990
    &&& -20000000 <= s.position <= POS_MAX + 45000000
}

/// Advance one column by one tick: move streams, mutate characters, retire
/// expired streams and keep the column populated.
#[verifier::rlimit(100)]
fn advance_column(
    col: &mut RainColumn,
    rng: &mut u64,
    rows: u32,
    charset_len: usize,
    is_movie: bool,
    dt_ms: u32,
    max_streams: usize,
)
    requires
        column_wf(*old(col), rows, is_movie),
        rows <= GRID_MAX,
        charset_len <= 65535,
        dt_ms <= 1000000,
        max_streams == (if is_movie {
            3int
        } else {
            1int
        }),
    ensures
        column_wf(*final(col), rows, is_movie),
        final(col).streams.len() >= 1,
        column_advanced(*old(col), *final(col), rows, is_movie, dt_ms as int),
{
    // Move every stream down by its speed times the elapsed time.
    let ghost moved = moved_seq(old(col).streams@, dt_ms as int);
    let ns = col.streams.len();
    let mut si: usize = 0;
    while si < ns
        invariant
            ns == col.streams.len(),
            ns == old(col).streams.len(),
            col.char_indices.len() == old(col).char_indices.len(),
            col.char_timers.len() == old(col).char_timers.len(),
            dt_ms <= 1000000,
            moved == moved_seq(old(col).streams@, dt_ms as int),
            col.spawn_cooldown == old(col).spawn_cooldown,
            forall|i: int| si <= i < ns ==> col.streams[i] == old(col).streams[i],
            forall|i: int| si <= i < ns ==> stream_wf(#[trigger] col.streams[i]),
            forall|i: int| 0 <= i < si ==> col.streams[i] == moved[i],
            forall|i: int| 0 <= i < si ==> stream_wf_moved(#[trigger] col.streams[i]),
        decreases ns - si,
    {
        let speed = col.streams[si].speed;
        proof {
            assert((speed as int) * (dt_ms as int) <= 44990int * 1000000int) by (nonlinear_arith)
                requires
                    speed <= 44990,
                    dt_ms <= 1000000,
            ;
        }
        let delta64: u64 = (speed as u64) * (dt_ms as u64) / 1000;
        let delta: i64 = delta64 as i64;
        col.streams[si].position = col.streams[si].position + delta;
        si = si + 1;
    }
    proof {
        assert(col.streams@ =~= moved);
        assert(forall|i: int| 0 <= i < ns ==> stream_wf_moved(#[trigger] col.streams[i]));
        assert(!is_movie ==> forall|i: int|
            0 <= i < ns ==> (#[trigger] col.streams[i]).ghost_length == 0);
    }

    if is_movie {
        // Movie mode: per-row character mutation across the whole column,
        // faster inside an active trail.
        let mut row_idx: usize = 0;
        let nrows = col.char_timers.len();
        while row_idx < nrows
            invariant
                nrows == col.char_timers.len(),
                col.char_indices.len() == old(col).char_indices.len(),
                nrows <= col.char_indices.len(),
                nrows <= GRID_MAX,
                charset_len <= 65535,
                ns == col.streams.len(),
                moved == moved_seq(old(col).streams@, dt_ms as int),
                col.streams@ == moved,
                col.spawn_cooldown == old(col).spawn_cooldown,
                forall|i: int| 0 <= i < ns ==> stream_wf_moved(#[trigger] col.streams[i]),
            decreases nrows - row_idx,
        {
            if col.char_timers[row_idx] == 0 {
                if charset_len > 0 {
                    col.char_indices[row_idx] = (xorshift64(rng) % (charset_len as u64)) as u16;
                }
                // Is this row inside some stream's active trail?
                let mut in_active = false;
                let mut sj: usize = 0;
                while sj < ns
                    invariant
                        ns == col.streams.len(),
                        forall|i: int| 0 <= i < ns ==> stream_wf_moved(#[trigger] col.streams[i]),
                        row_idx < nrows,
                        nrows <= GRID_MAX,
                        nrows == col.char_timers.len(),
                        nrows <= col.char_indices.len(),
                        moved == moved_seq(old(col).streams@, dt_ms as int),
                        col.streams@ == moved,
                        col.spawn_cooldown == old(col).spawn_cooldown,
                        col.char_indices.len() == old(col).char_indices.len(),
                    decreases ns - sj,
                {
                    let head: i64 = head_row_of(col.streams[sj].position);
                    let dist: i64 = head - (row_idx as i64);
                    if dist >= 0 && dist < (col.streams[sj].trail_length as i64) {
                        in_active = true;
                        break ;
                    }
                    sj = sj + 1;
                }
                let reset: u8 = if in_active {
                    (xorshift64(rng) % 3 + 2) as u8
                } else {
                    (xorshift64(rng) % 5 + 4) as u8
                };
                col.char_timers[row_idx] = reset;
            } else {
                let t = col.char_timers[row_idx];
                col.char_timers[row_idx] = t - 1;
            }
            row_idx = row_idx + 1;
        }
    } else {
        // Classic mode: randomize only the rows nearest the first stream's
        // head.
        if col.streams.len() > 0 {
            let head: i64 = head_row_of(col.streams[0].position);
            let mut offset: i64 = 0;
            while offset < 3
                invariant
                    0 <= offset <= 3,
                    col.char_indices.len() == old(col).char_indices.len(),
                    col.char_timers.len() == old(col).char_timers.len(),
                    ns == col.streams.len(),
                    charset_len <= 65535,
                    rows <= GRID_MAX,
                    col.char_indices.len() == rows,
                    -100001 <= head <= 100000,
                    moved == moved_seq(old(col).streams@, dt_ms as int),
                    col.streams@ == moved,
                    col.spawn_cooldown == old(col).spawn_cooldown,
                    forall|i: int| 0 <= i < ns ==> stream_wf_moved(#[trigger] col.streams[i]),
                decreases 3 - offset,
            {
                let r: i64 = head - offset;
                if r >= 0 && r < (rows as i64) {
                    if charset_len > 0 {
                        col.char_indices[r as usize] = (xorshift64(rng) % (charset_len as u64))
                            as u16;
                    }
                }
                offset = offset + 1;
            }
        }
    }

    // Retire streams whose whole trail has scrolled past the bottom edge.
    let mut kept: Vec<RainStream> = Vec::new();
    let mut sk: usize = 0;
    while sk < ns
        invariant
            ns == col.streams.len(),
            moved == moved_seq(old(col).streams@, dt_ms as int),
            col.streams@ == moved,
            kept@ == retained_streams(moved.subrange(0, sk as int), rows),
            sk <= ns,
            col.spawn_cooldown == old(col).spawn_cooldown,
            forall|i: int| 0 <= i < ns ==> stream_wf_moved(#[trigger] col.streams[i]),
            forall|i: int| 0 <= i < kept@.len() ==> stream_wf(#[trigger] kept@[i]),
            !is_movie ==> forall|i: int| 0 <= i < kept@.len() ==> (#[trigger] kept@[i]).ghost_length
                == 0,
            rows <= GRID_MAX,
            column_wf(*old(col), rows, is_movie),
            ns == old(col).streams.len(),
            col.char_indices.len() == old(col).char_indices.len(),
            col.char_timers.len() == old(col).char_timers.len(),
        decreases ns - sk,
    {
        proof {
            assert(moved.subrange(0, sk as int + 1).drop_last() =~= moved.subrange(0, sk as int));
            assert(moved.subrange(0, sk as int + 1).last() == moved[sk as int]);
        }
        let s_pos = col.streams[sk].position;
        let s_trail = col.streams[sk].trail_length;
        let s_ghost = col.streams[sk].ghost_length;
        let head: i64 = head_row_of(s_pos);
        let trail_end: i64 = head - (s_trail as i64) - (s_ghost as i64);
        if trail_end <= (rows as i64) {
            proof {
                let p = s_pos as int;
                if p > POS_MAX {
                    assert(head_row_spec(p) == p / 1000);
                    assert(p / 1000 <= rows + s_trail + s_ghost);
                    assert(p < (rows + s_trail + s_ghost + 1) * 1000) by (nonlinear_arith)
                        requires
                            p >= 0,
                            p / 1000 <= rows + s_trail + s_ghost,
                    ;
                    assert(p <= POS_MAX);
                }
                if !is_movie {
                    assert(moved[sk as int].ghost_length == old(col).streams[
                        sk as int
                    ].ghost_length);
                }
            }
            let s = RainStream {
                position: s_pos,
                speed: col.streams[sk].speed,
                trail_length: s_trail,
                ghost_length: s_ghost,
            };
            proof {
                assert(s == moved[sk as int]);
                assert(stream_survives(moved[sk as int], rows));
            }
            kept.push(s);
        } else {
            proof {
                assert(!stream_survives(moved[sk as int], rows));
            }
        }
        sk = sk + 1;
    }
    proof {
        assert(moved.subrange(0, ns as int) =~= moved);
        assert(kept@ == retained_streams(moved, rows));
        lemma_retained_len(moved, rows);
    }
    col.streams = kept;

    // Keep the column populated: an empty column respawns in the same tick;
    // otherwise a cooled-down column below its capacity may gain a stream.
    if col.streams.len() == 0 {
        let s = MatrixRainState::new_stream(rng, rows, is_movie);
        col.streams.push(s);
        col.spawn_cooldown = (xorshift64(rng) % 40 + 20) as u16;
    } else if col.spawn_cooldown > 0 {
        col.spawn_cooldown = col.spawn_cooldown - 1;
    } else if col.streams.len() < max_streams {
        let ghost pre = col.streams@;
        let s = MatrixRainState::new_stream(rng, rows, is_movie);
        col.streams.push(s);
        col.spawn_cooldown = (xorshift64(rng) % 40 + 20) as u16;
        proof {
            assert(pre == retained_streams(moved, rows));
            assert(col.streams@.drop_last() =~= pre);
        }
    }
}

} // verus!

verus! {

/// The intensity one stream contributes to a row: quadratic decay inside the
/// active trail, the dim afterglow inside the ghost trail, nothing elsewhere.
pub open spec fn stream_intensity_at(s: RainStream, row: int) -> int {
    let d = head_row_spec(s.position as int) - row;
    if s.trail_length == 0 {
        0
    } else if d < 0 {
        0
    } else if d < s.trail_length {
        active_intensity_spec(d, s.trail_length as int)
    } else if s.ghost_length > 0 && d < s.trail_length + s.ghost_length {
        ghost_intensity_spec(d - s.trail_length, s.ghost_length as int)
    } else {
        0
    }
}

/// The highest intensity any stream of a column contributes to a row; cells
/// are never blended across streams.
pub open spec fn best_intensity_at(streams: Seq<RainStream>, row: int) -> int
    decreases streams.len(),
{
    if streams.len() == 0 {
        0
    } else {
        let rest = best_intensity_at(streams.drop_last(), row);
        let last = stream_intensity_at(streams.last(), row);
        if last > rest {
            last
        } else {
            rest
        }
    }
}

/// The index of the stream whose intensity wins a row: the first stream
/// attaining the column's maximum, since later streams replace the running
/// best only when strictly brighter.
pub open spec fn first_max_idx(streams: Seq<RainStream>, row: int) -> int
    decreases streams.len(),
{
    if streams.len() <= 1 {
        0
    } else {
        if stream_intensity_at(streams.last(), row) > best_intensity_at(
            streams.drop_last(),
            row,
        ) {
            streams.len() - 1
        } else {
            first_max_idx(streams.drop_last(), row)
        }
    }
}

pub proof fn lemma_first_max_idx_bounds(streams: Seq<RainStream>, row: int)
    requires
        streams.len() >= 1,
    ensures
        0 <= first_max_idx(streams, row) < streams.len(),
    decreases streams.len(),
{
    if streams.len() > 1 {
        lemma_first_max_idx_bounds(streams.drop_last(), row);
    }
}

/// One channel of the head-to-foreground blend, linear over three rows.
pub open spec fn rain_blend(h: u8, f: u8, d: int) -> u8 {
    ((h * (3 - d) + f * d) / 3) as u8
}

/// The color a rain-covered cell is drawn with: the bright head color at the
/// winning stream's head, blending into the theme foreground over the next
/// three rows, the plain foreground beyond.
pub open spec fn rain_cell_color(streams: Seq<RainStream>, row: int, fg: Rgb) -> Rgb {
    let w = streams[first_max_idx(streams, row)];
    let d = head_row_spec(w.position as int) - row;
    if d <= 0 {
        head_color_spec()
    } else if d <= 3 {
        Rgb {
            r: rain_blend(head_color_spec().r, fg.r, d),
            g: rain_blend(head_color_spec().g, fg.g, d),
            b: rain_blend(head_color_spec().b, fg.b, d),
        }
    } else {
        fg
    }
}

/// What one produced cell must hold, at grid position `i`: the fixed-point
/// intensity, character and color formulas of the three regimes (rain hit,
/// movie background, classic mapping), driven by the highest stream
/// intensity and the curved webcam brightness.
pub open spec fn cell_obligation(
    cell: CellRender,
    st: MatrixRainState,
    grid: Seq<u32>,
    charset: Seq<char>,
    curve: BrightnessCurve,
    invert: bool,
    fg: Rgb,
    i: int,
) -> bool {
    let cols = st.cols as int;
    let row = i / cols;
    let col = i % cols;
    let n = charset.len() as int;
    let wb = effective_brightness(curve, invert, grid[i] as int);
    let best = best_intensity_at(st.columns[col].streams@, row);
    let random_ch: char = if n > 0 {
        charset[st.columns[col].char_indices@[row] as int % n]
    } else {
        '#'
    };
    &&& cell.intensity <= UNIT
    &&& (best > 0 ==> cell.intensity == best * (350000 + 650000 * wb / (UNIT as int)) / (
    UNIT as int) && cell.ch == random_ch && cell.color == rain_cell_color(
        st.columns[col].streams@,
        row,
        fg,
    ))
    &&& (best == 0 && st.is_movie_mode ==> cell.intensity == 60000 + 550000 * wb / (UNIT as int)
        && cell.ch == random_ch && cell.color == fg)
    &&& (best == 0 && !st.is_movie_mode ==> cell.intensity == wb * 550000 / (UNIT as int)
        && cell.color == fg && (n > 0 ==> cell.ch == charset[char_index_spec(n, wb)]) && (n == 0
        ==> cell.ch == ' '))
}

/// Read one character out of a set.
pub fn char_at(v: &Vec<char>, i: usize) -> (c: char)
    requires
        i < v@.len(),
    ensures
        c == v@[i as int],
{
    v[i]
}

/// Blend one color channel from the head color toward the foreground,
/// linearly over three rows.
fn blend_channel(a: u8, b: u8, d: u32) -> (r: u8)
    requires
        1 <= d <= 3,
    ensures
        r == ((a * (3 - d) + b * d) / 3) as u8,
{
    proof {
        let aa = a as int;
        let bb = b as int;
        let dd = d as int;
        assert(0 <= aa * (3 - dd) + bb * dd <= 765 && (aa * (3 - dd) + bb * dd) / 3 <= 255)
            by (nonlinear_arith)
            requires
                0 <= aa <= 255,
                0 <= bb <= 255,
                1 <= dd <= 3,
        ;
    }
    (((a as u32) * (3 - d) + (b as u32) * d) / 3) as u8
}

impl MatrixRainState {
    /// Combine the rain state with a live brightness grid to produce one
    /// render instruction per cell.
    ///
    /// Every produced intensity lies in `0 ..= UNIT`, for all distances and
    /// stream parameters.
    #[verifier::rlimit(100)]
    pub fn compute_cells(
        &self,
        grid: &Vec<u32>,
        charset: &Vec<char>,
        brightness_curve: BrightnessCurve,
        invert: bool,
        fg: Rgb,
    ) -> (cells: Vec<CellRender>)
        requires
            self.wf(),
            grid@.len() == self.cols * self.rows,
            forall|i: int| 0 <= i < grid@.len() ==> #[trigger] grid@[i] <= UNIT,
            charset@.len() <= 100000,
        ensures
            cells@.len() == self.cols * self.rows,
            forall|i: int| 0 <= i < cells@.len() ==> (#[trigger] cells@[i]).intensity <= UNIT,
            forall|i: int|
                0 <= i < cells@.len() ==> cell_obligation(
                    #[trigger] cells@[i],
                    *self,
                    grid@,
                    charset@,
                    brightness_curve,
                    invert,
                    fg,
                    i,
                ),
    {
        let cols = self.cols as usize;
        let rows = self.rows as usize;
        let n = charset.len();
        let glen = grid.len();
        let mut out: Vec<CellRender> = Vec::new();
        let mut row: usize = 0;
        while row < rows
            invariant
                self.wf(),
                cols == self.cols,
                rows == self.rows,
                n == charset@.len(),
                n <= 100000,
                grid@.len() == cols * rows,
                glen == grid@.len(),
                forall|i: int| 0 <= i < grid@.len() ==> #[trigger] grid@[i] <= UNIT,
                row <= rows,
                out@.len() == row * cols,
                forall|i: int| 0 <= i < out@.len() ==> (#[trigger] out@[i]).intensity <= UNIT,
                forall|i: int|
                    0 <= i < out@.len() ==> cell_obligation(
                        #[trigger] out@[i],
                        *self,
                        grid@,
                        charset@,
                        brightness_curve,
                        invert,
                        fg,
                        i,
                    ),
            decreases rows - row,
        {
            let mut col: usize = 0;
            while col < cols
                invariant
                    self.wf(),
                    cols == self.cols,
                    rows == self.rows,
                    n == charset@.len(),
                    n <= 100000,
                    grid@.len() == cols * rows,
                    glen == grid@.len(),
                    forall|i: int| 0 <= i < grid@.len() ==> #[trigger] grid@[i] <= UNIT,
                    row < rows,
                    col <= cols,
                    out@.len() == row * cols + col,
                    forall|i: int|
                        0 <= i < out@.len() ==> (#[trigger] out@[i]).intensity <= UNIT,
                    forall|i: int|
                        0 <= i < out@.len() ==> cell_obligation(
                            #[trigger] out@[i],
                            *self,
                            grid@,
                            charset@,
                            brightness_curve,
                            invert,
                            fg,
                            i,
                        ),
                decreases cols - col,
            {
                let rain_col = &self.columns[col];
                proof {
                    assert(row * cols + col < cols * rows && row * cols >= 0)
                        by (nonlinear_arith)
                        requires
                            0 <= row < rows,
                            0 <= col < cols,
                    ;
                    assert(row * cols + col < glen);
                }
                let grid_idx: usize = row * cols + col;
                proof {
                    vstd::arithmetic::div_mod::lemma_fundamental_div_mod_converse(
                        (row as int) * (cols as int) + (col as int),
                        cols as int,
                        row as int,
                        col as int,
                    );
                }

                // Webcam brightness with the curve applied.
                let wb: u32 = crate::config::apply_effective(brightness_curve, invert, grid[grid_idx]);

                // Find the stream with the highest intensity at this cell.
                let mut best_intensity: u32 = 0;
                let mut best_color: Rgb = fg;
                let mut is_rain = false;
                let nstreams = rain_col.streams.len();
                let mut si: usize = 0;
                while si < nstreams
                    invariant
                        si <= nstreams,
                        nstreams == rain_col.streams@.len(),
                        forall|i: int|
                            0 <= i < nstreams ==> stream_wf(#[trigger] rain_col.streams@[i]),
                        best_intensity <= UNIT,
                        best_intensity == best_intensity_at(
                            rain_col.streams@.subrange(0, si as int),
                            row as int,
                        ),
                        is_rain == (best_intensity > 0),
                        !is_rain ==> best_color == fg,
                        is_rain ==> best_color == rain_cell_color(
                            rain_col.streams@.subrange(0, si as int),
                            row as int,
                            fg,
                        ),
                        row < rows,
                        rows == self.rows,
                        rows <= GRID_MAX,
                    decreases nstreams - si,
                {
                    proof {
                        assert(rain_col.streams@.subrange(0, si as int + 1).drop_last()
                            =~= rain_col.streams@.subrange(0, si as int));
                        assert(rain_col.streams@.subrange(0, si as int + 1).last()
                            == rain_col.streams@[si as int]);
                        if si > 0 {
                            lemma_first_max_idx_bounds(
                                rain_col.streams@.subrange(0, si as int),
                                row as int,
                            );
                        }
                    }
                    let stream = &rain_col.streams[si];
                    if stream.trail_length == 0 {
                        proof {
                            assert(stream_intensity_at(rain_col.streams@[si as int], row as int)
                                == 0);
                        }
                        si = si + 1;
                        continue ;
                    }
                    let head_row: i64 = head_row_of(stream.position);
                    let distance: i64 = head_row - (row as i64);
                    if distance < 0 {
                        proof {
                            assert(stream_intensity_at(rain_col.streams@[si as int], row as int)
                                == 0);
                        }
                        si = si + 1;
                        continue ;
                    }
                    let dist: u32 = distance as u32;
                    let intensity: u32;
                    if dist < stream.trail_length {
                        // Active trail: quadratic decay from the head.
                        intensity = active_intensity(dist, stream.trail_length);
                    } else if stream.ghost_length > 0 && dist < stream.trail_length
                        + stream.ghost_length {
                        // Ghost trail: fixed visible start decaying toward zero.
                        intensity = ghost_intensity(dist - stream.trail_length, stream.ghost_length);
                    } else {
                        proof {
                            assert(stream_intensity_at(rain_col.streams@[si as int], row as int)
                                == 0);
                        }
                        si = si + 1;
                        continue ;
                    }
                    proof {
                        assert(stream_intensity_at(rain_col.streams@[si as int], row as int)
                            == intensity);
                    }
                    if intensity > best_intensity {
                        best_intensity = intensity;
                        is_rain = true;
                        proof {
                            assert(first_max_idx(
                                rain_col.streams@.subrange(0, si as int + 1),
                                row as int,
                            ) == si);
                        }
                        // Head rows blend from the head color to the theme
                        // foreground over three rows.
                        if dist == 0 {
                            best_color = head_color();
                        } else if dist <= 3 {
                            let hc = head_color();
                            best_color = Rgb {
                                r: blend_channel(hc.r, fg.r, dist),
                                g: blend_channel(hc.g, fg.g, dist),
                                b: blend_channel(hc.b, fg.b, dist),
                            };
                        } else {
                            best_color = fg;
                        }
                    } else {
                        proof {
                            if si > 0 && best_intensity > 0 {
                                assert(first_max_idx(
                                    rain_col.streams@.subrange(0, si as int + 1),
                                    row as int,
                                ) == first_max_idx(
                                    rain_col.streams@.subrange(0, si as int),
                                    row as int,
                                ));
                            }
                        }
                    }
                    si = si + 1;
                }
                proof {
                    assert(rain_col.streams@.subrange(0, nstreams as int) =~= rain_col.streams@);
                    assert(best_intensity == best_intensity_at(rain_col.streams@, row as int));
                }

                if is_rain {
                    // Rain brightness modulated by the webcam image.
                    let factor: u32 = 350000 + scale_unit(650000, wb);
                    let brightness: u32 = scale_unit(best_intensity, factor);
                    let ch: char = if n > 0 {
                        char_at(charset, (rain_col.char_indices[row] as usize) % n)
                    } else {
                        '#'
                    };
                    out.push(CellRender { ch, color: best_color, intensity: brightness });
                    proof {
                        assert(out@.len() == row * cols + col + 1);
                    }
                } else if self.is_movie_mode {
                    // Movie mode background: dense random characters with an
                    // ambient floor lifted by the webcam.
                    let brightness: u32 = 60000 + scale_unit(550000, wb);
                    let ch: char = if n > 0 {
                        char_at(charset, (rain_col.char_indices[row] as usize) % n)
                    } else {
                        '#'
                    };
                    out.push(CellRender { ch, color: fg, intensity: brightness });
                    proof {
                        assert(out@.len() == row * cols + col + 1);
                    }
                } else {
                    // Classic mode: brightness-mapped character.
                    let brightness: u32 = scale_unit(wb, 550000);
                    let ch: char = if n > 0 {
                        char_at(charset, char_index(n, wb))
                    } else {
                        ' '
                    };
                    out.push(CellRender { ch, color: fg, intensity: brightness });
                    proof {
                        assert(out@.len() == row * cols + col + 1);
                    }
                }
                col = col + 1;
            }
            row = row + 1;
            proof {
                assert((row - 1) * cols + cols == row * cols) by (nonlinear_arith)
                    requires
                        row >= 1,
                ;
            }
        }
        proof {
            assert(rows * cols == cols * rows) by (nonlinear_arith);
        }
        out
    }
}

} // verus!
