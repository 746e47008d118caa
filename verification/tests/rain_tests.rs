use virtual_ascii::config::{BrightnessCurve, Rgb};
use virtual_ascii::rain::{
    active_intensity, ghost_intensity, xorshift64, MatrixRainState, GHOST_START,
};

#[test]
fn test_xorshift_produces_different_values() {
    let mut state = 12345u64;
    let a = xorshift64(&mut state);
    let b = xorshift64(&mut state);
    let c = xorshift64(&mut state);
    assert_ne!(a, b);
    assert_ne!(b, c);
    assert_ne!(a, c);
}

#[test]
fn test_rain_state_creation() {
    let state = MatrixRainState::new(80, 45, 15, false, 7);
    assert_eq!(state.cols, 80);
    assert_eq!(state.rows, 45);
    assert_eq!(state.columns.len(), 80);
    assert_eq!(state.charset_len, 15);
    assert!(!state.is_movie_mode);
}

#[test]
fn test_column_lifecycle() {
    let mut state = MatrixRainState::new(1, 10, 5, false, 7);

    // Force the column active at position zero.
    state.columns[0].spawn_cooldown = 0;
    state.columns[0].streams[0].position = 0;
    state.columns[0].streams[0].speed = 20000;
    state.columns[0].streams[0].trail_length = 4;

    // Advance enough to move past the grid (about thirty frames per second).
    for _ in 0..100 {
        state.advance(33);
    }

    let col = &state.columns[0];
    assert!(
        !col.streams.is_empty(),
        "column should always have at least one stream"
    );
}

#[test]
fn test_intensity_decay() {
    // Head (distance=0): (1.0 - 0)^2 = 1.0
    // Mid-trail (distance=half): (1.0 - 0.5)^2 = 0.25
    // Trail end (distance=trail_length-1): close to zero
    let trail_len = 10.0_f32;
    let head_ri = (1.0 - 0.0 / trail_len).powi(2);
    let mid_ri = (1.0 - 5.0 / trail_len).powi(2);
    let end_ri = (1.0 - 9.0 / trail_len).powi(2);

    assert!((head_ri - 1.0).abs() < 0.001);
    assert!((mid_ri - 0.25).abs() < 0.001);
    assert!(end_ri < 0.02);
}

#[test]
fn test_compute_cells_output_size() {
    let state = MatrixRainState::new(10, 5, 5, false, 7);
    let charset: Vec<char> = " .:#@".chars().collect();
    let grid = vec![500000u32; 50]; // 10 cols * 5 rows, mid brightness

    let cells = state.compute_cells(
        &grid,
        &charset,
        BrightnessCurve::Linear,
        false,
        Rgb { r: 0, g: 200, b: 0 },
    );

    assert_eq!(cells.len(), 50);
}

#[test]
fn test_compute_cells_brightness_range() {
    let state = MatrixRainState::new(10, 5, 5, false, 7);
    let charset: Vec<char> = " .:#@".chars().collect();
    let grid = vec![500000u32; 50];

    let cells = state.compute_cells(
        &grid,
        &charset,
        BrightnessCurve::Linear,
        false,
        Rgb { r: 0, g: 200, b: 0 },
    );

    for cell in &cells {
        assert!(cell.intensity <= 1000000, "intensity should be <= 1.0");
    }
}

#[test]
fn test_matrix_mode_creation() {
    let state = MatrixRainState::new(10, 45, 80, true, 7);
    assert!(state.is_movie_mode);
    // Movie mode columns carry per-row character mutation timers.
    for col in &state.columns {
        assert_eq!(col.char_timers.len(), 45);
    }
}

#[test]
fn test_ghost_trail_visibility() {
    // The ghost trail starts at the fixed intensity 0.18 and decays
    // quadratically toward zero.
    let ghost_length: u32 = 5;

    let ghost_t = 0.0 / ghost_length as f32;
    let first_ghost = 0.18 * (1.0 - ghost_t) * (1.0 - ghost_t);
    assert!(
        (first_ghost - 0.18).abs() < 0.001,
        "first ghost row should be 0.18, got {}",
        first_ghost
    );

    let ghost_t = (ghost_length - 1) as f32 / ghost_length as f32;
    let last_ghost = 0.18 * (1.0 - ghost_t) * (1.0 - ghost_t);
    assert!(
        last_ghost < 0.01,
        "last ghost row should be near zero, got {}",
        last_ghost
    );

    let mid_ghost_t = 2.0 / ghost_length as f32;
    let mid_ghost = 0.18 * (1.0 - mid_ghost_t) * (1.0 - mid_ghost_t);
    assert!(
        first_ghost > mid_ghost && mid_ghost > last_ghost,
        "ghost trail should decrease monotonically"
    );
}

#[test]
fn test_ghost_intensity_exact() {
    // In the library's fixed-point units the ghost start is exact.
    assert_eq!(ghost_intensity(0, 5), GHOST_START);
    // Strictly decreasing over the ghost rows for a short ghost.
    let mut prev = ghost_intensity(0, 5);
    for gd in 1..5u32 {
        let v = ghost_intensity(gd, 5);
        assert!(v < prev, "ghost trail must decay");
        prev = v;
    }
    // The active trail is exactly one at the head.
    assert_eq!(active_intensity(0, 10), 1000000);
    assert!(active_intensity(5, 10) <= 1000000);
}

#[test]
fn test_multi_stream_lifecycle() {
    let mut state = MatrixRainState::new(1, 20, 10, true, 7);

    // Force the first stream far down so a second can spawn.
    state.columns[0].streams[0].position = 15000;
    state.columns[0].spawn_cooldown = 0;

    for _ in 0..200 {
        state.advance(33);
    }

    assert!(
        !state.columns[0].streams.is_empty(),
        "column should always maintain streams"
    );
}

#[test]
fn test_classic_mode_unchanged() {
    // Classic mode: a single stream, no ghost trails, no mutation timers.
    let state = MatrixRainState::new(5, 20, 10, false, 7);

    for col in &state.columns {
        assert_eq!(col.streams.len(), 1, "classic mode should have 1 stream");
        assert_eq!(
            col.streams[0].ghost_length, 0,
            "classic mode should have no ghost trail"
        );
        assert!(
            col.char_timers.is_empty(),
            "classic mode should have no char timers"
        );
    }
}

#[test]
fn test_matrix_charset_coverage() {
    let charset = virtual_ascii::config::matrix_charset();
    // Half-width katakana plus numerals and symbols.
    assert!(charset.len() >= 70, "matrix charset too small: {}", charset.len());
    assert!(charset.len() <= 90, "matrix charset too large: {}", charset.len());

    assert!(charset.contains(&'ｦ'), "should contain half-width katakana ｦ");
    assert!(charset.contains(&'ﾝ'), "should contain half-width katakana ﾝ");
    assert!(charset.contains(&'0'), "should contain numeral 0");
    assert!(charset.contains(&'9'), "should contain numeral 9");
    assert!(charset.contains(&'Z'), "should contain Z");
}
