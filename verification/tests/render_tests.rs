use virtual_ascii::config::{BrightnessCurve, Rgb};
use virtual_ascii::glyph_cache::{
    bolden_coverage, dilate_expand, mirror_bitmap, FontRaster, GlyphCache, RasterGlyph,
};
use virtual_ascii::renderer::{apply_bloom, AsciiRenderer};

/// A synthetic rasterization of a small character set: every non-space glyph
/// is a solid block, the way a rasterizer would report full coverage.
fn synthetic_raster(charset: &[char]) -> FontRaster {
    let mut glyphs = Vec::new();
    for &ch in charset {
        if ch == ' ' {
            glyphs.push(RasterGlyph {
                ch,
                coverage: Vec::new(),
                width: 0,
                height: 0,
                xmin: 0,
                ymin: 0,
            });
        } else {
            let w = 5usize;
            let h = 7usize;
            glyphs.push(RasterGlyph {
                ch,
                coverage: vec![255u8; w * h],
                width: w,
                height: h,
                xmin: 1,
                ymin: 0,
            });
        }
    }
    FontRaster {
        glyphs,
        ascent: 7,
        line_height: 8,
        advance_width: Some(7),
    }
}

#[test]
fn test_mirror_bitmap() {
    // 3x2 bitmap: [1,2,3, 4,5,6] flips row-wise to [3,2,1, 6,5,4].
    let coverage = vec![1, 2, 3, 4, 5, 6];
    let mirrored = mirror_bitmap(&coverage, 3, 2);
    assert_eq!(mirrored, vec![3, 2, 1, 6, 5, 4]);
}

#[test]
fn test_mirror_twice_restores() {
    let coverage = vec![9, 8, 7, 1, 2, 3, 4, 5, 6];
    let once = mirror_bitmap(&coverage, 3, 3);
    let twice = mirror_bitmap(&once, 3, 3);
    assert_eq!(twice, coverage);
}

#[test]
fn test_dilate_expand_grows() {
    // A single bright pixel spreads to its 3x3 neighborhood, on a canvas
    // grown by one pixel on every side.
    let src = vec![0, 0, 0, 0, 200, 0, 0, 0, 0];
    let (d, w, h) = dilate_expand(&src, 3, 3);
    assert_eq!((w, h), (5, 5));
    assert_eq!(d.len(), 25);
    for y in 0..5usize {
        for x in 0..5usize {
            let expect = if (1..=3).contains(&x) && (1..=3).contains(&y) { 200 } else { 0 };
            assert_eq!(d[y * 5 + x], expect, "at {},{}", x, y);
        }
    }
}

#[test]
fn test_bolden_thickens() {
    // Each pixel becomes the max of itself and half its strongest neighbor.
    let mut cov = vec![0, 200, 0];
    bolden_coverage(&mut cov, 3, 1);
    assert_eq!(cov, vec![100, 200, 100]);
}

#[test]
fn test_glyph_cache_basic() {
    let charset: Vec<char> = " .:#@".chars().collect();
    let cache = GlyphCache::new(synthetic_raster(&charset), false, false);

    for ch in &charset {
        assert!(cache.get(*ch).is_some(), "missing glyph");
    }
    assert!(cache.cell_width > 0, "cell_width should be > 0");
    assert!(cache.cell_height > 0, "cell_height should be > 0");

    let at = cache.get('@').unwrap();
    assert!(at.width > 0);
    assert!(at.height > 0);
    assert!(!at.coverage.is_empty());
}

#[test]
fn test_glyph_cache_glow_variant() {
    let charset: Vec<char> = "#".chars().collect();
    let cache = GlyphCache::new(synthetic_raster(&charset), true, true);
    let g = cache.get('#').unwrap();
    let glow = g.glow.as_ref().expect("bold glyphs carry a glow variant");
    assert_eq!(glow.width, g.width + 4);
    assert_eq!(glow.height, g.height + 4);
    assert_eq!(glow.xmin, g.xmin - 2);
}

fn build_renderer(theme: &str, out_w: u32, out_h: u32) -> AsciiRenderer {
    let charset: Vec<char> = " .:#@".chars().collect();
    let fg = Rgb { r: 0, g: 255, b: 0 };
    let bg = Rgb { r: 0, g: 0, b: 0 };
    let cache = GlyphCache::new(synthetic_raster(&charset), false, false);
    AsciiRenderer::new(
        &charset,
        fg,
        bg,
        BrightnessCurve::Linear,
        false,
        out_w,
        out_h,
        40,
        theme,
        cache,
        7,
    )
    .expect("Failed to create renderer")
}

#[test]
fn test_render_uniform_gray() {
    let mut renderer = build_renderer("mono", 320, 240);

    // A uniform mid-gray input frame.
    let in_w = 640u32;
    let in_h = 480u32;
    let frame: Vec<u8> = vec![128; (in_w * in_h * 3) as usize];

    let output = renderer.render(&frame, in_w, in_h, 0);

    assert_eq!(output.len(), (320 * 240 * 3) as usize);
    assert!(
        output.iter().any(|&b| b != 0),
        "Output should not be all zeros"
    );
}

#[test]
fn test_render_short_frame_is_background() {
    let charset: Vec<char> = " .:#@".chars().collect();
    let fg = Rgb { r: 0, g: 255, b: 0 };
    let bg = Rgb { r: 10, g: 20, b: 30 };
    let cache = GlyphCache::new(synthetic_raster(&charset), false, false);
    let mut renderer = AsciiRenderer::new(
        &charset,
        fg,
        bg,
        BrightnessCurve::Linear,
        false,
        160,
        120,
        40,
        "mono",
        cache,
        7,
    )
    .unwrap();

    // A frame far too short for the claimed dimensions: the renderer must
    // return a themed blank frame of exactly the output size, reading
    // nothing out of bounds.
    let short = vec![0u8; 10];
    let output = renderer.render(&short, 640, 480, 0);
    assert_eq!(output.len(), 160 * 120 * 3);
    for (i, &b) in output.iter().enumerate() {
        let expect = match i % 3 {
            0 => 10,
            1 => 20,
            _ => 30,
        };
        assert_eq!(b, expect, "pixel byte {} should be background", i);
    }
}

#[test]
fn test_render_matrix_mode() {
    let mut renderer = build_renderer("matrix", 160, 120);
    let frame: Vec<u8> = vec![200; 320 * 240 * 3];
    let output = renderer.render(&frame, 320, 240, 50);
    assert_eq!(output.len(), 160 * 120 * 3);
    // A second frame a little later keeps the animation running.
    let output2 = renderer.render(&frame, 320, 240, 100);
    assert_eq!(output2.len(), 160 * 120 * 3);
}

#[test]
fn test_render_color_mode() {
    let mut renderer = build_renderer("color", 160, 120);
    // A frame with a strong red cast: composited glyphs sample the source
    // color rather than the theme foreground.
    let mut frame = vec![0u8; 320 * 240 * 3];
    for px in frame.chunks_exact_mut(3) {
        px[0] = 240;
    }
    let output = renderer.render(&frame, 320, 240, 0);
    assert_eq!(output.len(), 160 * 120 * 3);
    let mut has_red = false;
    for px in output.chunks_exact(3) {
        if px[0] > 100 && px[1] < 50 {
            has_red = true;
        }
        assert!(px[1] <= px[0] + 30, "color mode should not invent green");
    }
    assert!(has_red, "color mode should carry the source color");
}

#[test]
fn test_bloom_only_brightens() {
    let w = 16usize;
    let h = 16usize;
    let mut output = vec![0u8; w * h * 3];
    // One bright spot on a dark field.
    let center = ((h / 2) * w + w / 2) * 3;
    output[center] = 255;
    output[center + 1] = 255;
    output[center + 2] = 255;
    let before = output.clone();
    let ds = (w / 4) * (h / 4) * 3;
    let mut buf = vec![0u16; ds];
    let mut tmp = vec![0u16; ds];
    apply_bloom(&mut output, &mut buf, &mut tmp, w, h);
    assert_eq!(output.len(), before.len());
    for i in 0..output.len() {
        assert!(output[i] >= before[i], "bloom never darkens a pixel");
    }
    // Something near the bright spot actually gained brightness.
    let neighbor = ((h / 2) * w + w / 2 - 1) * 3;
    assert!(output[neighbor] >= before[neighbor]);
}
