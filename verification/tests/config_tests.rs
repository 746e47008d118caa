use virtual_ascii::config::{
    char_index, definition_to_params, parse_hex_color, parse_resolution, theme_names, AppConfig,
    BrightnessCurve, ColorTheme, Rgb, RunSettings,
};
use virtual_ascii::fixed::{isqrt, scale_unit, UNIT};
use virtual_ascii::text::u32_to_string;

#[test]
fn test_parse_resolution_plain() {
    assert_eq!(parse_resolution("1920x1080"), Ok((1920, 1080)));
    assert_eq!(parse_resolution("640X480"), Ok((640, 480)));
}

#[test]
fn test_parse_resolution_annotated() {
    // Trailing annotations after the digits are tolerated.
    assert_eq!(parse_resolution("1920x1080 (60fps)"), Ok((1920, 1080)));
    assert_eq!(parse_resolution(" 1280 x 720 "), Ok((1280, 720)));
}

#[test]
fn test_parse_resolution_errors() {
    assert!(parse_resolution("1080p").is_err());
    assert!(parse_resolution("axb").is_err());
    assert!(parse_resolution("0x100").is_err());
    assert!(parse_resolution("100x0").is_err());
}

#[test]
fn test_hex_color_round_trip() {
    let c = parse_hex_color("ff00aa").unwrap();
    assert_eq!((c.r, c.g, c.b), (255, 0, 170));
    assert_eq!(c.to_hex(), "ff00aa");
    assert_eq!(parse_hex_color("#001100").unwrap().g, 0x11);
    assert!(parse_hex_color("ff00a").is_none());
    assert!(parse_hex_color("zzzzzz").is_none());
}

#[test]
fn test_theme_lookup() {
    let t = ColorTheme::from_name("matrix").unwrap();
    assert_eq!((t.fg.r, t.fg.g, t.fg.b), (0, 255, 0));
    assert_eq!((t.bg.r, t.bg.g, t.bg.b), (0, 15, 0));
    assert!(ColorTheme::from_name("bad_theme_name").is_none());
    assert_eq!(theme_names().len(), 8);
    for name in theme_names() {
        assert!(ColorTheme::from_name(name).is_some());
    }
}

#[test]
fn test_curve_endpoints() {
    // Every curve maps zero to its floor and one to its ceiling; the sigmoid
    // is renormalized so both are exact.
    for curve in [
        BrightnessCurve::Linear,
        BrightnessCurve::Exponential,
        BrightnessCurve::Sigmoid,
    ] {
        assert_eq!(curve.apply(0), 0);
        assert_eq!(curve.apply(1000000), 1000000);
    }
}

#[test]
fn test_curve_monotone_mapping() {
    // A brighter input never selects an earlier character, for a fixed set
    // and curve.
    for curve in [
        BrightnessCurve::Linear,
        BrightnessCurve::Exponential,
        BrightnessCurve::Sigmoid,
    ] {
        let mut prev = 0usize;
        let mut b: u32 = 0;
        while b <= 1000000 {
            let idx = char_index(5, curve.apply(b));
            assert!(idx >= prev, "selection went backwards");
            assert!(idx < 5);
            prev = idx;
            b += 10000;
        }
    }
}

#[test]
fn test_curve_names() {
    assert_eq!(BrightnessCurve::from_name("linear"), Some(BrightnessCurve::Linear));
    assert_eq!(BrightnessCurve::from_name("exp"), Some(BrightnessCurve::Exponential));
    assert_eq!(BrightnessCurve::from_name("sigmoid"), Some(BrightnessCurve::Sigmoid));
    assert_eq!(BrightnessCurve::from_name("gamma"), None);
    assert_eq!(BrightnessCurve::Exponential.name(), "exponential");
}

#[test]
fn test_definition_levels() {
    let (cols, charset) = definition_to_params(5, "mono");
    assert_eq!(cols, 80);
    assert_eq!(charset.len(), 15);
    let (mcols, mcharset) = definition_to_params(5, "matrix");
    assert_eq!(mcols, 80);
    assert!(mcharset.len() >= 70);
    let (c1, s1) = definition_to_params(1, "green");
    assert_eq!(c1, 40);
    assert_eq!(s1, " .:#".chars().collect::<Vec<char>>());
    let (c10, _) = definition_to_params(10, "green");
    assert_eq!(c10, 200);
}

#[test]
fn test_app_config_resolution() {
    let args = RunSettings {
        definition: 5,
        theme: "green".to_string(),
        fps: 30,
        resolution: Some((1280, 720)),
        camera_index: None,
        output_device: "/dev/video20".to_string(),
        fg_color: Some("ff00ff".to_string()),
        bg_color: None,
        brightness_curve: "linear".to_string(),
        invert: false,
    };
    let cfg = AppConfig::from_cli(args, Some(2)).unwrap();
    assert_eq!(cfg.camera_index, 2);
    assert_eq!((cfg.theme.fg.r, cfg.theme.fg.g, cfg.theme.fg.b), (255, 0, 255));
    assert_eq!(cfg.theme.bg.g, 10);
    assert_eq!(cfg.ascii_columns, 80);

    let bad = RunSettings {
        definition: 5,
        theme: "nope".to_string(),
        fps: 30,
        resolution: None,
        camera_index: None,
        output_device: "/dev/video20".to_string(),
        fg_color: None,
        bg_color: None,
        brightness_curve: "linear".to_string(),
        invert: false,
    };
    assert!(AppConfig::from_cli(bad, None).is_err());
}

#[test]
fn test_isqrt_and_scale() {
    assert_eq!(isqrt(0), 0);
    assert_eq!(isqrt(1000000000000), 1000000);
    assert_eq!(isqrt(250000000000), 500000);
    assert_eq!(scale_unit(UNIT, UNIT), UNIT);
    assert_eq!(scale_unit(500000, 500000), 250000);
}

#[test]
fn test_decimal_formatting() {
    assert_eq!(u32_to_string(0), "0");
    assert_eq!(u32_to_string(12345), "12345");
    assert_eq!(u32_to_string(4294967295), "4294967295");
}
