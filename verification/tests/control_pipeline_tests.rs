use virtual_ascii::config::{BrightnessCurve, Rgb};
use virtual_ascii::control::{
    batch_is_status, camera_change_of, fps_change_of, process_command_batch, CaptureAction,
    RuntimeState,
};
use virtual_ascii::detect::{
    detect_camera, is_capture, is_loopback, max_fps_of_intervals, sort_resolutions, Capability,
};
use virtual_ascii::glyph_cache::{FontRaster, GlyphCache, RasterGlyph};
use virtual_ascii::output::fourcc;
use virtual_ascii::pipeline::{
    capture_failure_step, frame_interval_ms, pace_sleep_ms, resolve_camera_change,
    CameraChangeOutcome, CaptureConfig, Frame, FpsCounter, Pipeline,
};
use virtual_ascii::renderer::AsciiRenderer;

#[test]
fn test_format_status_exact() {
    let state = RuntimeState {
        camera_index: 2,
        resolution: Some((1280, 720)),
        fps: 30,
        max_fps: 60,
        theme_name: "matrix".to_string(),
        fg: Rgb { r: 0, g: 255, b: 0 },
        bg: Rgb { r: 0, g: 15, b: 0 },
        definition: 5,
        brightness_curve: BrightnessCurve::Linear,
        invert: false,
    };
    let s = state.format_status();
    assert_eq!(
        s,
        "camera_index=2\nresolution=1280x720\nfps=30\ntheme=matrix\nfg_color=00ff00\n\
         bg_color=000f00\ndefinition=5\nbrightness_curve=linear\ninvert=false\nEND\n"
    );
}

#[test]
fn test_format_status_auto_resolution() {
    let state = RuntimeState {
        camera_index: 0,
        resolution: None,
        fps: 15,
        max_fps: 240,
        theme_name: "mono".to_string(),
        fg: Rgb { r: 255, g: 255, b: 255 },
        bg: Rgb { r: 0, g: 0, b: 0 },
        definition: 7,
        brightness_curve: BrightnessCurve::Sigmoid,
        invert: true,
    };
    let s = state.format_status();
    assert!(s.contains("resolution=auto\n"));
    assert!(s.contains("invert=true\n"));
    assert!(s.ends_with("END\n"));
}

#[test]
fn test_bad_theme_line_keeps_other_settings() {
    // One bad SET line yields one error naming the value; the remaining
    // lines of the batch still apply.
    let commands = vec![
        "SET theme=bad_theme_name".to_string(),
        "SET fps=15".to_string(),
        "SET definition=7".to_string(),
    ];
    let (errors, cap, ren) = process_command_batch(&commands, 240);
    assert_eq!(errors.len(), 1);
    assert!(errors[0].contains("bad_theme_name"), "error must name the bad value");
    assert_eq!(cap.fps, Some(15));
    assert_eq!(ren.definition, Some(7));
    assert!(ren.theme_name.is_none());
}

#[test]
fn test_set_batch_routing() {
    let commands = vec![
        "SET camera_index=3".to_string(),
        "set resolution=640x480".to_string(),
        "SET fg_color=ff00ff".to_string(),
        "SET invert=true".to_string(),
        "bogus line".to_string(),
        "SET fps=500".to_string(),
    ];
    let (errors, cap, ren) = process_command_batch(&commands, 240);
    // The unknown command and the out-of-range rate each yield one error.
    assert_eq!(errors.len(), 2);
    assert_eq!(cap.camera_index, Some(3));
    assert_eq!(cap.resolution, Some(Some((640, 480))));
    assert_eq!(cap.fps, None);
    assert_eq!(ren.fg, Some(Rgb { r: 255, g: 0, b: 255 }));
    assert_eq!(ren.invert, Some(true));
}

#[test]
fn test_status_detection() {
    assert!(batch_is_status(&vec!["status".to_string()]));
    assert!(batch_is_status(&vec!["SET fps=1".to_string(), "STATUS".to_string()]));
    assert!(!batch_is_status(&vec!["SET fps=1".to_string()]));
}

#[test]
fn test_batch_to_commands() {
    let commands = vec!["SET camera_index=1".to_string(), "SET fps=24".to_string()];
    let (errors, cap, _ren) = process_command_batch(&commands, 240);
    assert!(errors.is_empty());
    match camera_change_of(&cap, 0, None) {
        Some(CaptureAction::ChangeCamera { index, resolution }) => {
            assert_eq!(index, 1);
            assert_eq!(resolution, None);
        }
        _ => panic!("expected a camera change"),
    }
    match fps_change_of(&cap) {
        Some(CaptureAction::ChangeFps { fps }) => assert_eq!(fps, 24),
        _ => panic!("expected a rate change"),
    }
}

#[test]
fn test_fps_change_outcomes() {
    // A rate change reopens the camera; on success the new interval applies,
    // on failure the previous configuration stays in effect.
    let old_config = CaptureConfig { index: 0, resolution: None, fps: 30 };
    let requested = CaptureConfig { index: 0, resolution: None, fps: 15 };

    match resolve_camera_change(&old_config, &requested, true, true) {
        CameraChangeOutcome::Committed(c) => {
            assert_eq!(c.fps, 15);
            assert_eq!(frame_interval_ms(c.fps), 66);
        }
        _ => panic!("a successful reopen commits the change"),
    }
    match resolve_camera_change(&old_config, &requested, false, true) {
        CameraChangeOutcome::RolledBack(c) => {
            assert_eq!(c.fps, 30);
            assert_eq!(frame_interval_ms(c.fps), 33);
        }
        _ => panic!("a failed reopen rolls back"),
    }
    match resolve_camera_change(&old_config, &requested, false, false) {
        CameraChangeOutcome::Fatal => {}
        _ => panic!("a failed rollback is fatal"),
    }
}

#[test]
fn test_capture_pacing_and_failures() {
    assert_eq!(pace_sleep_ms(10, 33), 23);
    assert_eq!(pace_sleep_ms(40, 33), 0);
    let (n, reconnect) = capture_failure_step(0);
    assert_eq!((n, reconnect), (1, false));
    let (n2, reconnect2) = capture_failure_step(29);
    assert_eq!((n2, reconnect2), (30, true));
}

#[test]
fn test_fps_counter_window() {
    let mut c = FpsCounter::new("capture", 0);
    for t in 1..=100u64 {
        assert!(c.tick(t * 33).is_none() || t * 33 >= 5000);
    }
    let mut c2 = FpsCounter::new("render", 0);
    for _ in 0..149 {
        assert!(c2.tick(1000).is_none());
    }
    // The 150th frame lands past the five-second mark.
    let report = c2.tick(5000).expect("a report is due");
    assert_eq!(report, 30000); // 150 frames over 5 s = 30.000 fps
}

fn tiny_renderer() -> AsciiRenderer {
    let charset: Vec<char> = " .:#@".chars().collect();
    let mut glyphs = Vec::new();
    for &ch in &charset {
        glyphs.push(RasterGlyph {
            ch,
            coverage: if ch == ' ' { Vec::new() } else { vec![255u8; 6] },
            width: if ch == ' ' { 0 } else { 2 },
            height: if ch == ' ' { 0 } else { 3 },
            xmin: 0,
            ymin: 0,
        });
    }
    let raster = FontRaster { glyphs, ascent: 3, line_height: 4, advance_width: Some(3) };
    let cache = GlyphCache::new(raster, false, false);
    AsciiRenderer::new(
        &charset,
        Rgb { r: 0, g: 255, b: 0 },
        Rgb { r: 0, g: 0, b: 0 },
        BrightnessCurve::Linear,
        false,
        64,
        48,
        16,
        "mono",
        cache,
        7,
    )
    .unwrap()
}

#[test]
fn test_output_detach_and_resume() {
    // Detaching the publish stage starves the sink while frames keep being
    // rendered for preview; reattaching resumes publishing without a
    // restart.
    let mut p = Pipeline::new(tiny_renderer(), true);
    let frame = Frame { rgb: vec![128u8; 64 * 48 * 3], width: 64, height: 48 };

    let (preview, published) = p.process_frame(&frame, 0);
    assert_eq!(preview.len(), 64 * 48 * 3);
    assert!(published);

    p.stop_output();
    let (preview2, published2) = p.process_frame(&frame, 33);
    assert_eq!(preview2.len(), 64 * 48 * 3, "render keeps serving previews");
    assert!(!published2, "a detached sink receives nothing");

    p.start_output().expect("reattaching must succeed");
    let (_, published3) = p.process_frame(&frame, 66);
    assert!(published3, "publishing resumes without restarting the pipeline");

    assert!(p.start_output().is_err(), "double attach is refused");
}

#[test]
fn test_renderer_hot_swap_keeps_old_on_failure() {
    let mut p = Pipeline::new(tiny_renderer(), false);
    let old_w = p.output_width();
    let err: Result<AsciiRenderer, String> = Err("rebuild failed".to_string());
    assert!(p.apply_rebuild(err).is_err());
    assert_eq!(p.output_width(), old_w, "a failed rebuild keeps the old renderer");
    let ok: Result<AsciiRenderer, String> = Ok(tiny_renderer());
    assert!(p.apply_rebuild(ok).is_ok());
}

fn cap(driver: &str, bus: &str, caps: u32) -> Capability {
    Capability {
        driver: driver.chars().collect(),
        card: "cam".chars().collect(),
        bus_info: bus.chars().collect(),
        capabilities: caps,
        device_caps: 0,
    }
}

#[test]
fn test_camera_detection() {
    let loopback = cap("v4l2 loopback", "platform:v4l2loopback-000", 1);
    let webcam = cap("uvcvideo", "usb-0000:00:14.0-1", 1);
    let meta = cap("uvcvideo", "usb-0000:00:14.0-1", 0);
    assert!(is_loopback(&loopback));
    assert!(!is_loopback(&webcam));
    assert!(is_capture(&webcam));
    assert!(!is_capture(&meta));

    let probes = vec![Some(loopback), None, Some(meta), Some(webcam)];
    assert_eq!(detect_camera(&probes, None), Some(3));
    assert_eq!(detect_camera(&probes, Some(3)), None);
}

#[test]
fn test_fourcc_and_rates() {
    // 'R' | 'G'<<8 | 'B'<<16 | '3'<<24
    assert_eq!(fourcc(b'R', b'G', b'B', b'3'), 0x33424752);
    assert_eq!(max_fps_of_intervals(&vec![(1, 30), (1, 60), (2, 30)]), Some(60));
    assert_eq!(max_fps_of_intervals(&vec![(0, 30)]), None);
    let sorted = sort_resolutions(&vec![(640, 480), (1920, 1080), (1280, 720), (1920, 1080)]);
    assert_eq!(sorted, vec![(1920, 1080), (1280, 720), (640, 480)]);
}
