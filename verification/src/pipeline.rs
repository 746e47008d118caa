//! Decision logic of the capture, render and publish stages: frame pacing,
//! camera change and rollback outcomes, renderer hot-swapping, the failure
//! escalation counter, and the swappable sink slot that lets the publish
//! stage be attached and detached while capture and render keep running.
//! Threads, channels and device handles live outside the library.

use vstd::prelude::*;

use crate::renderer::AsciiRenderer;

verus! {

/// Frame data passed between pipeline stages.
pub struct Frame {
    pub rgb: Vec<u8>,
    pub width: u32,
    pub height: u32,
}

/// Consecutive capture failures tolerated before a reconnect is attempted.
pub const RECONNECT_THRESHOLD: u32 = 30;

/// The capture stage's pacing interval for a target frame rate, in
/// milliseconds.
pub fn frame_interval_ms(fps: u32) -> (r: u32)
    requires
        fps >= 1,
    ensures
        r == 1000u32 / fps,
        r <= 1000,
{
    1000 / fps
}

/// How long the capture stage sleeps after one cycle to hold its rate.
pub fn pace_sleep_ms(elapsed_ms: u32, interval_ms: u32) -> (r: u32)
    ensures
        elapsed_ms < interval_ms ==> r == interval_ms - elapsed_ms,
        elapsed_ms >= interval_ms ==> r == 0,
{
    if elapsed_ms < interval_ms {
        interval_ms - elapsed_ms
    } else {
        0
    }
}

/// The camera parameters the capture stage runs with.
#[derive(Clone, Copy, PartialEq, Eq)]
pub struct CaptureConfig {
    pub index: u32,
    pub resolution: Option<(u32, u32)>,
    pub fps: u32,
}

/// How a camera or rate change resolves once the reopen attempts are known.
pub enum CameraChangeOutcome {
    /// The new camera opened: the change is committed.
    Committed(CaptureConfig),
    /// The new camera failed but the old one reopened: the change is
    /// reported as failed and the previous configuration stays in effect.
    RolledBack(CaptureConfig),
    /// Both the new and the old camera failed: the pipeline must shut down.
    Fatal,
}

/// Resolve a camera change: commit on success; on failure roll back to the
/// previous camera, and escalate to a fatal shutdown only when the rollback
/// fails too.
pub fn resolve_camera_change(
    old_config: &CaptureConfig,
    requested: &CaptureConfig,
    open_ok: bool,
    rollback_ok: bool,
) -> (r: CameraChangeOutcome)
    ensures
        open_ok ==> r == CameraChangeOutcome::Committed(*requested),
        !open_ok && rollback_ok ==> r == CameraChangeOutcome::RolledBack(*old_config),
        !open_ok && !rollback_ok ==> r == CameraChangeOutcome::Fatal,
{
    if open_ok {
        CameraChangeOutcome::Committed(*requested)
    } else if rollback_ok {
        CameraChangeOutcome::RolledBack(*old_config)
    } else {
        CameraChangeOutcome::Fatal
    }
}

/// The configuration a frame-rate change asks the camera to reopen with:
/// same device and resolution, new rate.
pub fn fps_change_request(cur: &CaptureConfig, fps: u32) -> (r: CaptureConfig)
    ensures
        r.index == cur.index,
        r.resolution == cur.resolution,
        r.fps == fps,
{
    CaptureConfig { index: cur.index, resolution: cur.resolution, fps }
}

/// Count one capture failure; a reconnect is attempted only after the
/// threshold of consecutive failures is reached, and a success resets the
/// count.
pub fn capture_failure_step(consecutive_errors: u32) -> (r: (u32, bool))
    requires
        consecutive_errors < 0xffffffff,
    ensures
        r.0 == consecutive_errors + 1,
        r.1 == (consecutive_errors + 1 >= RECONNECT_THRESHOLD),
{
    let next = consecutive_errors + 1;
    (next, next >= RECONNECT_THRESHOLD)
}

/// A frame-rate counter that reports every five seconds.
pub struct FpsCounter {
    pub name: &'static str,
    pub count: u32,
    pub last_report_ms: u64,
}

impl FpsCounter {
    /// A fresh counter starting at the given clock value.
    pub fn new(name: &'static str, now_ms: u64) -> (r: FpsCounter)
        ensures
            r.name == name,
            r.count == 0,
            r.last_report_ms == now_ms,
    {
        FpsCounter { name, count: 0, last_report_ms: now_ms }
    }

    /// Count one frame; report the rate in milli-frames per second once five
    /// seconds have elapsed, resetting the window.
    pub fn tick(&mut self, now_ms: u64) -> (r: Option<u32>)
        requires
            old(self).count < 20000000,
        ensures
            match r {
                Some(milli_fps) => now_ms >= old(self).last_report_ms + 5000 && milli_fps as int
                    == (old(self).count + 1) * 1000000 / (now_ms - old(self).last_report_ms)
                    && final(self).count == 0 && final(self).last_report_ms == now_ms,
                None => (now_ms < old(self).last_report_ms + 5000 || now_ms
                    - old(self).last_report_ms > 0xffffffff) && final(self).count == old(self).count
                    + 1 && final(self).last_report_ms == old(self).last_report_ms,
            },
{
        self.count = self.count + 1;
        if now_ms >= self.last_report_ms && now_ms - self.last_report_ms >= 5000 && now_ms
            - self.last_report_ms <= 0xffffffff {
            let elapsed: u64 = now_ms - self.last_report_ms;
            proof {
                assert((self.count as int) * 1000000 <= 20000000int * 1000000int
                    && (self.count as int) * 1000000 / (elapsed as int) <= 4000000000int)
                    by (nonlinear_arith)
                    requires
                        0 < self.count <= 20000000,
                        elapsed >= 5000,
                ;
            }
            let milli_fps: u64 = (self.count as u64) * 1000000 / elapsed;
            let report = Some((milli_fps as u32));
            self.count = 0;
            self.last_report_ms = now_ms;
            report
        } else {
            None
        }
    }
}

/// The sequential core of the pipeline: the active renderer behind its
/// single owning slot, and the swappable sink attachment of the publish
/// stage.  The surrounding process runs one stage per thread; this state
/// carries every decision that is not I/O.
pub struct Pipeline {
    pub renderer: AsciiRenderer,
    /// Whether the publish stage is attached; detaching it starves the sink
    /// without affecting capture or render.
    pub output_attached: bool,
    /// The cooperative shutdown flag all stages check.
    pub shutdown: bool,
}

impl Pipeline {
    /// The pipeline's structural invariant.
    pub open spec fn wf(self) -> bool {
        self.renderer.wf()
    }

    /// Assemble a pipeline around a freshly built renderer.
    pub fn new(renderer: AsciiRenderer, output_attached: bool) -> (r: Pipeline)
        requires
            renderer.wf(),
        ensures
            r.wf(),
            r.output_attached == output_attached,
            !r.shutdown,
            r.renderer == renderer,
    {
        Pipeline { renderer, output_attached, shutdown: false }
    }

    /// The width frames are published at.
    pub fn output_width(&self) -> (r: u32)
        ensures
            r == self.renderer.output_width,
    {
        self.renderer.output_width
    }

    /// The height frames are published at.
    pub fn output_height(&self) -> (r: u32)
        ensures
            r == self.renderer.output_height,
    {
        self.renderer.output_height
    }

    /// Attach the publish stage; fails when it is already attached.
    /// Capture and render are untouched.
    pub fn start_output(&mut self) -> (r: Result<(), String>)
        ensures
            match r {
                Ok(()) => !old(self).output_attached && final(self).output_attached,
                Err(_) => old(self).output_attached && final(self).output_attached,
            },
            final(self).renderer == old(self).renderer,
            final(self).shutdown == old(self).shutdown,
    {
        if self.output_attached {
            let mut m = String::new();
            vstd::string::StringExecFns::append(&mut m, "Output already running");
            Err(m)
        } else {
            self.output_attached = true;
            Ok(())
        }
    }

    /// Detach the publish stage, starving the sink; capture and render keep
    /// serving live-preview consumers.
    pub fn stop_output(&mut self)
        ensures
            !final(self).output_attached,
            final(self).renderer == old(self).renderer,
            final(self).shutdown == old(self).shutdown,
    {
        self.output_attached = false;
    }

    /// Ask every stage to wind down.
    pub fn signal_shutdown(&mut self)
        ensures
            final(self).shutdown,
            final(self).renderer == old(self).renderer,
            final(self).output_attached == old(self).output_attached,
    {
        self.shutdown = true;
    }

    /// Process one captured frame: render it, and say whether the rendered
    /// frame is also published.  A frame is published exactly when the
    /// publish stage is attached; the preview copy is always produced, so
    /// detaching the sink never stalls rendering.
    pub fn process_frame(&mut self, frame: &Frame, now_ms: u64) -> (r: (Vec<u8>, bool))
        requires
            old(self).wf(),
            frame.width <= crate::renderer::DIM_MAX,
            frame.height <= crate::renderer::DIM_MAX,
        ensures
            final(self).wf(),
            final(self).output_attached == old(self).output_attached,
            final(self).shutdown == old(self).shutdown,
            r.0@.len() == old(self).renderer.output_width * old(self).renderer.output_height * 3,
            r.1 == old(self).output_attached,
    {
        let rendered = self.renderer.render(&frame.rgb, frame.width, frame.height, now_ms);
        (rendered, self.output_attached)
    }

    /// Apply a renderer rebuild: the new renderer replaces the old one only
    /// when its construction succeeded, so a failed rebuild leaves the prior
    /// configuration in effect.
    pub fn apply_rebuild(&mut self, attempt: Result<AsciiRenderer, String>) -> (r: Result<
        (),
        String,
    >)
        requires
            old(self).wf(),
            attempt is Ok ==> attempt.unwrap().wf(),
        ensures
            final(self).wf(),
            attempt is Ok ==> r is Ok && final(self).renderer == attempt.unwrap(),
            attempt is Err ==> r is Err && final(self).renderer == old(self).renderer,
            final(self).output_attached == old(self).output_attached,
            final(self).shutdown == old(self).shutdown,
    {
        match attempt {
            Ok(new_renderer) => {
                self.renderer = new_renderer;
                Ok(())
            },
            Err(e) => Err(e),
        }
    }
}

} // verus!
