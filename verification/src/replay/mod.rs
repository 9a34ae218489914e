//! The replay buffer: settings and status, the coordinator's bookkeeping,
//! the workers' buffers, the game allowlist and saving.

pub mod audio;
pub mod buffer;
pub mod capture;
pub mod coordinator;
pub mod encoder;
pub mod focus;
pub mod games;
pub mod save;
pub mod sysinfo;
pub mod worker;

use vstd::prelude::*;
use crate::media::{int_failure_message, int_failure_text, parse_isize, parsed_isize};
use crate::replay::coordinator::CaptureMode;

verus! {

/// Which H.264 encoder to prefer when several are present.
#[derive(Clone, Copy, Debug, PartialEq, Eq, Structural)]
pub enum EncoderPreference {
    Auto,
    Nvenc,
    Amf,
    Qsv,
    Software,
}

impl Default for EncoderPreference {
    fn default() -> (p: EncoderPreference)
        ensures
            p == EncoderPreference::Auto,
    {
        EncoderPreference::Auto
    }
}

/// Output resolution: the captured size, half of it, or a chosen size
/// (always rounded to whole macroblocks).
#[derive(Clone, Copy, Debug, PartialEq, Eq, Structural)]
pub enum ResolutionMode {
    Source,
    Half,
    Custom { width: u32, height: u32 },
}

impl Default for ResolutionMode {
    fn default() -> (m: ResolutionMode)
        ensures
            m == ResolutionMode::Source,
    {
        ResolutionMode::Source
    }
}

/// The settings a replay session runs with.
pub struct ReplaySettings {
    pub duration_secs: u32,
    /// Output devices captured as separate tracks; empty means the default
    /// render endpoint.
    pub audio_device_ids: Vec<String>,
    /// Friendly track names, parallel to `audio_device_ids` (empty: none).
    pub audio_device_names: Vec<String>,
    pub video_bitrate_kbps: u32,
    /// Capture only the focused game's process audio where the system allows.
    pub use_process_loopback: bool,
    pub fps: u32,
    pub resolution_mode: ResolutionMode,
    pub encoder_preference: EncoderPreference,
    /// Seconds between keyframes; `None` lets the encoder choose.
    pub keyframe_interval_secs: Option<u32>,
    /// Per-window mode: ceiling on games captured at once.
    pub max_concurrent_workers: u32,
}

impl Default for ReplaySettings {
    fn default() -> (s: ReplaySettings)
        ensures
            s.duration_secs == 300,
            s.audio_device_ids@.len() == 0,
            s.audio_device_names@.len() == 0,
            s.video_bitrate_kbps == 25_000,
            s.use_process_loopback,
            s.fps == 60,
            s.resolution_mode == ResolutionMode::Source,
            s.encoder_preference == EncoderPreference::Auto,
            s.keyframe_interval_secs == Some(2u32),
            s.max_concurrent_workers == 3,
    {
        ReplaySettings {
            duration_secs: 300,
            audio_device_ids: Vec::new(),
            audio_device_names: Vec::new(),
            video_bitrate_kbps: 25_000,
            use_process_loopback: true,
            fps: 60,
            resolution_mode: ResolutionMode::Source,
            encoder_preference: EncoderPreference::Auto,
            keyframe_interval_secs: Some(2),
            max_concurrent_workers: 3,
        }
    }
}

/// `v` held to `lo..=hi`.
pub open spec fn clamped(v: u32, lo: u32, hi: u32) -> u32 {
    if v < lo { lo } else if v > hi { hi } else { v }
}

fn clamp_u32(v: u32, lo: u32, hi: u32) -> (r: u32)
    requires
        lo <= hi,
    ensures
        r == clamped(v, lo, hi),
{
    if v < lo { lo } else if v > hi { hi } else { v }
}

/// The settings of a start request: each option the caller left out takes
/// its default, and the numeric ones are held to their ranges (buffer
/// 10..=600 s, bitrate 1000..=200000 kb/s, 15..=240 fps, 1..=10 workers).
pub fn settings_from_request(
    duration_secs: Option<u32>,
    bitrate_kbps: Option<u32>,
    audio_device_ids: Option<Vec<String>>,
    audio_device_names: Option<Vec<String>>,
    use_process_loopback: Option<bool>,
    fps: Option<u32>,
    resolution_mode: Option<ResolutionMode>,
    encoder_preference: Option<EncoderPreference>,
    keyframe_interval_secs: Option<Option<u32>>,
    max_concurrent_workers: Option<u32>,
) -> (s: ReplaySettings)
    ensures
        s.duration_secs == clamped(duration_secs.unwrap_or(300), 10, 600),
        s.video_bitrate_kbps == clamped(bitrate_kbps.unwrap_or(25_000), 1_000, 200_000),
        s.audio_device_ids@ == match audio_device_ids { Some(v) => v@, None => Seq::empty() },
        s.audio_device_names@ == match audio_device_names { Some(v) => v@, None => Seq::empty() },
        s.use_process_loopback == use_process_loopback.unwrap_or(true),
        s.fps == clamped(fps.unwrap_or(60), 15, 240),
        s.resolution_mode == resolution_mode.unwrap_or(ResolutionMode::Source),
        s.encoder_preference == encoder_preference.unwrap_or(EncoderPreference::Auto),
        s.keyframe_interval_secs == keyframe_interval_secs.unwrap_or(Some(2u32)),
        s.max_concurrent_workers == clamped(max_concurrent_workers.unwrap_or(3), 1, 10),
{
    ReplaySettings {
        duration_secs: clamp_u32(match duration_secs { Some(v) => v, None => 300 }, 10, 600),
        audio_device_ids: match audio_device_ids { Some(v) => v, None => Vec::new() },
        audio_device_names: match audio_device_names { Some(v) => v, None => Vec::new() },
        video_bitrate_kbps: clamp_u32(match bitrate_kbps { Some(v) => v, None => 25_000 }, 1_000, 200_000),
        use_process_loopback: match use_process_loopback { Some(b) => b, None => true },
        fps: clamp_u32(match fps { Some(v) => v, None => 60 }, 15, 240),
        resolution_mode: match resolution_mode { Some(m) => m, None => ResolutionMode::Source },
        encoder_preference: match encoder_preference { Some(p) => p, None => EncoderPreference::Auto },
        keyframe_interval_secs: match keyframe_interval_secs { Some(k) => k, None => Some(2) },
        max_concurrent_workers: clamp_u32(match max_concurrent_workers { Some(v) => v, None => 3 }, 1, 10),
    }
}

/// What the replay buffer is doing.
pub enum ReplayStatus {
    /// Not started.
    Idle,
    /// Running, but the focused window is not a game.
    Watching,
    /// Capturing a game window or a monitor.
    Active { window_title: String, buffered_secs: u32, vram_mb: u32 },
    Saving,
}

/// The status the UI shows: `Idle` without a running coordinator; a running
/// coordinator's own `Idle` (no worker capturing) shows as `Watching`.
pub fn status_for_ui(coordinator_status: Option<ReplayStatus>) -> (r: ReplayStatus)
    ensures
        match coordinator_status {
            None => r is Idle,
            Some(ReplayStatus::Idle) => r is Watching,
            Some(s) => r == s,
        },
{
    match coordinator_status {
        Some(ReplayStatus::Idle) => ReplayStatus::Watching,
        Some(s) => s,
        None => ReplayStatus::Idle,
    }
}

/// How a start request asks to capture: per game window, or one monitor
/// (its `HMONITOR` as decimal text).
pub enum CaptureModeArg {
    PerWindow,
    Monitor { hmonitor: String },
}

/// The capture mode a start request asks for; a monitor handle that is not
/// a decimal `isize` is refused with the parse error.
pub fn capture_mode_from(arg: &CaptureModeArg) -> (r: Result<CaptureMode, String>)
    ensures
        match arg {
            CaptureModeArg::PerWindow => r == Ok::<CaptureMode, String>(CaptureMode::PerWindow),
            CaptureModeArg::Monitor { hmonitor } => match parsed_isize(hmonitor@) {
                Ok(h) => r == Ok::<CaptureMode, String>(CaptureMode::Monitor(h)),
                Err(k) => r matches Err(e) && e@ == "bad hmonitor: "@ + int_failure_text(k),
            },
        },
{
    match arg {
        CaptureModeArg::PerWindow => Ok(CaptureMode::PerWindow),
        CaptureModeArg::Monitor { hmonitor } => match parse_isize(hmonitor.as_str()) {
            Ok(h) => Ok(CaptureMode::Monitor(h)),
            Err(k) => {
                let mut e = crate::text::owned("bad hmonitor: ");
                let m = int_failure_message(k);
                e.append(m.as_str());
                Err(e)
            },
        },
    }
}

/// A saved clip: where it is, and the title of what was captured.
pub struct ReplaySaveResult {
    pub path: String,
    pub window_title: String,
}

} // verus!
