use clippy_lib::replay::audio::{
    audio_byte_cap, captured_packet, describe_endpoint, enumerate_capture_devices, enumerate_render_devices,
    wave_format, AudioFormat, AudioPacket, AudioRing, CaptureSource, EndpointKind, FoundEndpoint, QpcClock,
    FLAG_DATA_DISCONTINUITY, FLAG_SILENT, FLAG_TIMESTAMP_ERROR, KSDATAFORMAT_SUBTYPE_IEEE_FLOAT,
};
use clippy_lib::replay::worker::{audio_capture_plan, fallback_audio, CaptureTarget};
use clippy_lib::replay::capture::{list_monitors, monitor_label, FoundMonitor};
use clippy_lib::replay::coordinator::{
    encoder_failure_hint, focus_title_for_log, ready_to_save, spawn_failure_report, CaptureMode, Coordination,
    FocusDecision, SaveSnapshot,
};
use clippy_lib::replay::buffer::VideoPacket;
use clippy_lib::replay::sysinfo::collect;
use clippy_lib::replay::{
    capture_mode_from, settings_from_request, status_for_ui, CaptureModeArg, EncoderPreference, ReplaySettings,
    ReplayStatus, ResolutionMode,
};

const NO_GAME: &str = "no game has been captured this session \u{2014} focus a game in the allowlist first";

fn hwnds(c: &Coordination) -> Vec<isize> {
    c.slots.iter().map(|s| s.hwnd).collect()
}

fn spawn(c: &mut Coordination, hwnd: isize) -> Vec<isize> {
    match c.focus_game(hwnd) {
        FocusDecision::Spawn { evicted } => {
            c.worker_spawned(hwnd, format!("game {hwnd}"));
            evicted.iter().map(|s| s.hwnd).collect()
        }
        FocusDecision::AlreadyCapturing => panic!("window {hwnd} was already captured"),
    }
}

#[test]
fn coordinator_new_treats_zero_as_one() {
    let c = Coordination::new(0);
    assert_eq!(c.cap, 1);
    assert!(c.slots.is_empty());
    assert_eq!(c.save_target(), Err(NO_GAME.to_string()));
    assert_eq!(Coordination::new(4).cap, 4);
}

#[test]
fn coordinator_evicts_least_recently_focused() {
    let mut c = Coordination::new(2);
    assert!(spawn(&mut c, 10).is_empty());
    assert!(spawn(&mut c, 20).is_empty());
    assert_eq!(hwnds(&c), vec![20, 10]);
    // Refocus 10: it moves to the front, nothing spawns.
    assert!(matches!(c.focus_game(10), FocusDecision::AlreadyCapturing));
    assert_eq!(hwnds(&c), vec![10, 20]);
    assert_eq!(c.save_target(), Ok(10));
    // A third game evicts 20, the least recently focused.
    assert_eq!(spawn(&mut c, 30), vec![20]);
    assert_eq!(hwnds(&c), vec![30, 10]);
    assert_eq!(c.save_target(), Ok(30));
}

#[test]
fn coordinator_single_slot_replaces_worker() {
    let mut c = Coordination::new(1);
    spawn(&mut c, 1);
    assert_eq!(spawn(&mut c, 2), vec![1]);
    assert_eq!(hwnds(&c), vec![2]);
}

#[test]
fn coordinator_dead_worker_clears_save_target() {
    let mut c = Coordination::new(3);
    spawn(&mut c, 5);
    spawn(&mut c, 6);
    let removed = c.worker_died(6).expect("worker 6 was live");
    assert_eq!(removed.hwnd, 6);
    assert_eq!(removed.title, "game 6");
    assert_eq!(hwnds(&c), vec![5]);
    assert_eq!(c.save_target(), Err(NO_GAME.to_string()));
    assert!(c.worker_died(6).is_none());
    assert_eq!(hwnds(&c), vec![5]);
}

#[test]
fn coordinator_eviction_of_save_target_clears_it() {
    let mut c = Coordination::new(1);
    spawn(&mut c, 7);
    match c.focus_game(8) {
        FocusDecision::Spawn { evicted } => {
            assert_eq!(evicted.len(), 1);
            assert_eq!(evicted[0].hwnd, 7);
        }
        FocusDecision::AlreadyCapturing => panic!("8 is new"),
    }
    assert!(c.slots.is_empty());
    assert_eq!(c.save_target(), Err(NO_GAME.to_string()));
}

#[test]
fn coordinator_non_game_focus_logged_once_per_window() {
    let mut c = Coordination::new(3);
    assert!(c.note_non_game(42, 1_000));
    assert!(!c.note_non_game(42, 2_500));
    assert!(c.note_non_game(42, 3_000));
    assert!(c.note_non_game(43, 3_001));
    assert!(c.note_non_game(42, 3_002));
}

#[test]
fn focus_title_hides_non_game_titles() {
    assert_eq!(focus_title_for_log(true, false, "Elden Ring"), "\"Elden Ring\"");
    assert_eq!(focus_title_for_log(false, true, "Inbox"), "\"Inbox\"");
    assert_eq!(focus_title_for_log(false, false, "Inbox"), "<non-game window>");
}

#[test]
fn encoder_failure_hint_names_session_limit() {
    assert_eq!(
        encoder_failure_hint("NVENC init failed", 2),
        " (hint: 2 game(s) already capturing \u{2014} NVENC consumer cards cap at ~3 concurrent encoder sessions; close another captured game or restart the buffer)"
    );
    assert_eq!(encoder_failure_hint("MFT error 0x80004003", 3).starts_with(" (hint: 3 game(s)"), true);
    assert_eq!(encoder_failure_hint("NVENC init failed", 1), "");
    assert_eq!(encoder_failure_hint("window closed", 5), "");
}

#[test]
fn spawn_failures_are_classified() {
    let (kind, msg) = spawn_failure_report("HW encoder: 0x80004003", 2);
    assert_eq!(kind, "nvenc_ceiling");
    assert!(msg.starts_with("HW encoder: 0x80004003 (hint: 2 game(s) already capturing"));
    let (kind, msg) = spawn_failure_report("D3D11: device lost", 4);
    assert_eq!((kind.as_str(), msg.as_str()), ("encoder_init", "D3D11: device lost"));
}

#[test]
fn endpoint_names_and_default_marks() {
    let d = describe_endpoint(EndpointKind::Render, 0, "id-a".to_string(), "id-a", Some("Speakers".to_string()));
    assert_eq!(d.name, "Speakers (Default)");
    assert!(d.is_default);
    let d = describe_endpoint(EndpointKind::Render, 2, "id-b".to_string(), "id-a", None);
    assert_eq!(d.name, "Output #3");
    assert!(!d.is_default);
    let d = describe_endpoint(EndpointKind::Capture, 0, "m".to_string(), "m", None);
    assert_eq!(d.name, "Default input (device #1)");
    assert_eq!(d.kind, EndpointKind::Capture);
}

#[test]
fn enumerations_keep_order_and_kind() {
    let found = || {
        vec![
            FoundEndpoint { position: 0, id: "a".to_string(), friendly: Some("Headset".to_string()) },
            FoundEndpoint { position: 1, id: "b".to_string(), friendly: None },
        ]
    };
    let r = enumerate_render_devices(found(), "b");
    assert_eq!(r.len(), 2);
    assert_eq!(r[0].name, "Headset");
    assert_eq!(r[1].name, "Default output (device #2)");
    assert_eq!(r[1].id, "b");
    let c = enumerate_capture_devices(found(), "a");
    assert_eq!(c[0].name, "Headset (Default)");
    assert_eq!(c[1].name, "Input #2");
    assert!(c.iter().all(|d| d.kind == EndpointKind::Capture));
}

#[test]
fn monitors_numbered_and_primary_marked() {
    let found = vec![
        FoundMonitor { handle: 65537, device: "\\\\.\\DISPLAY1".to_string(), flags: 1, left: 0, top: 0, right: 2560, bottom: 1440 },
        FoundMonitor { handle: -5, device: "\\\\.\\DISPLAY2".to_string(), flags: 0, left: -1920, top: 0, right: 0, bottom: 1080 },
    ];
    let m = list_monitors(found);
    assert_eq!(m.len(), 2);
    assert_eq!(m[0].hmonitor, "65537");
    assert_eq!(m[0].index, 1);
    assert_eq!(m[0].label, "Display 1 (Primary)");
    assert!(m[0].primary);
    assert_eq!((m[0].width, m[0].height), (2560, 1440));
    assert_eq!(m[1].hmonitor, "-5");
    assert_eq!(m[1].label, "Display 2");
    assert_eq!(m[1].device, "\\\\.\\DISPLAY2");
    assert_eq!((m[1].width, m[1].height), (1920, 1080));
}

#[test]
fn settings_defaults_and_clamps() {
    let s = settings_from_request(None, None, None, None, None, None, None, None, None, None);
    let d = ReplaySettings::default();
    assert_eq!(s.duration_secs, d.duration_secs);
    assert_eq!(s.duration_secs, 300);
    assert_eq!(s.video_bitrate_kbps, 25_000);
    assert_eq!(s.fps, 60);
    assert!(s.use_process_loopback);
    assert_eq!(s.keyframe_interval_secs, Some(2));
    assert_eq!(s.max_concurrent_workers, 3);
    assert_eq!(s.resolution_mode, ResolutionMode::Source);
    assert_eq!(s.encoder_preference, EncoderPreference::Auto);

    let s = settings_from_request(
        Some(5),
        Some(500_000),
        Some(vec!["x".to_string()]),
        Some(vec!["Speakers".to_string()]),
        Some(false),
        Some(1000),
        Some(ResolutionMode::Custom { width: 1280, height: 720 }),
        Some(EncoderPreference::Nvenc),
        Some(None),
        Some(0),
    );
    assert_eq!(s.duration_secs, 10);
    assert_eq!(s.video_bitrate_kbps, 200_000);
    assert_eq!(s.fps, 240);
    assert_eq!(s.max_concurrent_workers, 1);
    assert_eq!(s.audio_device_ids, vec!["x".to_string()]);
    assert_eq!(s.audio_device_names, vec!["Speakers".to_string()]);
    assert!(!s.use_process_loopback);
    assert_eq!(s.keyframe_interval_secs, None);
    assert_eq!(s.resolution_mode, ResolutionMode::Custom { width: 1280, height: 720 });
    assert_eq!(s.encoder_preference, EncoderPreference::Nvenc);

    let s = settings_from_request(Some(900), Some(10), None, None, None, Some(1), None, None, Some(Some(5)), Some(50));
    assert_eq!((s.duration_secs, s.video_bitrate_kbps, s.fps, s.max_concurrent_workers), (600, 1_000, 15, 10));
    assert_eq!(s.keyframe_interval_secs, Some(5));
}

#[test]
fn status_for_ui_maps_idle() {
    assert!(matches!(status_for_ui(None), ReplayStatus::Idle));
    assert!(matches!(status_for_ui(Some(ReplayStatus::Idle)), ReplayStatus::Watching));
    assert!(matches!(status_for_ui(Some(ReplayStatus::Saving)), ReplayStatus::Saving));
    match status_for_ui(Some(ReplayStatus::Active { window_title: "G".to_string(), buffered_secs: 12, vram_mb: 300 })) {
        ReplayStatus::Active { window_title, buffered_secs, vram_mb } => {
            assert_eq!((window_title.as_str(), buffered_secs, vram_mb), ("G", 12, 300));
        }
        _ => panic!("active status must pass through"),
    }
}

#[test]
fn system_info_in_whole_mib() {
    let s = collect("RTX".to_string(), 8 * 1024 * 1024 * 1024 + 5, 3 * 1024 * 1024 - 1, vec!["NVIDIA H.264 Encoder MFT".to_string()]);
    assert_eq!(s.gpu_name, "RTX");
    assert_eq!(s.gpu_vram_mb, 8192);
    assert_eq!(s.ram_total_mb, 2);
    assert_eq!(s.hw_encoders.len(), 1);
}

#[test]
fn wave_formats_detect_float_samples() {
    let f = wave_format(3, 0, 48_000, 2, 32);
    assert!(f.is_float);
    assert_eq!((f.sample_rate, f.channels, f.bits_per_sample), (48_000, 2, 32));
    assert!(wave_format(0xFFFE, KSDATAFORMAT_SUBTYPE_IEEE_FLOAT, 48_000, 2, 32).is_float);
    assert!(!wave_format(0xFFFE, 0x00000001_0000_0010_8000_00aa00389b71, 44_100, 2, 16).is_float);
    assert!(!wave_format(1, KSDATAFORMAT_SUBTYPE_IEEE_FLOAT, 44_100, 1, 16).is_float);
    assert_eq!(KSDATAFORMAT_SUBTYPE_IEEE_FLOAT, 0x00000003_0000_0010_8000_00aa00389b71);
}

#[test]
fn audio_plan_puts_game_audio_first() {
    let ids = vec!["{a}".to_string(), "{b}".to_string()];
    let names = vec!["Headset".to_string()];
    let plan = audio_capture_plan(true, CaptureTarget::Window(7), 1234, "Elden Ring", &ids, &names);
    assert_eq!(plan.len(), 3);
    assert!(matches!(plan[0].source, CaptureSource::Process(1234)));
    assert_eq!(plan[0].name, "Elden Ring (game audio)");
    assert_eq!(plan[0].device_id, "");
    assert!(matches!(&plan[1].source, CaptureSource::Device(Some(id)) if id == "{a}"));
    assert_eq!((plan[1].name.as_str(), plan[1].device_id.as_str()), ("Headset", "{a}"));
    assert_eq!((plan[2].name.as_str(), plan[2].device_id.as_str()), ("", "{b}"));

    let plan = audio_capture_plan(true, CaptureTarget::Window(7), 99, "   ", &Vec::new(), &Vec::new());
    assert_eq!(plan.len(), 1);
    assert_eq!(plan[0].name, "Game audio");
    assert!(audio_capture_plan(true, CaptureTarget::Monitor(1), 99, "x", &Vec::new(), &Vec::new()).is_empty());
    assert!(audio_capture_plan(true, CaptureTarget::Window(1), 0, "x", &Vec::new(), &Vec::new()).is_empty());
    assert!(audio_capture_plan(false, CaptureTarget::Window(1), 5, "x", &Vec::new(), &Vec::new()).is_empty());
    let fb = fallback_audio();
    assert!(matches!(fb.source, CaptureSource::Device(None)));
    assert_eq!((fb.name.as_str(), fb.device_id.as_str()), ("Default output", ""));
}

#[test]
fn capture_modes_from_requests() {
    assert_eq!(capture_mode_from(&CaptureModeArg::PerWindow), Ok(CaptureMode::PerWindow));
    assert_eq!(
        capture_mode_from(&CaptureModeArg::Monitor { hmonitor: "65537".to_string() }),
        Ok(CaptureMode::Monitor(65537))
    );
    assert_eq!(
        capture_mode_from(&CaptureModeArg::Monitor { hmonitor: "-12".to_string() }),
        Ok(CaptureMode::Monitor(-12))
    );
    assert_eq!(
        capture_mode_from(&CaptureModeArg::Monitor { hmonitor: "0x10".to_string() }),
        Err("bad hmonitor: invalid digit found in string".to_string())
    );
    assert_eq!(
        capture_mode_from(&CaptureModeArg::Monitor { hmonitor: String::new() }),
        Err("bad hmonitor: cannot parse integer from empty string".to_string())
    );
}

#[test]
fn monitor_labels_come_from_the_display_list() {
    let found = vec![
        FoundMonitor { handle: 100, device: "a".to_string(), flags: 0, left: 0, top: 0, right: 10, bottom: 10 },
        FoundMonitor { handle: -7, device: "b".to_string(), flags: 1, left: 0, top: 0, right: 10, bottom: 10 },
    ];
    let m = list_monitors(found);
    assert_eq!(monitor_label(&m, -7), "Display 2 (Primary)");
    assert_eq!(monitor_label(&m, 100), "Display 1");
    assert_eq!(monitor_label(&m, 5), "Display");
}

fn pkt(pts: i64, len: usize) -> AudioPacket {
    AudioPacket { data: vec![1u8; len], pts }
}

#[test]
fn audio_ring_ages_out_and_caps_bytes() {
    let mut r = AudioRing::new();
    for (pts, len) in [(0, 100), (5_000_000, 100), (20_000_000, 100), (30_000_000, 100)] {
        r.push(pkt(pts, len));
    }
    assert_eq!(r.bytes, 400);
    // Window of 1 s before t = 2.5 s: the first two packets are too old.
    r.trim(25_000_000, 1, 10_000);
    assert_eq!(r.packets.iter().map(|p| p.pts).collect::<Vec<_>>(), vec![20_000_000, 30_000_000]);
    assert_eq!(r.bytes, 200);
    // A byte cap of 150 drops from the front until the rest fits.
    r.trim(25_000_000, 10, 150);
    assert_eq!(r.packets.iter().map(|p| p.pts).collect::<Vec<_>>(), vec![30_000_000]);
    assert_eq!(r.bytes, 100);
    // Long silence: everything ages out.
    r.trim(1_000_000_000, 1, 10_000);
    assert!(r.packets.is_empty());
    assert_eq!(r.bytes, 0);
}

#[test]
fn silent_packets_become_zeros() {
    let p = captured_packet(FLAG_SILENT, vec![7, 7, 7], 42);
    assert_eq!((p.data, p.pts), (vec![0, 0, 0], 42));
    let p = captured_packet(0, vec![7, 8], 1);
    assert_eq!(p.data, vec![7, 8]);
}

#[test]
fn qpc_clock_anchors_and_recovers() {
    let mut c = QpcClock::new();
    assert_eq!(c.stamp(0, 1_000, 50), 50);
    assert_eq!(c.stamp(0, 1_400, 470), 450);
    assert_eq!(c.stamp(FLAG_TIMESTAMP_ERROR, 2_000, 999), 999);
    assert!(c.anchor.is_none());
    assert_eq!(c.stamp(0, 3_000, 2_000), 2_000);
    assert_eq!(c.stamp(0, 3_010, 2_500), 2_010);
    assert_eq!(c.stamp(FLAG_DATA_DISCONTINUITY, 3_020, 2_600), 2_600);
}

#[test]
fn audio_byte_caps() {
    let f = AudioFormat { sample_rate: 48_000, channels: 2, bits_per_sample: 32, is_float: true };
    assert_eq!(audio_byte_cap(&f, 300), Some(384_000 * 301));
    let wide = AudioFormat { sample_rate: u32::MAX, channels: 8, bits_per_sample: 32, is_float: false };
    assert_eq!(audio_byte_cap(&wide, 1), None);
}

fn snapshot_with(packets: Vec<VideoPacket>) -> SaveSnapshot {
    SaveSnapshot {
        packets,
        audio_tracks: Vec::new(),
        fps: 60,
        window_title: "Game".to_string(),
        encoder_name: String::new(),
    }
}

#[test]
fn save_refuses_an_empty_buffer() {
    let r = ready_to_save(snapshot_with(Vec::new()));
    assert_eq!(
        r.err(),
        Some("active window's buffer is empty \u{2014} give it a few seconds of capture first".to_string())
    );
}

#[test]
fn save_takes_a_buffer_with_video() {
    let pkt = VideoPacket { data: vec![0, 0, 1], pts: 5, is_keyframe: true };
    let snap = ready_to_save(snapshot_with(vec![pkt])).ok().expect("ready");
    assert_eq!(snap.packets.len(), 1);
    assert_eq!(snap.packets[0].pts, 5);
    assert_eq!(snap.fps, 60);
    assert_eq!(snap.window_title, "Game");
}

#[test]
fn coordinator_refocus_keeps_the_others_in_order() {
    let mut c = Coordination::new(4);
    spawn(&mut c, 1);
    spawn(&mut c, 2);
    spawn(&mut c, 3);
    assert_eq!(hwnds(&c), vec![3, 2, 1]);
    assert!(matches!(c.focus_game(1), FocusDecision::AlreadyCapturing));
    assert_eq!(hwnds(&c), vec![1, 3, 2]);
    spawn(&mut c, 4);
    // Full at four: a fifth game evicts 2, the least recently focused.
    assert_eq!(spawn(&mut c, 5), vec![2]);
    assert_eq!(hwnds(&c), vec![5, 4, 1, 3]);
}
