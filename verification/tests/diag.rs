use clippy_lib::diag::{
    diagnostics_hardware, diagnostics_preamble, epoch_to_ymd, epoch_to_ymd_for_filename, fmt_utc, frontend_message,
    session_header, timestamped, DiagLog, DiagVerbose, DIAG_CAP,
};
use clippy_lib::replay::audio::{AudioDevice, EndpointKind};
use clippy_lib::replay::capture::MonitorInfo;

#[test]
fn calendar_dates() {
    assert_eq!(epoch_to_ymd(0), (1970, 1, 1));
    assert_eq!(epoch_to_ymd(951_782_400), (2000, 2, 29));
    assert_eq!(epoch_to_ymd(1_709_251_199), (2024, 2, 29));
    assert_eq!(epoch_to_ymd_for_filename(1_735_689_600), (2025, 1, 1));
}

#[test]
fn utc_text() {
    assert_eq!(fmt_utc(0), "1970-01-01 00:00:00");
    assert_eq!(fmt_utc(1_700_000_000), "2023-11-14 22:13:20");
    assert_eq!(timestamped(59, "hello"), "[1970-01-01 00:00:59] hello");
}

#[test]
fn ring_keeps_the_newest_thousand() {
    let mut log = DiagLog::new();
    for i in 0..(DIAG_CAP + 5) {
        log.push(format!("e{i}"));
    }
    assert_eq!(log.len(), DIAG_CAP);
    let snap = log.snapshot();
    assert!(snap.starts_with("e5\n"));
    assert!(snap.ends_with("e1004\n"));
}

#[test]
fn frontend_messages_are_capped() {
    let long: String = "x".repeat(600);
    let m = frontend_message(&long);
    assert_eq!(m.chars().count(), 5 + 512);
    assert_eq!(frontend_message("hi"), "[fe] hi");
}

#[test]
fn verbose_switch() {
    let v = DiagVerbose::new(false);
    assert!(!v.enabled());
    v.set(true);
    assert!(v.enabled());
}

#[test]
fn snapshot_sections() {
    assert_eq!(
        session_header("0.4.2", 1_700_000_000),
        "===== Clippy v0.4.2 session ended 2023-11-14 22:13:20 UTC =====\n"
    );
    assert_eq!(
        diagnostics_preamble("0.4.2", true, 0, "windows", "x86_64", false, 12),
        "Clippy v0.4.2 (release) \u{2014} diagnostic snapshot\nCaptured: 1970-01-01 00:00:00 UTC (epoch 0)\nTarget: windows x86_64\n\n--- Replay buffer ---\nCoordinator running: false\nGame allowlist size: 12\n"
    );
    let monitors = vec![MonitorInfo {
        hmonitor: "1".to_string(),
        index: 1,
        label: "Display 1 (Primary)".to_string(),
        device: "\\\\.\\DISPLAY1".to_string(),
        primary: true,
        width: 2560,
        height: 1440,
    }];
    let devices = vec![
        AudioDevice { id: "a".to_string(), name: "Speakers".to_string(), is_default: true, kind: EndpointKind::Render },
        AudioDevice { id: "b".to_string(), name: "HDMI".to_string(), is_default: false, kind: EndpointKind::Render },
    ];
    assert_eq!(
        diagnostics_hardware(&monitors, &devices),
        "Monitors detected: 1\n  \u{b7} Display 1 (Primary) (2560x1440, primary)\nAudio render devices: 2\n  \u{b7} Speakers (default)\n  \u{b7} HDMI\n"
    );
    assert_eq!(diagnostics_hardware(&Vec::new(), &Vec::new()), "Monitors detected: 0\nAudio render devices: 0\n");
    let mut log = DiagLog::new();
    log.push("[x] one".to_string());
    log.push("[y] two".to_string());
    assert_eq!(log.event_log_section(), "\n--- Event log ---\n(2 entries)\n[x] one\n[y] two\n");
}
