use clippy_lib::replay::audio::{AudioFormat, AudioPacket};
use clippy_lib::replay::worker::AudioTrackSnapshot;
use clippy_lib::replay::save::save_plan;
use clippy_lib::replay::save::{
    bsf_args, filename_stamp, mux_args, needs_bsf_pass, pcm_demuxer_flag, replay_file_name, safe_filename_slug,
    track_display_name, truncate_for_metadata, MuxAudioInput,
};

#[test]
fn bsf_required_for_amd_friendly_name() {
    assert!(needs_bsf_pass("AMDh264Encoder"));
    assert!(needs_bsf_pass("AMD H.264 Encoder MFT"));
    assert!(needs_bsf_pass("AMF H.264 Encoder"));
    assert!(needs_bsf_pass("amd h264 hardware encoder"));
}

#[test]
fn bsf_skipped_for_nvidia_intel_software() {
    assert!(!needs_bsf_pass("NVIDIA H.264 Encoder MFT"));
    assert!(!needs_bsf_pass("Intel® Quick Sync Video H.264 Encoder MFT"));
    assert!(!needs_bsf_pass("Intel Hardware H.264 Encoder MFT"));
    assert!(!needs_bsf_pass("Microsoft H264 Video Encoder MFT"));
}

#[test]
fn bsf_defaults_to_running_when_name_unknown() {
    assert!(needs_bsf_pass(""));
}

#[test]
fn bsf_match_is_case_insensitive() {
    assert!(needs_bsf_pass("amd"));
    assert!(needs_bsf_pass("AMD"));
    assert!(needs_bsf_pass("AmD"));
    assert!(needs_bsf_pass("amf"));
    assert!(needs_bsf_pass("AMF"));
}

#[test]
fn truncate_caps_at_max_chars() {
    assert_eq!(truncate_for_metadata("abcdefghij", 5), "abcde");
    assert_eq!(truncate_for_metadata("abcdefghij", 10), "abcdefghij");
    assert_eq!(truncate_for_metadata("abcdefghij", 100), "abcdefghij");
}

#[test]
fn truncate_strips_control_chars() {
    let dirty = "good\nname\rwith\tcontrol\x00chars";
    assert_eq!(truncate_for_metadata(dirty, 128), "goodnamewithcontrolchars");
    assert_eq!(truncate_for_metadata("hi\u{0085}there", 128), "hithere");
}

#[test]
fn truncate_strips_dont_count_against_budget() {
    assert_eq!(truncate_for_metadata("a\nb\nc\nd\ne\nf\ng", 5), "abcde");
}

#[test]
fn truncate_preserves_unicode_on_char_boundary() {
    let emojis = "🎮🎯🎲";
    assert_eq!(truncate_for_metadata(emojis, 3), "🎮🎯🎲");
    assert_eq!(truncate_for_metadata(emojis, 2), "🎮🎯");
    assert_eq!(truncate_for_metadata("abc🎮def", 4), "abc🎮");
}

#[test]
fn truncate_handles_empty_input() {
    assert_eq!(truncate_for_metadata("", 128), "");
}

#[test]
fn truncate_handles_zero_max() {
    assert_eq!(truncate_for_metadata("anything", 0), "");
}

#[test]
fn truncate_preserves_normal_punctuation_and_space() {
    let s = "Stream A - \"Game Audio\" #1!";
    assert_eq!(truncate_for_metadata(s, 128), s);
}

// ---- pcm flags and the mux command ----

fn fmt(bits: u16, is_float: bool) -> AudioFormat {
    AudioFormat { sample_rate: 48000, channels: 2, bits_per_sample: bits, is_float }
}

#[test]
fn pcm_flag_follows_sample_format() {
    assert_eq!(pcm_demuxer_flag(&fmt(32, true)), "f32le");
    assert_eq!(pcm_demuxer_flag(&fmt(16, false)), "s16le");
    assert_eq!(pcm_demuxer_flag(&fmt(24, false)), "s24le");
    assert_eq!(pcm_demuxer_flag(&fmt(32, false)), "s32le");
    assert_eq!(pcm_demuxer_flag(&fmt(8, false)), "s16le");
}

#[test]
fn bsf_pass_declares_double_tick_rate() {
    let a = bsf_args("in.h264", "fixed.h264", 60);
    assert_eq!(
        a,
        vec!["-y", "-i", "in.h264", "-c", "copy", "-bsf:v", "h264_metadata=tick_rate=120:fixed_frame_rate_flag=1", "-f", "h264", "fixed.h264"]
    );
}

#[test]
fn mux_command_maps_each_track_and_names_it() {
    let tracks = vec![
        MuxAudioInput { path: "a0.pcm".into(), format: fmt(32, true), name: "Game\naudio".into() },
        MuxAudioInput { path: "a1.pcm".into(), format: AudioFormat { sample_rate: 44100, channels: 1, bits_per_sample: 16, is_float: false }, name: String::new() },
    ];
    let a = mux_args("59.9400", "raw.h264", &tracks, "out.mp4");
    assert_eq!(
        a,
        vec![
            "-y", "-r", "59.9400", "-framerate", "59.9400", "-f", "h264", "-i", "raw.h264",
            "-f", "f32le", "-ar", "48000", "-ac", "2", "-i", "a0.pcm",
            "-f", "s16le", "-ar", "44100", "-ac", "1", "-i", "a1.pcm",
            "-c:v", "copy", "-map", "0:v",
            "-c:a", "aac", "-b:a", "192k",
            "-map", "1:a", "-metadata:s:a:0", "title=Gameaudio",
            "-map", "2:a",
            "out.mp4",
        ]
    );
}

#[test]
fn mux_command_without_audio_has_no_audio_codec() {
    let a = mux_args("60.0000", "raw.h264", &Vec::new(), "out.mp4");
    assert_eq!(a, vec!["-y", "-r", "60.0000", "-framerate", "60.0000", "-f", "h264", "-i", "raw.h264", "-c:v", "copy", "-map", "0:v", "out.mp4"]);
}

#[test]
fn slug_replaces_forbidden_and_joins_words() {
    assert_eq!(safe_filename_slug("Elden Ring"), "Elden_Ring");
    assert_eq!(safe_filename_slug("  Half-Life: Alyx  "), "Half-Life-_Alyx");
    assert_eq!(safe_filename_slug("...<Test>..."), "Test");
    assert_eq!(safe_filename_slug("a\tb\u{7}c"), "abc");
    assert_eq!(safe_filename_slug("a \u{a0} b"), "a_b");
    assert_eq!(safe_filename_slug("***"), "");
    assert_eq!(safe_filename_slug(""), "");
}

#[test]
fn slug_is_capped_at_sixty_chars() {
    let long = "x".repeat(100);
    assert_eq!(safe_filename_slug(&long), "x".repeat(60));
    let s = safe_filename_slug("\u{e9}t\u{e9} \u{e9}t\u{e9}");
    assert_eq!(s, "\u{e9}t\u{e9}_\u{e9}t\u{e9}");
}

#[test]
fn stamps_are_utc_and_zero_padded() {
    assert_eq!(filename_stamp(0), "1970-01-01_00-00-00");
    assert_eq!(filename_stamp(1_700_000_000), "2023-11-14_22-13-20");
    assert_eq!(filename_stamp(951_782_400), "2000-02-29_00-00-00");
}

#[test]
fn replay_file_names() {
    assert_eq!(replay_file_name("Elden Ring", 1_700_000_000), "Clippy_Replay_Elden_Ring_2023-11-14_22-13-20.mp4");
    assert_eq!(replay_file_name("***", 0), "Clippy_Replay_1970-01-01_00-00-00.mp4");
}

#[test]
fn track_names_follow_the_latest_user_label() {
    let names = vec![
        ("dev-a".to_string(), "Game".to_string()),
        ("dev-b".to_string(), String::new()),
        ("dev-a".to_string(), "Later".to_string()),
    ];
    assert_eq!(track_display_name("dev-a", "Speakers", &names), "Game");
    assert_eq!(track_display_name("dev-b", "Mic", &names), "Mic");
    assert_eq!(track_display_name("dev-c", "Line", &names), "Line");
    assert_eq!(track_display_name("", "Process", &names), "Process");
}

fn track(name: &str, packets: usize) -> AudioTrackSnapshot {
    AudioTrackSnapshot {
        format: AudioFormat { sample_rate: 48000, channels: 2, bits_per_sample: 16, is_float: false },
        packets: (0..packets).map(|i| AudioPacket { data: vec![0; 4], pts: i as i64 }).collect(),
        name: name.to_string(),
        device_id: String::new(),
    }
}

#[test]
fn save_plan_skips_silent_tracks() {
    let tracks = vec![track("Game", 3), track("Mic", 0), track("Discord", 1)];
    assert_eq!(save_plan(10, &tracks), Ok(vec![0, 2]));
    assert_eq!(save_plan(10, &vec![track("Mic", 0)]), Ok(vec![]));
}

#[test]
fn save_plan_refuses_an_empty_video_buffer() {
    assert_eq!(save_plan(0, &vec![track("Game", 3)]), Err("buffer is empty".to_string()));
}
