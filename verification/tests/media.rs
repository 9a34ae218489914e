use clippy_lib::media::{
    cache_file_name, cache_path_for, check_project_size, check_request, classify_strategy, generate_session_token,
    int_failure_message, media_url, mime_type_for, parse_isize, parse_u64, plan_range, proxy_args, proxy_cache_key, proxy_result, remux_args, CacheFile,
    IntParseFailure, MediaCodecs, RangeReply, Strategy,
};
use sha2::Digest;

fn codecs(v: &str, a: Option<&str>, c: &str) -> MediaCodecs {
    MediaCodecs { video_codec: v.to_string(), audio_codec: a.map(|s| s.to_string()), container: c.to_string() }
}

#[test]
fn strategy_follows_codecs_and_container() {
    assert_eq!(classify_strategy(&codecs("h264", Some("aac"), "mov,mp4,m4a,3gp,3g2,mj2")), Strategy::Direct);
    assert_eq!(classify_strategy(&codecs("hevc", None, "MOV, MP4")), Strategy::Direct);
    assert_eq!(classify_strategy(&codecs("h264", Some("aac"), "matroska,webm")), Strategy::Remux);
    assert_eq!(classify_strategy(&codecs("h264", Some("opus"), "mov,mp4")), Strategy::Encode);
    assert_eq!(classify_strategy(&codecs("vp9", Some("aac"), "mov,mp4")), Strategy::Encode);
    assert_eq!(classify_strategy(&codecs("h264", None, "mpegts")), Strategy::Remux);
}

#[test]
fn cache_key_is_sha256_of_path_mtime_and_size() {
    let mut h = sha2::Sha256::new();
    h.update("C:\\clips\\a.mp4".as_bytes());
    h.update(1_700_000_000u64.to_le_bytes());
    h.update(12_345u64.to_le_bytes());
    let expected = format!("{:x}", h.finalize());
    let key = proxy_cache_key("C:\\clips\\a.mp4", 1_700_000_000, 12_345);
    assert_eq!(key, expected);
    assert_eq!(key.len(), 64);
    assert_ne!(key, proxy_cache_key("C:\\clips\\a.mp4", 1_700_000_001, 12_345));
}

#[test]
fn cache_names_use_the_key_prefix() {
    let key = "0123456789abcdef0123456789abcdef0123456789abcdef0123456789abcdef";
    let p = "0123456789abcdef0123456789abcdef";
    assert_eq!(cache_file_name(key, CacheFile::Remux), format!("{p}.remux.mp4"));
    assert_eq!(cache_file_name(key, CacheFile::Proxy), format!("{p}.proxy.mp4"));
    assert_eq!(cache_file_name(key, CacheFile::Keyframes), format!("{p}.kf.f32"));
    assert_eq!(cache_file_name(key, CacheFile::Waveform(2)), format!("{p}.wave-2.f32"));
    assert_eq!(cache_file_name(key, CacheFile::Project), format!("{p}.project.json"));
    assert_eq!(cache_path_for(key, 3), format!("{p}.track-3.m4a"));
}

#[test]
fn media_url_percent_encodes_the_path() {
    let u = media_url(8123, "tok", "C:\\My Clips\\ä.mp4");
    assert_eq!(u, "http://127.0.0.1:8123/vid?token=tok&p=C%3A%5CMy%20Clips%5C%C3%A4.mp4");
}

#[test]
fn requests_are_gated_by_host_token_and_registration() {
    assert_eq!(check_request(Some("127.0.0.1:80"), 80, "t", "t", true), None);
    assert_eq!(check_request(Some("localhost:80"), 80, "t", "t", true), None);
    assert_eq!(check_request(Some("evil.com:80"), 80, "t", "t", true), Some("bad host"));
    assert_eq!(check_request(None, 80, "t", "t", true), Some("bad host"));
    assert_eq!(check_request(Some("127.0.0.1:80"), 80, "x", "t", true), Some("bad token"));
    assert_eq!(check_request(Some("127.0.0.1:80"), 80, "t", "t", false), Some("not allowed"));
}

#[test]
fn parse_matches_std() {
    for s in ["0", "42", "+7", "18446744073709551615", "18446744073709551616", "", "+", "-1", "1a", " 1"] {
        assert_eq!(parse_u64(s), s.parse::<u64>().ok(), "input {s:?}");
    }
}

#[test]
fn range_replies() {
    assert_eq!(plan_range(None, 100), RangeReply::Whole);
    assert_eq!(plan_range(Some("bytes=0-"), 100), RangeReply::Partial { start: 0, end: 99 });
    assert_eq!(plan_range(Some("bytes=10-19"), 100), RangeReply::Partial { start: 10, end: 19 });
    assert_eq!(plan_range(Some("bytes=10-500"), 100), RangeReply::Partial { start: 10, end: 99 });
    assert_eq!(plan_range(Some("bytes=-5"), 100), RangeReply::Partial { start: 0, end: 5 });
    assert_eq!(plan_range(Some("bytes=200-"), 100), RangeReply::Unsatisfiable);
    assert_eq!(plan_range(Some("bytes=0-"), 0), RangeReply::Unsatisfiable);
    assert_eq!(plan_range(Some("bytes=1-2-3"), 100), RangeReply::Whole);
    assert_eq!(plan_range(Some("items=1-2"), 100), RangeReply::Whole);
}

#[test]
fn session_tokens_are_random_hex() {
    let a = generate_session_token().unwrap();
    let b = generate_session_token().unwrap();
    assert_eq!(a.len(), 64);
    assert!(a.chars().all(|c| c.is_ascii_hexdigit() && !c.is_ascii_uppercase()));
    assert_ne!(a, b);
    assert_ne!(a, "0".repeat(64));
}

#[test]
fn mime_comes_from_the_extension() {
    assert_eq!(mime_type_for("clip.mp4"), "video/mp4");
    assert_eq!(mime_type_for("noext"), "application/octet-stream");
}

#[test]
fn proxy_commands_and_results() {
    assert_eq!(
        remux_args("in.mkv", "out.mp4"),
        vec!["-y", "-hide_banner", "-loglevel", "error", "-progress", "pipe:1", "-nostats", "-i", "in.mkv", "-map", "0:v:0?", "-map", "0:a:0?", "-c", "copy", "-map_chapters", "-1", "out.mp4"]
    );
    let p = proxy_args("in.avi", "libx264", "out.mp4");
    assert_eq!(&p[9..11], &["-vf".to_string(), "scale='min(1280,iw)':-2".to_string()]);
    assert_eq!(&p[11..17], &["-c:v", "libx264", "-preset", "veryfast", "-crf", "28"]);
    assert_eq!(p.last().unwrap(), "out.mp4");
    assert_eq!(proxy_result("x".into(), false, Strategy::Encode, Some("h264_nvenc")).strategy, "encode (h264_nvenc)");
    assert_eq!(proxy_result("x".into(), true, Strategy::Encode, None).strategy, "encode (cached)");
    assert_eq!(proxy_result("x".into(), true, Strategy::Direct, None).strategy, "direct");
}

#[test]
fn project_size_guard() {
    assert!(check_project_size(1_000_000).is_ok());
    assert_eq!(
        check_project_size(1_000_001).unwrap_err(),
        "project file unreasonably large (1000001 bytes); refusing to load"
    );
}

#[test]
fn parse_isize_matches_std() {
    for text in ["0", "42", "+42", "-42", "-0", "007", "9223372036854775807", "-9223372036854775808"] {
        assert_eq!(parse_isize(text), Ok(text.parse::<isize>().unwrap()), "{text}");
    }
    assert_eq!(parse_isize(""), Err(IntParseFailure::Empty));
    assert_eq!(parse_isize("-"), Err(IntParseFailure::InvalidDigit));
    assert_eq!(parse_isize("+"), Err(IntParseFailure::InvalidDigit));
    assert_eq!(parse_isize(" 1"), Err(IntParseFailure::InvalidDigit));
    assert_eq!(parse_isize("12a"), Err(IntParseFailure::InvalidDigit));
    assert_eq!(parse_isize("9223372036854775808"), Err(IntParseFailure::PosOverflow));
    assert_eq!(parse_isize("-9223372036854775809"), Err(IntParseFailure::NegOverflow));
    assert_eq!(parse_isize("99999999999999999999x"), Err(IntParseFailure::PosOverflow));
    for (text, kind) in [("", IntParseFailure::Empty), ("x", IntParseFailure::InvalidDigit), ("99999999999999999999", IntParseFailure::PosOverflow), ("-99999999999999999999", IntParseFailure::NegOverflow)] {
        let e = text.parse::<isize>().unwrap_err();
        assert_eq!(int_failure_message(kind), e.to_string());
    }
}
