use clippy_lib::encoder_cascade::{
    encoder_args, encoder_args_high_quality, encoder_args_sized, encoder_chain, CascadeStep, EncoderCascade,
};
use clippy_lib::export::{
    choose_export_path, concat_copy_args, concat_list, export_args_for, gif_args, mp3_args, sized_args, slices_list,
    AudioMux, Crop, ExportPath, ExportSource,
};
use clippy_lib::extract::{batch_copy_args, plan_misses, track_copy_args, track_reencode_args, track_result};
use clippy_lib::ffmpeg::summarize_ffmpeg_invocation;
use clippy_lib::frame::{check_frame_bytes, frame_png_args, frame_rgba_args, rgba_frame_len};
use clippy_lib::helpers::{basename, escape_concat_path, trunc};
use clippy_lib::probe::{audio_tracks_from, first_video_stream, ProbeStream};

fn s(v: &[&str]) -> Vec<String> {
    v.iter().map(|x| x.to_string()).collect()
}

fn copy_mux() -> AudioMux {
    AudioMux { filter_complex: None, maps: s(&["0:a:0?"]), needs_encode: false, downmix_to_stereo: false }
}

fn mixed_mux() -> AudioMux {
    AudioMux {
        filter_complex: Some("[0:a:0][0:a:1]amix=inputs=2[aout]".to_string()),
        maps: s(&["[aout]"]),
        needs_encode: true,
        downmix_to_stereo: true,
    }
}

#[test]
fn export_path_choice() {
    let crop = Some(Crop::new(0, 0, 640, 360));
    assert_eq!(choose_export_path(crop, false, &copy_mux()), ExportPath::FullReencode);
    assert_eq!(choose_export_path(None, true, &copy_mux()), ExportPath::FullReencode);
    assert_eq!(choose_export_path(None, false, &mixed_mux()), ExportPath::AudioReencode);
    assert_eq!(choose_export_path(None, false, &copy_mux()), ExportPath::StreamCopy);
}

#[test]
fn single_clip_stream_copy_maps_everything() {
    let v = export_args_for(true, ExportPath::StreamCopy, "1.500", "4.000", "in.mp4", &copy_mux(), "", "libx264", "out.mp4");
    assert_eq!(
        v,
        s(&[
            "-y", "-hide_banner", "-loglevel", "error", "-progress", "pipe:1", "-nostats", "-ss", "1.500", "-to",
            "4.000", "-i", "in.mp4", "-c", "copy", "-avoid_negative_ts", "make_zero", "-map", "0", "-movflags",
            "+faststart", "-map_chapters", "-1", "out.mp4",
        ])
    );
}

#[test]
fn concat_region_stream_copy_maps_planned_streams() {
    let v = export_args_for(false, ExportPath::StreamCopy, "0", "2", "in.mp4", &copy_mux(), "", "libx264", "seg0.mp4");
    assert_eq!(
        v,
        s(&[
            "-y", "-hide_banner", "-loglevel", "error", "-ss", "0", "-to", "2", "-i", "in.mp4", "-map", "0:v:0?",
            "-map", "0:a:0?", "-c", "copy", "-avoid_negative_ts", "make_zero", "-map_chapters", "-1", "seg0.mp4",
        ])
    );
}

#[test]
fn audio_reencode_copies_video() {
    let v = export_args_for(true, ExportPath::AudioReencode, "0", "2", "in.mp4", &mixed_mux(), "", "libx264", "o.mp4");
    assert_eq!(
        v,
        s(&[
            "-y", "-hide_banner", "-loglevel", "error", "-progress", "pipe:1", "-nostats", "-ss", "0", "-to", "2",
            "-i", "in.mp4", "-map", "0:v:0?", "-map", "[aout]", "-c:v", "copy", "-filter_complex",
            "[0:a:0][0:a:1]amix=inputs=2[aout]", "-c:a", "aac", "-b:a", "192k", "-ac", "2", "-ar", "48000",
            "-avoid_negative_ts", "make_zero", "-movflags", "+faststart", "-map_chapters", "-1", "o.mp4",
        ])
    );
}

#[test]
fn full_reencode_uses_filter_and_quality_encoder() {
    let v = export_args_for(true, ExportPath::FullReencode, "0", "2", "in.mp4", &copy_mux(), "crop=640:360:0:0", "h264_nvenc", "o.mp4");
    assert_eq!(
        v,
        s(&[
            "-y", "-hide_banner", "-loglevel", "error", "-progress", "pipe:1", "-nostats", "-ss", "0", "-to", "2",
            "-i", "in.mp4", "-map", "0:v:0?", "-map", "0:a:0?", "-vf", "crop=640:360:0:0", "-c:v", "h264_nvenc",
            "-preset", "p5", "-rc", "vbr", "-cq", "20", "-b:v", "0", "-c:a", "copy", "-movflags", "+faststart",
            "-map_chapters", "-1", "o.mp4",
        ])
    );
}

#[test]
fn concat_lists_escape_and_refuse_line_breaks() {
    assert_eq!(
        concat_list(&s(&["C:\\clips\\a.mp4", "it's.mp4"])),
        Ok("file 'C:/clips/a.mp4'\nfile 'it'\\''s.mp4'\n".to_string())
    );
    assert_eq!(concat_list(&Vec::new()), Ok(String::new()));
    assert_eq!(concat_list(&s(&["ok.mp4", "bad\n.mp4"])), Err("path contains newline/CR characters".to_string()));
    assert_eq!(
        slices_list("C:\\v.mp4", &vec![("1.0".to_string(), "2.0".to_string()), ("5".to_string(), "6".to_string())]),
        Ok("file 'C:/v.mp4'\ninpoint 1.0\noutpoint 2.0\nfile 'C:/v.mp4'\ninpoint 5\noutpoint 6\n".to_string())
    );
    assert_eq!(slices_list("a\rb", &Vec::new()), Err("path contains newline/CR characters".to_string()));
    assert_eq!(escape_concat_path("a\\b'c"), Ok("a/b'\\''c".to_string()));
}

#[test]
fn concat_and_audio_only_commands() {
    assert_eq!(
        concat_copy_args("list.txt", "out.mp4"),
        s(&[
            "-y", "-hide_banner", "-loglevel", "error", "-progress", "pipe:1", "-nostats", "-f", "concat", "-safe",
            "0", "-i", "list.txt", "-map", "0:v:0?", "-map", "0:a?", "-c", "copy", "-movflags", "+faststart",
            "-map_chapters", "-1", "out.mp4",
        ])
    );
    let src = ExportSource::Slice { from: "1".to_string(), to: "3".to_string(), src: "in.mp4".to_string() };
    assert_eq!(
        mp3_args(&src, &copy_mux(), "o.mp3"),
        s(&[
            "-y", "-hide_banner", "-loglevel", "error", "-progress", "pipe:1", "-nostats", "-ss", "1", "-to", "3",
            "-i", "in.mp4", "-vn", "-map", "0:a:0?", "-c:a", "libmp3lame", "-b:a", "192k", "-map_chapters", "-1",
            "o.mp3",
        ])
    );
    assert_eq!(
        gif_args("0", "1", "in.mp4", "[0:v]fps=15[x]", "o.gif"),
        s(&[
            "-y", "-hide_banner", "-loglevel", "error", "-progress", "pipe:1", "-nostats", "-ss", "0", "-to", "1",
            "-i", "in.mp4", "-an", "-filter_complex", "[0:v]fps=15[x]", "-loop", "0", "o.gif",
        ])
    );
}

#[test]
fn sized_export_targets_bitrate() {
    let list = ExportSource::List { list: "l.txt".to_string() };
    assert_eq!(
        sized_args(&list, &mixed_mux(), "", "libx264", 2500, "o.mp4"),
        s(&[
            "-y", "-hide_banner", "-loglevel", "error", "-progress", "pipe:1", "-nostats", "-f", "concat", "-safe",
            "0", "-i", "l.txt", "-map", "0:v:0?", "-map", "[aout]", "-fflags", "+genpts", "-filter_complex",
            "[0:a:0][0:a:1]amix=inputs=2[aout]", "-c:v", "libx264", "-preset", "veryfast", "-b:v", "2500k",
            "-maxrate", "2500k", "-bufsize", "5000k", "-c:a", "aac", "-b:a", "96k", "-ac", "2", "-ar", "48000",
            "-movflags", "+faststart", "-map_chapters", "-1", "o.mp4",
        ])
    );
}

#[test]
fn encoder_chain_order() {
    assert_eq!(encoder_chain(Some("h264_amf"), None), s(&["h264_amf", "libx264"]));
    assert_eq!(encoder_chain(Some("libx264"), Some("h264_nvenc")), s(&["libx264"]));
    assert_eq!(
        encoder_chain(None, Some(" V....D h264_qsv\n V....D h264_nvenc\n")),
        s(&["h264_nvenc", "h264_qsv", "libx264"])
    );
    assert_eq!(encoder_chain(None, None), s(&["libx264"]));
}

#[test]
fn encoder_argument_sets() {
    assert_eq!(encoder_args("h264_qsv"), s(&["-c:v", "h264_qsv", "-preset", "veryfast", "-global_quality", "28"]));
    assert_eq!(encoder_args("libx264"), s(&["-c:v", "libx264", "-preset", "veryfast", "-crf", "28"]));
    assert_eq!(
        encoder_args_high_quality("h264_amf"),
        s(&["-c:v", "h264_amf", "-quality", "balanced", "-rc", "cqp", "-qp_i", "20", "-qp_p", "20"])
    );
    assert_eq!(encoder_args_high_quality("mystery"), s(&["-c:v", "libx264", "-preset", "medium", "-crf", "20"]));
    assert_eq!(
        encoder_args_sized("h264_nvenc", 800),
        s(&["-c:v", "h264_nvenc", "-preset", "p4", "-tune", "ll", "-rc", "cbr", "-b:v", "800k", "-maxrate", "800k", "-bufsize", "1600k"])
    );
}

#[test]
fn ffmpeg_summary_lines() {
    let args = s(&["-y", "-i", "C:\\Users\\me\\in.mp4", "-c:v", "libx264", "-crf", "20", "-vn", "-filter_complex", "ab\u{e9}", "C:\\Users\\me\\out.mp4"]);
    assert_eq!(summarize_ffmpeg_invocation(&args), "out=out.mp4 c:v=libx264 crf=20 audio-only filter_complex(4B)");
    assert_eq!(summarize_ffmpeg_invocation(&Vec::new()), "ffmpeg");
    assert_eq!(summarize_ffmpeg_invocation(&s(&["o.mp4"])), "out=o.mp4");
}

#[test]
fn track_extraction_commands() {
    assert_eq!(
        track_copy_args("in.mp4", 2, "t2.m4a"),
        s(&[
            "-y", "-hide_banner", "-loglevel", "error", "-i", "in.mp4", "-map", "0:a:2?", "-vn", "-c:a", "copy",
            "-bsf:a", "aac_adtstoasc", "-map_chapters", "-1", "t2.m4a",
        ])
    );
    assert_eq!(
        track_reencode_args("in.mp4", 0, "t0.m4a"),
        s(&[
            "-y", "-hide_banner", "-loglevel", "error", "-i", "in.mp4", "-map", "0:a:0?", "-vn", "-c:a", "aac",
            "-b:a", "192k", "-map_chapters", "-1", "t0.m4a",
        ])
    );
    let v = batch_copy_args("in.mp4", &vec![(0, "a".to_string()), (3, "b".to_string())]);
    assert_eq!(v.len(), 6 + 2 * 10);
    assert_eq!(v[7], "0:a:0?");
    assert_eq!(v[17], "0:a:3?");
    assert_eq!(v[25], "b");
}

#[test]
fn extraction_plan_and_results() {
    assert_eq!(plan_misses(&vec![1, 0, 1, 2], &vec![false, true, false, false]), vec![0, 3]);
    assert_eq!(plan_misses(&Vec::new(), &Vec::new()), Vec::<usize>::new());
    let r = track_result(1, Some("http://x/1".to_string()), Some("ignored".to_string()));
    assert_eq!((r.url.as_deref(), r.error), (Some("http://x/1"), None));
    let r = track_result(2, None, Some("copy failed".to_string()));
    assert_eq!((r.url, r.error.as_deref()), (None, Some("copy failed")));
    let r = track_result(3, None, None);
    assert_eq!(r.error.as_deref(), Some("track extract failed"));
    assert_eq!(r.track_index, 3);
}

fn stream(kind: &str, codec: Option<&str>, channels: Option<u64>, title: Option<&str>, name: Option<&str>) -> ProbeStream {
    ProbeStream {
        codec_type: Some(kind.to_string()),
        codec_name: codec.map(|c| c.to_string()),
        channels,
        channel_layout: None,
        tag_title: title.map(|t| t.to_string()),
        tag_name: name.map(|t| t.to_string()),
        tag_language: Some("eng".to_string()),
    }
}

#[test]
fn probe_streams_to_tracks() {
    let streams = vec![
        stream("video", Some("h264"), None, None, None),
        stream("audio", Some("aac"), Some(2), Some("Game"), Some("ignored")),
        stream("data", None, None, None, None),
        stream("audio", None, None, None, Some("Mic")),
    ];
    let t = audio_tracks_from(&streams);
    assert_eq!(t.len(), 2);
    assert_eq!((t[0].index, t[0].codec.as_str(), t[0].channels, t[0].title.as_deref()), (0, "aac", 2, Some("Game")));
    assert_eq!((t[1].index, t[1].codec.as_str(), t[1].channels, t[1].title.as_deref()), (1, "", 0, Some("Mic")));
    assert_eq!(t[1].language.as_deref(), Some("eng"));
    assert_eq!(first_video_stream(&streams), Some(0));
    assert_eq!(first_video_stream(&vec![stream("audio", None, None, None, None)]), None);
}

#[test]
fn path_helpers() {
    assert_eq!(basename("C:\\Users\\me\\clip.mp4"), "clip.mp4");
    assert_eq!(basename("/home/me/clip.mp4"), "clip.mp4");
    assert_eq!(basename("clip.mp4"), "clip.mp4");
    assert_eq!(basename("C:\\dir\\"), "dir");
    assert_eq!(trunc("hello", 10), "hello");
    assert_eq!(trunc("hello world", 5), "hello\u{2026}");
}

#[test]
fn cascade_tries_each_encoder_then_reports_last_failure() {
    let mut c = EncoderCascade::new(s(&["h264_nvenc", "libx264"]));
    assert!(matches!(c.step(), CascadeStep::Try(e) if e == "h264_nvenc"));
    c.failed("nvenc: no device".to_string());
    assert!(matches!(c.step(), CascadeStep::Try(e) if e == "libx264"));
    c.failed("x264: bad option".to_string());
    assert!(matches!(c.step(), CascadeStep::GiveUp(e) if e == "x264: bad option"));
    let empty = EncoderCascade::new(Vec::new());
    assert!(matches!(empty.step(), CascadeStep::GiveUp(e) if e == "no encoders available"));
}

#[test]
fn frame_grabs() {
    assert_eq!(
        frame_rgba_args("12.500000", "in.mp4"),
        s(&[
            "-y", "-hide_banner", "-loglevel", "error", "-ss", "12.500000", "-i", "in.mp4", "-frames:v", "1", "-vsync",
            "0", "-f", "rawvideo", "-pix_fmt", "rgba", "pipe:1",
        ])
    );
    assert_eq!(
        frame_png_args("0.000000", "in.mp4", "f.png"),
        s(&["-y", "-hide_banner", "-loglevel", "error", "-ss", "0.000000", "-i", "in.mp4", "-frames:v", "1", "-vsync", "0", "-q:v", "1", "f.png"])
    );
    assert_eq!(rgba_frame_len(1920, 1080), Ok(1920 * 1080 * 4));
    assert_eq!(rgba_frame_len(0, 1080), Err("invalid source dimensions".to_string()));
    assert_eq!(check_frame_bytes(16, 16), Ok(()));
    assert_eq!(check_frame_bytes(10, 16), Err("raw RGBA pipe returned 10 bytes, expected 16".to_string()));
}
