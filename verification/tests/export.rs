use clippy_lib::export::{
    build_audio_filter_complex, build_video_filter, gif_filter_chain, push_audio_maps, push_audio_output_args, Crop,
    TrackGain,
};

/// A mix entry the way the editor classifies a slider value.
fn gain(index: u32, volume: f64) -> TrackGain {
    TrackGain::new(index, (volume - 1.0).abs() < 1e-6, volume > 0.001, format!("{:.4}", volume))
}

#[test]
fn fc_single_source_default_mix_takes_fast_path() {
    let mux = build_audio_filter_complex(&vec![], 1, "", false);
    assert!(mux.filter_complex.is_none(), "single-track default mix should not build a graph");
    assert_eq!(mux.maps, vec!["0:a:0?"]);
    assert!(!mux.needs_encode, "single-track no-mix should stream-copy");
    assert!(!mux.downmix_to_stereo);
}

#[test]
fn fc_multi_source_default_mix_builds_amix() {
    let mux = build_audio_filter_complex(&vec![], 3, "", false);
    let fc = mux.filter_complex.clone().expect("multi-track default needs amix");
    assert!(fc.contains("amix=inputs=3"), "graph: {fc}");
    assert_eq!(mux.maps, vec!["[aout]"]);
    assert!(mux.needs_encode);
    assert!(mux.downmix_to_stereo);
}

#[test]
fn fc_single_active_unity_no_post_filters_short_circuits() {
    let mix = vec![gain(0, 1.0)];
    let mux = build_audio_filter_complex(&mix, 1, "", false);
    assert!(
        mux.filter_complex.is_none(),
        "single unity-gain active track + no post-filters must NOT build a graph",
    );
    assert_eq!(mux.maps, vec!["0:a:0?"]);
    assert!(!mux.needs_encode);
}

#[test]
fn fc_single_active_unity_with_post_filters_builds_graph() {
    let mix = vec![gain(0, 1.0)];
    let mux = build_audio_filter_complex(&mix, 1, "atempo=2.0000", false);
    let fc = mux.filter_complex.clone().expect("post-filters force a graph");
    assert!(fc.contains("[0:a:0]"), "graph: {fc}");
    assert!(fc.contains("atempo"), "graph: {fc}");
    assert_eq!(mux.maps, vec!["[aout]"]);
    assert!(mux.needs_encode);
}

#[test]
fn fc_all_muted_synthesizes_silence() {
    let mix = vec![gain(0, 0.0), gain(1, 0.0)];
    let mux = build_audio_filter_complex(&mix, 2, "", false);
    let fc = mux.filter_complex.clone().expect("muted-all needs anullsrc");
    assert!(fc.contains("anullsrc"), "graph: {fc}");
    assert_eq!(mux.maps, vec!["[aout]"]);
}

#[test]
fn fc_single_track_non_unity_emits_volume_filter() {
    let mix = vec![gain(0, 0.5)];
    let mux = build_audio_filter_complex(&mix, 1, "", false);
    let fc = mux.filter_complex.clone().expect("non-unity volume requires a graph");
    assert!(fc.contains("volume=0.5000"), "graph: {fc}");
    assert_eq!(mux.maps, vec!["[aout]"]);
}

#[test]
fn fc_multi_track_explicit_mix_amixes_active() {
    let mix = vec![gain(0, 1.0), gain(1, 0.5), gain(2, 0.0)];
    let mux = build_audio_filter_complex(&mix, 3, "", false);
    let fc = mux.filter_complex.clone().expect("multi-track mix needs a graph");
    assert!(fc.contains("amix=inputs=2"), "graph: {fc}");
    assert_eq!(mux.maps, vec!["[aout]"]);
    assert!(mux.downmix_to_stereo);
}

#[test]
fn fc_preserve_default_mix_pure_streamcopy() {
    let mux = build_audio_filter_complex(&vec![], 3, "", true);
    assert!(mux.filter_complex.is_none(), "preserve + identity mix must stream-copy");
    assert_eq!(mux.maps, vec!["0:a?"]);
    assert!(!mux.needs_encode, "preserve identity must NOT re-encode");
    assert!(!mux.downmix_to_stereo);
}

#[test]
fn fc_preserve_mix_changes_emit_per_track_streams() {
    let mix = vec![gain(0, 1.0), gain(1, 0.5), gain(2, 0.0)];
    let mux = build_audio_filter_complex(&mix, 3, "", true);
    let fc = mux.filter_complex.clone().expect("non-identity mix needs a graph");
    assert!(!fc.contains("amix"), "preserve must NOT fold via amix: {fc}");
    assert!(fc.contains("[0:a:0]volume=1.0000[a0]"), "graph: {fc}");
    assert!(fc.contains("[0:a:1]volume=0.5000[a1]"), "graph: {fc}");
    assert_eq!(mux.maps, vec!["[a0]", "[a1]"]);
    assert!(mux.needs_encode);
    assert!(!mux.downmix_to_stereo, "preserve must NOT force stereo");
}

#[test]
fn fc_preserve_with_speed_applies_atempo_per_track() {
    let mux = build_audio_filter_complex(&vec![], 2, "atempo=2.0000", true);
    let fc = mux.filter_complex.clone().expect("post-filters force a graph");
    assert!(fc.contains("[0:a:0]volume=1.0000,atempo=2.0000[a0]"), "graph: {fc}");
    assert!(fc.contains("[0:a:1]volume=1.0000,atempo=2.0000[a1]"), "graph: {fc}");
    assert_eq!(mux.maps, vec!["[a0]", "[a1]"]);
    assert!(mux.needs_encode);
}

#[test]
fn fc_preserve_all_muted_still_emits_one_stream() {
    let mix = vec![gain(0, 0.0), gain(1, 0.0)];
    let mux = build_audio_filter_complex(&mix, 2, "", true);
    let fc = mux.filter_complex.clone().expect("preserve + all-muted needs anullsrc");
    assert!(fc.contains("anullsrc"), "graph: {fc}");
    assert_eq!(mux.maps, vec!["[a0]"]);
    assert!(mux.needs_encode);
}

#[test]
fn fc_returned_graph_is_never_empty_when_some() {
    let cases: Vec<(Vec<TrackGain>, usize, &str, bool)> = vec![
        (vec![], 1, "", false),
        (vec![], 3, "", false),
        (vec![gain(0, 1.0)], 1, "", false),
        (vec![gain(0, 1.0)], 1, "atempo=2.0000", false),
        (vec![gain(0, 0.5)], 1, "", false),
        (vec![gain(0, 0.0)], 1, "", false),
        (vec![gain(0, 1.0), gain(1, 1.0)], 2, "", false),
        (vec![gain(0, 1.0), gain(1, 0.5), gain(2, 0.0)], 3, "atempo=2.0000", false),
        (vec![], 1, "", true),
        (vec![], 3, "", true),
        (vec![gain(0, 0.5), gain(1, 1.0)], 2, "", true),
        (vec![gain(0, 0.0), gain(1, 0.0)], 2, "", true),
        (vec![], 2, "atempo=2.0000", true),
    ];
    for (mix, total, post, preserve) in cases {
        let mux = build_audio_filter_complex(&mix, total, post, preserve);
        if let Some(g) = &mux.filter_complex {
            assert!(!g.is_empty(), "Some(\"\") for total={total} post={post:?} preserve={preserve}");
        }
        assert!(!mux.maps.is_empty(), "maps empty for total={total} post={post:?} preserve={preserve}");
    }
}

#[test]
fn output_args_encode_with_downmix() {
    let mux = build_audio_filter_complex(&vec![], 3, "", false);
    let mut args: Vec<String> = Vec::new();
    push_audio_output_args(&mut args, &mux, 192);
    let joined = args.join(" ");
    assert!(joined.contains("-c:a aac"), "args: {joined}");
    assert!(joined.contains("-b:a 192k"), "args: {joined}");
    assert!(joined.contains("-ac 2"), "args: {joined}");
    assert!(joined.contains("-ar 48000"), "args: {joined}");
}

#[test]
fn output_args_streamcopy_emits_only_copy() {
    let mux = build_audio_filter_complex(&vec![], 3, "", true);
    let mut args: Vec<String> = Vec::new();
    push_audio_output_args(&mut args, &mux, 192);
    let joined = args.join(" ");
    assert!(joined.contains("-c:a copy"), "args: {joined}");
    assert!(!joined.contains("aac"), "should not encode: {joined}");
    assert!(!joined.contains("-ac"), "should not downmix: {joined}");
    assert!(!joined.contains("-ar"), "should not resample: {joined}");
}

#[test]
fn output_args_preserve_per_track_encode_no_downmix() {
    let mix = vec![gain(0, 0.5), gain(1, 1.0)];
    let mux = build_audio_filter_complex(&mix, 2, "", true);
    let mut args: Vec<String> = Vec::new();
    push_audio_output_args(&mut args, &mux, 192);
    let joined = args.join(" ");
    assert!(joined.contains("-c:a aac"), "args: {joined}");
    assert!(joined.contains("-b:a 192k"), "args: {joined}");
    assert!(!joined.contains("-ac 2"), "preserve must not force stereo: {joined}");
    assert!(!joined.contains("-ar 48000"), "preserve must not resample: {joined}");
}

#[test]
fn push_maps_emits_one_arg_per_stream() {
    let mix = vec![gain(0, 0.5), gain(1, 0.7), gain(2, 1.0)];
    let mux = build_audio_filter_complex(&mix, 3, "", true);
    let mut args: Vec<String> = Vec::new();
    push_audio_maps(&mut args, &mux);
    assert_eq!(args.len(), 6);
    assert_eq!(args[0], "-map");
    assert_eq!(args[1], "[a0]");
    assert_eq!(args[2], "-map");
    assert_eq!(args[3], "[a1]");
    assert_eq!(args[4], "-map");
    assert_eq!(args[5], "[a2]");
}

// ---- exact graphs and the video side ----

#[test]
fn downmix_graph_is_exact() {
    let mix = vec![gain(0, 1.0), gain(1, 0.5)];
    let mux = build_audio_filter_complex(&mix, 2, "", false);
    let fc = mux.filter_complex.unwrap();
    assert!(fc.ends_with("[aout]"), "graph: {fc}");
    assert!(fc.contains("[0:a:1]volume=0.5000"), "graph: {fc}");
}

#[test]
fn crop_filter_text() {
    let c = Crop::new(10, 20, 640, 360);
    assert_eq!(c.to_filter(), "crop=640:360:10:20");
    assert_eq!(build_video_filter(Some(c), Some("setpts=0.500000*PTS")), "crop=640:360:10:20,setpts=0.500000*PTS");
    assert_eq!(build_video_filter(None, None), "");
    assert_eq!(build_video_filter(None, Some("setpts=2.000000*PTS")), "setpts=2.000000*PTS");
}

#[test]
fn gif_graph_caps_width_and_builds_palette() {
    let g = gif_filter_chain(None, None, 1280);
    assert_eq!(
        g,
        "fps=15,scale='min(1280,iw)':-2:flags=lanczos,split[s0][s1];[s0]palettegen=stats_mode=diff[p];[s1][p]paletteuse=dither=bayer:bayer_scale=5"
    );
    let g = gif_filter_chain(Some(Crop::new(0, 0, 100, 50)), None, 480);
    assert!(g.starts_with("crop=100:50:0:0,fps=15,scale='min(480,iw)'"), "graph: {g}");
}

#[test]
fn every_mapped_label_is_made_by_the_graph() {
    let cases = vec![
        build_audio_filter_complex(&vec![gain(0, 0.5), gain(1, 1.0)], 2, "", true),
        build_audio_filter_complex(&vec![gain(0, 0.5), gain(1, 1.0)], 2, "", false),
        build_audio_filter_complex(&vec![gain(1, 0.0)], 2, "atempo=2.0", true),
        build_audio_filter_complex(&vec![], 3, "atempo=0.5", false),
        build_audio_filter_complex(&vec![gain(0, 1.0)], 1, "atempo=2.0", false),
    ];
    for mux in cases {
        let graph = mux.filter_complex.clone().expect("a graph");
        assert!(!mux.maps.is_empty());
        for m in &mux.maps {
            assert!(graph.contains(m.as_str()), "{m} not in {graph}");
        }
    }
}
