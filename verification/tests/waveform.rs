use clippy_lib::probe::keyframe_fields;
use clippy_lib::waveform::{PeakBins, S16Decoder, WAVEFORM_BINS};

#[test]
fn decoder_pairs_little_endian_bytes() {
    let mut d = S16Decoder::new();
    assert_eq!(d.feed(&[0x01, 0x00, 0xff, 0x7f, 0x00, 0x80, 0xff, 0xff]), vec![1, 32767, -32768, -1]);
    assert_eq!(d.pending, None);
}

#[test]
fn decoder_holds_a_split_sample_across_chunks() {
    let mut d = S16Decoder::new();
    assert_eq!(d.feed(&[0x34, 0x12, 0x78]), vec![0x1234]);
    assert_eq!(d.pending, Some(0x78));
    assert_eq!(d.feed(&[]), Vec::<i16>::new());
    assert_eq!(d.pending, Some(0x78));
    assert_eq!(d.feed(&[0x56, 0x02]), vec![0x5678]);
    assert_eq!(d.pending, Some(0x02));
    assert_eq!(d.feed(&[0x01]), vec![0x0102]);
    assert_eq!(d.pending, None);
}

#[test]
fn decoding_ignores_where_chunks_split() {
    let bytes: Vec<u8> = (0u8..=40).map(|b| b.wrapping_mul(37)).collect();
    let mut whole = S16Decoder::new();
    let expected = whole.feed(&bytes);
    for cut in 0..=bytes.len() {
        let mut d = S16Decoder::new();
        let mut got = d.feed(&bytes[..cut]);
        got.extend(d.feed(&bytes[cut..]));
        assert_eq!(got, expected, "cut at {cut}");
        assert_eq!(d.pending, whole.pending);
    }
}

#[test]
fn peaks_keep_largest_magnitude_per_bin() {
    let mut p = PeakBins::new();
    p.record(0, 100);
    p.record(0, -300);
    p.record(0, 200);
    p.record(1, -32768);
    p.record(5, 7);
    p.record(0, 250);
    p.record(WAVEFORM_BINS - 1, 1);
    let bins = p.finish();
    assert_eq!(bins.len(), WAVEFORM_BINS);
    assert_eq!(&bins[..6], &[300, 32768, 0, 0, 0, 7]);
    assert_eq!(bins[WAVEFORM_BINS - 1], 1);
    assert!(bins[6..WAVEFORM_BINS - 1].iter().all(|&b| b == 0));
}

#[test]
fn silent_waveform_is_all_zero() {
    let bins = PeakBins::new().finish();
    assert_eq!(bins, vec![0u16; WAVEFORM_BINS]);
}

#[test]
fn keyframe_fields_skip_blank_and_missing() {
    let out = "0.000000\r\n  2.002000 \nN/A\n\n4.004000\n";
    assert_eq!(keyframe_fields(out), vec!["0.000000".to_string(), "2.002000".to_string(), "4.004000".to_string()]);
    assert_eq!(keyframe_fields(""), Vec::<String>::new());
    assert_eq!(keyframe_fields("1.5"), vec!["1.5".to_string()]);
}
