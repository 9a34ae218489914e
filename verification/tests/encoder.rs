use clippy_lib::replay::encoder::{encoder_search_order, pack_ratio, pack_size, vendor_encoder_candidates, EncoderSearch};
use clippy_lib::replay::EncoderPreference;

#[test]
fn pack_size_matches_media_foundation_layout() {
    let packed = pack_size(1920, 1080);
    assert_eq!(packed >> 32, 1920);
    assert_eq!(packed & 0xFFFF_FFFF, 1080);
}

#[test]
fn pack_size_round_trips_through_high_low_u32() {
    for (w, h) in [(640, 480), (1280, 720), (2560, 1440), (3840, 2160)] {
        let p = pack_size(w, h);
        assert_eq!(p >> 32, w as u64);
        assert_eq!(p & 0xFFFF_FFFF, h as u64);
    }
}

#[test]
fn pack_size_handles_dim_zero_edge() {
    assert_eq!(pack_size(0, 0), 0);
    assert_eq!(pack_size(1, 0) >> 32, 1);
    assert_eq!(pack_size(1, 0) & 0xFFFF_FFFF, 0);
}

#[test]
fn pack_ratio_matches_media_foundation_layout() {
    let packed = pack_ratio(60_000, 1001);
    assert_eq!(packed >> 32, 60_000);
    assert_eq!(packed & 0xFFFF_FFFF, 1001);
}

#[test]
fn pack_ratio_common_framerates() {
    for (num, den) in [(30, 1), (60, 1), (120, 1), (144, 1), (240, 1)] {
        let p = pack_ratio(num, den);
        assert_eq!(p >> 32, num as u64);
        assert_eq!(p & 0xFFFF_FFFF, den as u64);
    }
}

#[test]
fn pack_extremes() {
    assert_eq!(pack_size(u32::MAX, u32::MAX), u64::MAX);
    assert_eq!(pack_ratio(1, 1), (1u64 << 32) | 1);
}

#[test]
fn encoder_search_follows_preference() {
    assert_eq!(encoder_search_order(EncoderPreference::Auto), vec![EncoderSearch::AnyHardware, EncoderSearch::Software]);
    assert_eq!(encoder_search_order(EncoderPreference::Software), vec![EncoderSearch::Software]);
    for p in [EncoderPreference::Nvenc, EncoderPreference::Amf, EncoderPreference::Qsv] {
        assert_eq!(encoder_search_order(p), vec![EncoderSearch::ByVendorName, EncoderSearch::AnyHardware]);
    }
}

#[test]
fn vendor_candidates_match_friendly_names() {
    let names: Vec<String> = vec![
        "NVIDIA H.264 Encoder MFT".into(),
        "".into(),
        "AMDh264Encoder".into(),
        "Intel\u{ae} Quick Sync Video H.264 Encoder MFT".into(),
        "Some NVENC bridge".into(),
    ];
    assert_eq!(vendor_encoder_candidates(&names, EncoderPreference::Nvenc), vec![0, 4]);
    assert_eq!(vendor_encoder_candidates(&names, EncoderPreference::Amf), vec![2]);
    assert_eq!(vendor_encoder_candidates(&names, EncoderPreference::Qsv), vec![3]);
    assert_eq!(vendor_encoder_candidates(&names, EncoderPreference::Auto), Vec::<usize>::new());
}
