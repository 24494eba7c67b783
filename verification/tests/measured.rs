use iptv_proxy::measured::{
    derive_variant_caps, ExcessRefsState, InProgress, MeasuredEntry, MeasuredStore, PerPlayAccumulator, PictureFacts,
    Sample, SampleSource, WINDOW,
};
use iptv_proxy::single::Single;

const NOW: i128 = 1_778_700_000_000_000_000;
const SECOND: u64 = 1_000_000_000;

fn single(x: f32) -> Single {
    Single { bits: x.to_bits() }
}

fn fifty() -> Option<Single> {
    Some(single(50.0))
}

fn sample(kbps: Option<u32>, w: u32, h: u32) -> Sample {
    Sample {
        at: NOW,
        source: SampleSource::Sweep,
        width: w,
        height: h,
        codec: Some("h264".into()),
        pix_fmt: Some("yuv420p".into()),
        color_transfer: Some("bt709".into()),
        framerate: fifty(),
        bitrate_kbps: kbps,
        dvb_unsafe: None,
        sample_rate_hz: None,
        audio_channels: None,
        h264_excess_refs: None,
    }
}

#[test]
fn push_evicts_oldest_at_window() {
    let mut e = MeasuredEntry::default();
    for k in 0..(WINDOW + 3) {
        e.push(sample(Some(k as u32 * 100), 1920, 1080));
    }
    assert_eq!(e.samples.len(), WINDOW);
    assert_eq!(e.samples.front().unwrap().bitrate_kbps, Some(300));
    assert_eq!(e.samples.back().unwrap().bitrate_kbps, Some(((WINDOW + 2) * 100) as u32));
}

#[test]
fn aggregate_median_ignores_one_bad_sample() {
    let mut e = MeasuredEntry::default();
    for kbps in &[3950u32, 4020, 4080, 50, 4030] {
        e.push(sample(Some(*kbps), 1920, 1080));
    }
    let agg = e.aggregate().unwrap();
    assert_eq!(agg.bitrate_kbps, Some(4020));
    assert_eq!(agg.width, 1920);
    assert_eq!(agg.height, 1080);
}

#[test]
fn aggregate_handles_all_none_bitrate() {
    let mut e = MeasuredEntry::default();
    for _ in 0..3 {
        e.push(sample(None, 1280, 720));
    }
    let agg = e.aggregate().unwrap();
    assert!(agg.bitrate_kbps.is_none());
    assert_eq!(agg.width, 1280);
    assert_eq!(agg.height, 720);
}

#[test]
fn aggregate_returns_none_when_empty() {
    let e = MeasuredEntry::default();
    assert!(e.aggregate().is_none());
}

#[test]
fn store_round_trip_via_disk() {
    let mut store = MeasuredStore::new();
    store.push(12345, "http://host.a", sample(Some(4500), 1920, 1080));
    store.push(12345, "http://host.a", sample(Some(4600), 1920, 1080));
    store.push(12345, "http://host.b", sample(Some(3000), 1280, 720));

    let store2 = MeasuredStore::from_entries(store.snapshot());
    assert!(store2.has_samples(12345, "http://host.a"));
    assert!(store2.has_samples(12345, "http://host.b"));
    let a = store2.get(12345, "http://host.a").unwrap();
    assert_eq!(a.width, 1920);
    assert_eq!(a.bitrate_kbps, Some(4600));
}

#[test]
fn store_missing_file_starts_empty_no_warn() {
    let store = MeasuredStore::new();
    assert!(!store.has_samples(1, "h"));
    assert!(store.snapshot().is_empty());
}

#[test]
fn store_counts_its_changes() {
    let mut store = MeasuredStore::new();
    let before = store.generation();
    store.push(1, "h", sample(Some(1), 2, 3));
    assert_eq!(store.generation(), before + 1);
    assert_eq!(store.most_recent_at(1, "h"), Some(NOW));
    assert_eq!(store.oldest_sample_at(1, "h"), Some(NOW));
    assert!(store.most_recent_at(2, "h").is_none());
}

#[test]
fn in_progress_commit_requires_classification() {
    let ip = InProgress {
        bitrate_ewma_kbps: Some(single(4000.0)),
        last_activity: Some(0),
        ..Default::default()
    };
    assert!(ip.into_sample(NOW).is_none());
}

#[test]
fn in_progress_commit_with_classification_yields_complete_sample() {
    let ip = InProgress {
        width: Some(1920),
        height: Some(1080),
        codec: Some("h264".into()),
        pix_fmt: Some("yuv420p".into()),
        color_transfer: Some("bt709".into()),
        framerate: fifty(),
        bitrate_ewma_kbps: Some(single(4523.4)),
        dvb_unsafe: Some(false),
        sample_rate_hz: None,
        audio_channels: None,
        h264_excess_refs: None,
        last_activity: Some(0),
    };
    let s = ip.into_sample(NOW).unwrap();
    assert_eq!(s.width, 1920);
    assert_eq!(s.height, 1080);
    assert_eq!(s.bitrate_kbps, Some(4523));
    assert!(matches!(s.source, SampleSource::PerPlay));
}

fn facts() -> PictureFacts {
    PictureFacts {
        width: Some(1920),
        height: Some(1080),
        codec: Some("h264".into()),
        pix_fmt: None,
        color_transfer: None,
        framerate: None,
        dvb_unsafe: None,
    }
}

#[test]
fn per_play_accumulator_ewma_smooths_bitrate() {
    let mut acc = PerPlayAccumulator::new();
    acc.note_classification(10, "http://h", facts(), 0);
    acc.note_segment_kbps(10, "http://h", single(4000.0), 0);
    acc.note_segment_kbps(10, "http://h", single(5000.0), 0);
    acc.note_segment_kbps(10, "http://h", single(6000.0), 0);
    let ip = acc.peek(10, "http://h");
    let v = f32::from_bits(ip.bitrate_ewma_kbps.unwrap().bits);
    assert!((v - 4810.0).abs() < 1.0, "got {v}");
}

#[test]
fn averages_are_those_of_floating_point() {
    let mut acc = PerPlayAccumulator::new();
    acc.note_classification(10, "http://h", facts(), 0);
    let mut average = 1.5019f32;
    acc.note_segment_kbps(10, "http://h", single(average), 0);
    for rate in [1.498f32, 1.499, 0.1, 4523.4, 3e38, 1e-40] {
        acc.note_segment_kbps(10, "http://h", single(rate), 0);
        average = 0.3 * rate + (1.0 - 0.3) * average;
    }
    let ip = acc.peek(10, "http://h");
    assert_eq!(ip.bitrate_ewma_kbps, Some(single(average)));
    assert_eq!(ip.into_sample(NOW).unwrap().bitrate_kbps, Some(average.round() as u32));
}

#[test]
fn quiet_plays_come_to_samples() {
    let mut acc = PerPlayAccumulator::new();
    let mut store = MeasuredStore::new();
    acc.note_classification(10, "http://h", facts(), 0);
    acc.note_segment_kbps(10, "http://h", single(4000.0), SECOND);
    acc.note_classification(11, "http://h", facts(), 25 * SECOND);
    assert_eq!(acc.commit(&mut store, 30 * SECOND, NOW), 0);
    assert_eq!(acc.commit(&mut store, 31 * SECOND, NOW), 1);
    assert_eq!(store.get(10, "http://h").unwrap().bitrate_kbps, Some(4000));
    assert!(!store.has_samples(11, "http://h"));
    assert_eq!(acc.commit(&mut store, 100 * SECOND, NOW), 1);
    assert!(store.has_samples(11, "http://h"));
}

fn sample_excess(codec: &str, h264_excess: Option<bool>) -> Sample {
    Sample {
        at: NOW,
        source: SampleSource::Sweep,
        width: 1920,
        height: 1080,
        codec: Some(codec.into()),
        pix_fmt: Some("yuv420p".into()),
        color_transfer: None,
        framerate: None,
        bitrate_kbps: Some(4000),
        dvb_unsafe: Some(false),
        sample_rate_hz: None,
        audio_channels: None,
        h264_excess_refs: h264_excess,
    }
}

#[test]
fn stability_gate_on_for_one_positive() {
    let mut e = MeasuredEntry::default();
    e.push(sample_excess("h264", Some(true)));
    let agg = e.aggregate().unwrap();
    assert_eq!(agg.h264_excess_refs_state, ExcessRefsState::On);
    assert!(agg.caps_required.iter().any(|c| c == "h264_excess_refs"));
}

#[test]
fn stability_gate_off_after_two_negatives() {
    let mut e = MeasuredEntry::default();
    e.push(sample_excess("h264", Some(false)));
    e.push(sample_excess("h264", Some(false)));
    let agg = e.aggregate().unwrap();
    assert_eq!(agg.h264_excess_refs_state, ExcessRefsState::Off);
    assert!(!agg.caps_required.iter().any(|c| c == "h264_excess_refs"));
}

#[test]
fn stability_gate_unknown_with_one_negative_is_fail_closed() {
    let mut e = MeasuredEntry::default();
    e.push(sample_excess("h264", Some(false)));
    let agg = e.aggregate().unwrap();
    assert_eq!(agg.h264_excess_refs_state, ExcessRefsState::Unknown);
    assert!(
        agg.caps_required.iter().any(|c| c == "h264_excess_refs"),
        "UNKNOWN must fail closed (keep cap); caps_required={:?}",
        agg.caps_required,
    );
}

#[test]
fn stability_gate_unknown_does_not_add_cap_for_hevc() {
    let s = sample_excess("hevc", None);
    let caps = derive_variant_caps(&s, ExcessRefsState::Unknown);
    assert!(
        !caps.iter().any(|c| c == "h264_excess_refs"),
        "non-H.264 codec must never carry h264_excess_refs cap; caps={caps:?}"
    );
}

#[test]
fn stability_gate_na_for_hevc() {
    let mut e = MeasuredEntry::default();
    e.push(sample_excess("hevc", None));
    let agg = e.aggregate().unwrap();
    assert_eq!(agg.h264_excess_refs_state, ExcessRefsState::NotApplicable);
    assert!(!agg.caps_required.iter().any(|c| c == "h264_excess_refs"));
}

#[test]
fn derive_variant_caps_tv_baseline_preserves_aac() {
    let s = sample_excess("h264", None);
    let caps = derive_variant_caps(&s, ExcessRefsState::Off);
    assert!(caps.iter().any(|c| c == "aac"));
    assert!(caps.iter().any(|c| c == "live_video_hls"));
    assert!(caps.iter().any(|c| c == "h264"));
    assert!(caps.iter().any(|c| c == "hls"));
}

#[test]
fn derive_variant_caps_radio_baseline() {
    let s = Sample {
        at: NOW,
        source: SampleSource::Sweep,
        width: 0,
        height: 0,
        codec: Some("aac".into()),
        pix_fmt: None,
        color_transfer: None,
        framerate: None,
        bitrate_kbps: Some(128),
        dvb_unsafe: None,
        sample_rate_hz: Some(48000),
        audio_channels: Some(2),
        h264_excess_refs: None,
    };
    let caps = derive_variant_caps(&s, ExcessRefsState::NotApplicable);
    assert!(caps.iter().any(|c| c == "hls"));
    assert!(caps.iter().any(|c| c == "live_audio_only_hls"));
    assert!(!caps.iter().any(|c| c == "live_video_hls"));
    assert!(!caps.iter().any(|c| c == "aac"));
}

#[test]
fn derive_variant_caps_hevc_main10() {
    let mut s = sample_excess("hevc", None);
    s.pix_fmt = Some("yuv420p10le".into());
    let caps = derive_variant_caps(&s, ExcessRefsState::NotApplicable);
    assert!(caps.iter().any(|c| c == "hevc"));
    assert!(caps.iter().any(|c| c == "hevc_main10"));
}

#[test]
fn derive_variant_caps_dvb_safe() {
    let mut s = sample_excess("h264", None);
    s.dvb_unsafe = Some(true);
    let caps = derive_variant_caps(&s, ExcessRefsState::Off);
    assert!(caps.iter().any(|c| c == "dvb_safe"));
}
