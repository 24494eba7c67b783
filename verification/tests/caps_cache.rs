use iptv_proxy::blacklist::{Blacklist, FailureKind};
use iptv_proxy::canonical::{CanonicalChannel, CanonicalSource};
use iptv_proxy::caps_cache::{
    caps_required, host_eligible_v2, pick_probe_channel, pick_probe_variant, probes_expected, variant_caps_required,
    CapsRequiredCache, ProbeTarget, Scope,
};
use iptv_proxy::catalog::CatalogSnapshot;
use iptv_proxy::config::{BlacklistConfig, CurationConfig};
use iptv_proxy::default_order::Curation;
use iptv_proxy::measured::{MeasuredStore, Sample, SampleSource};
use iptv_proxy::single::Single;
use iptv_proxy::xtream::ChannelKind;

const NOW: i128 = 1_778_700_000_000_000_000;
const SECOND: i128 = 1_000_000_000;

fn single(x: f32) -> Single {
    Single { bits: x.to_bits() }
}

fn ts_channel(key: &str, stream_id: u64, origin_host: &str) -> CanonicalChannel {
    CanonicalChannel {
        key: key.to_string(),
        name: key.to_string(),
        kind: ChannelKind::Tv,
        sources: vec![CanonicalSource {
            stream_id,
            name: key.to_string(),
            score: 0,
            logo: None,
            tv_archive: false,
            tv_archive_duration: None,
            direct_source: None,
            origin_host: origin_host.to_string(),
            radio_format: None,
        }],
    }
}

fn sample(codec: &str, pix_fmt: Option<&str>, dvb_unsafe: Option<bool>) -> Sample {
    Sample {
        at: NOW,
        source: SampleSource::Sweep,
        width: 1920,
        height: 1080,
        codec: Some(codec.to_string()),
        pix_fmt: pix_fmt.map(|s| s.to_string()),
        color_transfer: Some("bt709".into()),
        framerate: Some(single(50.0)),
        bitrate_kbps: Some(4500),
        dvb_unsafe,
        sample_rate_hz: None,
        audio_channels: None,
        h264_excess_refs: None,
    }
}

fn snapshot(channels: Vec<CanonicalChannel>) -> CatalogSnapshot {
    let mut snap = CatalogSnapshot::empty();
    snap.channels = channels;
    snap.last_refreshed = Some(NOW);
    snap
}

#[test]
fn caps_returns_baseline_for_unmeasured_tv_channel() {
    let ch = ts_channel("rtp1", 1, "http://host.a");
    let m = MeasuredStore::new();
    let caps = caps_required(&ch, &m, &["http://host.a".into()]);
    assert_eq!(caps, vec!["hls", "h264", "aac", "live_video_hls"]);
}

#[test]
fn caps_swap_h264_for_hevc_when_all_sources_hevc() {
    let ch = ts_channel("hevc-only", 1, "http://host.a");
    let mut m = MeasuredStore::new();
    m.push(1, "http://host.a", sample("hevc", Some("yuv420p"), Some(false)));
    let caps = caps_required(&ch, &m, &["http://host.a".into()]);
    assert!(caps.contains(&"hevc"));
    assert!(!caps.contains(&"h264"));
    assert!(!caps.contains(&"hevc_main10"));
}

#[test]
fn caps_add_hevc_main10_only_when_all_sources_10_bit_hevc() {
    let ch = ts_channel("hevc-main10", 1, "http://host.a");
    let mut m = MeasuredStore::new();
    m.push(1, "http://host.a", sample("hevc", Some("yuv420p10le"), Some(false)));
    let caps = caps_required(&ch, &m, &["http://host.a".into()]);
    assert!(caps.contains(&"hevc_main10"));
    assert!(caps.contains(&"hevc"));
}

#[test]
fn caps_mixed_codec_channel_keeps_baseline() {
    let ch = ts_channel("mixed", 1, "http://host.a");
    let mut m = MeasuredStore::new();
    m.push(1, "http://host.a", sample("h264", Some("yuv420p"), Some(false)));
    m.push(1, "http://host.b", sample("hevc", Some("yuv420p"), Some(false)));
    let caps = caps_required(&ch, &m, &["http://host.a".into(), "http://host.b".into()]);
    assert!(caps.contains(&"h264"));
    assert!(!caps.contains(&"hevc"));
    assert!(!caps.contains(&"hevc_main10"));
}

#[test]
fn caps_add_dvb_safe_when_all_sources_dvb_unsafe() {
    let ch = ts_channel("dvb-unsafe-only", 1, "http://host.a");
    let mut m = MeasuredStore::new();
    m.push(1, "http://host.a", sample("h264", Some("yuv420p"), Some(true)));
    let caps = caps_required(&ch, &m, &["http://host.a".into()]);
    assert!(caps.contains(&"dvb_safe"));
}

#[test]
fn caps_one_dvb_safe_source_does_not_add_cap() {
    let ch = ts_channel("mixed-dvb", 1, "http://host.a");
    let mut m = MeasuredStore::new();
    m.push(1, "http://host.a", sample("h264", Some("yuv420p"), Some(true)));
    m.push(1, "http://host.b", sample("h264", Some("yuv420p"), Some(false)));
    let caps = caps_required(&ch, &m, &["http://host.a".into(), "http://host.b".into()]);
    assert!(!caps.contains(&"dvb_safe"));
}

#[test]
fn cache_rebuilds_when_generation_changes() {
    let snap = snapshot(vec![ts_channel("rtp1", 1, "http://host.a")]);
    let mut m = MeasuredStore::new();
    let curation = Curation::default();
    let mut cache = CapsRequiredCache::new();
    let hosts = vec!["http://host.a".to_string()];

    let v1 = cache.ensure(&snap, &m, &hosts, &curation).version;
    m.push(1, "http://host.a", sample("hevc", Some("yuv420p10le"), Some(true)));
    let snap2 = cache.ensure(&snap, &m, &hosts, &curation);
    let caps = snap2.per_channel.get(&"rtp1".to_string()).unwrap();
    assert!(caps.contains(&"hevc"));
    assert!(caps.contains(&"hevc_main10"));
    assert!(caps.contains(&"dvb_safe"));
    assert_ne!(v1, snap2.version);
}

#[test]
fn cache_returns_same_version_when_inputs_unchanged() {
    let snap = snapshot(vec![ts_channel("rtp1", 1, "http://host.a")]);
    let m = MeasuredStore::new();
    let curation = Curation::default();
    let mut cache = CapsRequiredCache::new();
    let hosts = vec!["http://host.a".to_string()];
    let v1 = cache.ensure(&snap, &m, &hosts, &curation).version;
    let v2 = cache.ensure(&snap, &m, &hosts, &curation).version;
    assert_eq!(v1, v2);
    assert_eq!(v1.len(), 16);
}

#[test]
fn pick_probe_channel_picks_highest_curation_rank() {
    let snap = snapshot(vec![ts_channel("rtp1", 1, "http://host.a"), ts_channel("sic", 2, "http://host.a")]);
    let mut m = MeasuredStore::new();
    m.push(1, "http://host.a", sample("hevc", Some("yuv420p"), Some(false)));
    m.push(2, "http://host.a", sample("hevc", Some("yuv420p"), Some(false)));
    let curation = Curation::from_config(&CurationConfig {
        order: vec!["SIC".into(), "RTP 1".into()],
        ..Default::default()
    })
    .unwrap();
    let pick = pick_probe_channel(&snap, &curation, &m, &["http://host.a".into()], ProbeTarget::Hevc).unwrap();
    assert_eq!(pick.key, "sic");
}

#[test]
fn pick_probe_channel_returns_none_when_no_match() {
    let snap = snapshot(vec![ts_channel("rtp1", 1, "http://host.a")]);
    let mut m = MeasuredStore::new();
    m.push(1, "http://host.a", sample("h264", Some("yuv420p"), Some(false)));
    let curation = Curation::default();
    assert!(pick_probe_channel(&snap, &curation, &m, &["http://host.a".into()], ProbeTarget::Hevc).is_none());
}

fn blacklist() -> Blacklist {
    Blacklist::new(BlacklistConfig {
        host_fail_threshold: 1,
        host_ttl_secs: 3600,
        cool_off_steps_secs: [60, 300, 1800, 21600],
        heartbeat_window_secs: 60,
        clean_play_reset_secs: 300,
    })
}

#[test]
fn hosts_serve_while_alive_fine_and_fresh() {
    let mut m = MeasuredStore::new();
    m.push(1, "http://a", sample("h264", None, None));
    let mut bl = blacklist();
    let alive = vec!["http://a".to_string(), "http://b".to_string()];
    bl.note_failure("http://b/live/U/P/9.m3u8", FailureKind::ServerSide, NOW);
    let scope = Scope { measured: &m, blacklist: &bl, alive: &alive, stale_secs: 100, now: NOW + 99 * SECOND };
    assert!(host_eligible_v2(&scope, "http://a", 1));
    assert!(!host_eligible_v2(&scope, "http://b", 1), "bad host");
    assert!(!host_eligible_v2(&scope, "http://c", 1), "not alive");
    let later = Scope { measured: &m, blacklist: &bl, alive: &alive, stale_secs: 100, now: NOW + 100 * SECOND };
    assert!(!host_eligible_v2(&later, "http://a", 1), "stale");
    assert!(host_eligible_v2(&later, "http://a", 2), "never measured");
    assert!(variant_caps_required(&later, 1).is_none());
}

#[test]
fn variants_ask_for_what_was_measured() {
    let mut m = MeasuredStore::new();
    m.push(1, "http://a", sample("hevc", Some("yuv420p10le"), Some(true)));
    let bl = blacklist();
    let alive = vec!["http://a".to_string()];
    let scope = Scope { measured: &m, blacklist: &bl, alive: &alive, stale_secs: 100, now: NOW };
    assert_eq!(
        variant_caps_required(&scope, 1).unwrap(),
        vec!["aac", "dvb_safe", "hevc", "hevc_main10", "hls", "live_video_hls"]
    );
    assert_eq!(variant_caps_required(&scope, 2).unwrap(), vec!["aac", "h264", "hls", "live_video_hls"]);
    let snap = snapshot(vec![ts_channel("rtp1", 1, "http://a"), ts_channel("sic", 2, "http://a")]);
    assert_eq!(
        probes_expected(&scope, &snap),
        vec!["aac", "dvb_safe", "h264", "hevc", "hevc_main10", "hls", "live_video_hls"]
    );
    let curation = Curation::default();
    assert_eq!(pick_probe_variant(&scope, &snap, &curation, "hevc_main10"), Some(("rtp1".to_string(), 1)));
    assert_eq!(pick_probe_variant(&scope, &snap, &curation, "av1"), None);
}
