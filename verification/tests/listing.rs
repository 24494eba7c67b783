use iptv_proxy::api::{
    can_probe, channel_has_alive_source, epg_candidates, feedback, fine_hosts, heartbeat, list_candidates, pick_kind_probe,
    probe_h264_excess_refs_json, probe_match, probe_url, FeedbackBody, FeedbackKind, HeartbeatBody,
};
use iptv_proxy::blacklist::{Blacklist, FailureKind};
use iptv_proxy::candidates::World;
use iptv_proxy::canonical::{CanonicalChannel, CanonicalSource};
use iptv_proxy::caps_cache::{CapsRequiredCache, Scope};
use iptv_proxy::catalog::CatalogSnapshot;
use iptv_proxy::codec::StreamClassifier;
use iptv_proxy::config::{BlacklistConfig, CurationConfig, EpgConfig};
use iptv_proxy::default_order::Curation;
use iptv_proxy::epg::EpgState;
use iptv_proxy::hosts::{HostState, ProbeResult};
use iptv_proxy::listing::{list_channels, ChannelDto, Listing};
use iptv_proxy::measured::{MeasuredStore, Sample, SampleSource};
use iptv_proxy::play_sessions::PlaySessions;
use iptv_proxy::radio::RadioFormat;
use iptv_proxy::readiness::admin_caps_readiness;
use iptv_proxy::status::{admin_inject_sample, status, InjectSampleBody};
use iptv_proxy::table::TextMap;
use iptv_proxy::xtream::{ChannelKind, XtreamClient};

const SECOND: i128 = 1_000_000_000;
const NOW: i128 = 1_778_700_000 * SECOND;
const SECS: i64 = 1_778_700_000;

fn blacklist() -> Blacklist {
    Blacklist::new(BlacklistConfig {
        host_fail_threshold: 1,
        host_ttl_secs: 600,
        cool_off_steps_secs: [60, 300, 1800, 21600],
        heartbeat_window_secs: 60,
        clean_play_reset_secs: 300,
    })
}

fn client() -> XtreamClient {
    XtreamClient::new("u".to_string(), "p".to_string())
}

fn source(stream_id: u64, name: &str) -> CanonicalSource {
    CanonicalSource {
        stream_id,
        name: name.to_string(),
        score: 0,
        logo: None,
        tv_archive: false,
        tv_archive_duration: None,
        direct_source: None,
        origin_host: "http://a".to_string(),
        radio_format: None,
    }
}

fn tv(key: &str, sources: Vec<CanonicalSource>) -> CanonicalChannel {
    CanonicalChannel { key: key.to_string(), name: key.to_uppercase(), kind: ChannelKind::Tv, sources }
}

fn radio(key: &str, url: &str, format: RadioFormat) -> CanonicalChannel {
    let mut s = source(9, key);
    s.origin_host = String::new();
    s.direct_source = Some(url.to_string());
    s.radio_format = Some(format);
    CanonicalChannel { key: key.to_string(), name: key.to_string(), kind: ChannelKind::Radio, sources: vec![s] }
}

fn texts(names: &[&str]) -> Vec<String> {
    names.iter().map(|s| s.to_string()).collect()
}

fn snapshot(channels: Vec<CanonicalChannel>) -> CatalogSnapshot {
    let mut snap = CatalogSnapshot::empty();
    snap.channels = channels;
    snap
}

fn ranked(keys: &[&str]) -> Curation {
    let mut cfg = CurationConfig::default();
    cfg.order = texts(keys);
    Curation::from_config(&cfg).unwrap()
}

fn sample(codec: &str, excess: Option<bool>) -> Sample {
    Sample {
        at: NOW - 30 * SECOND,
        source: SampleSource::Sweep,
        width: 1920,
        height: 1080,
        codec: Some(codec.to_string()),
        pix_fmt: Some("yuv420p".to_string()),
        color_transfer: None,
        framerate: None,
        bitrate_kbps: Some(4000),
        dvb_unsafe: Some(false),
        sample_rate_hz: None,
        audio_channels: None,
        h264_excess_refs: excess,
    }
}

fn list(
    snap: &CatalogSnapshot,
    measured: &MeasuredStore,
    caps: Option<&[String]>,
    curation: &Curation,
    per_variant: bool,
) -> (Vec<ChannelDto>, TextMap<usize>) {
    let (c, b, alive) = (client(), blacklist(), texts(&["http://a"]));
    let world =
        World { client: &c, measured, blacklist: &b, alive: &alive, log: &[], per_variant, stale_secs: 3600, now: NOW };
    let required = CapsRequiredCache::new().ensure(snap, measured, &alive, curation);
    let radio_curation = Curation::default();
    list_channels(&Listing {
        world: &world,
        snap,
        caps: &required,
        client: caps,
        tv_curation: curation,
        radio_curation: &radio_curation,
        base: "http://me/",
    })
}

fn keys(rows: &[ChannelDto]) -> Vec<&str> {
    rows.iter().map(|r| r.key.as_str()).collect()
}

#[test]
fn placed_channels_come_first_and_the_rest_by_name() {
    let snap = snapshot(vec![
        tv("zeta", vec![source(1, "z")]),
        tv("sic", vec![source(2, "s")]),
        tv("alfa", vec![source(3, "a")]),
        tv("rtp1", vec![source(4, "r")]),
    ]);
    let (rows, hidden) = list(&snap, &MeasuredStore::new(), None, &ranked(&["rtp1", "sic"]), false);
    assert_eq!(keys(&rows), vec!["rtp1", "sic", "alfa", "zeta"]);
    assert_eq!(rows[0].default_rank, Some(0));
    assert_eq!(rows[2].default_rank, None);
    assert!(hidden.entries.is_empty());
}

#[test]
fn rows_tell_how_to_play() {
    let mut s = source(1, "RTP 1 FHD");
    s.tv_archive = true;
    s.tv_archive_duration = Some(3);
    s.logo = Some("http://l/rtp.png".to_string());
    let snap = snapshot(vec![
        tv("rtp1", vec![s, source(2, "RTP 1 4K")]),
        radio("tsf", "http://r/x.mp3", RadioFormat::Mp3),
        radio("antena1", "http://r/y.m3u8", RadioFormat::Hls),
    ]);
    let (rows, _) = list(&snap, &MeasuredStore::new(), None, &ranked(&["rtp1"]), false);
    let rtp = &rows[0];
    assert_eq!(rtp.play_url, "http://me/play/rtp1.m3u8");
    assert_eq!((rtp.tv_archive, rtp.tv_archive_duration, rtp.tv_archive_quality), (true, Some(3), Some("FHD")));
    assert_eq!(rtp.source_count, 2);
    assert_eq!(rtp.logo.as_deref(), Some("http://l/rtp.png"));
    assert_eq!(rtp.format, None);
    assert_eq!(keys(&rows[1..]), vec!["antena1", "tsf"]);
    assert_eq!((rows[1].play_url.as_str(), rows[1].format), ("http://me/play/antena1.m3u8", Some("hls")));
    assert_eq!((rows[2].play_url.as_str(), rows[2].format), ("http://me/play/tsf.audio", Some("mp3")));
    assert!(!rows[1].tv_archive && rows[1].tv_archive_quality.is_none());
}

#[test]
fn logos_that_many_channels_share_stand_for_none() {
    let with_logo = |i: u64, url: &str| {
        let mut s = source(i, "x");
        s.logo = Some(url.to_string());
        tv(&format!("c{i:02}"), vec![s])
    };
    let ten = snapshot((0..10).map(|i| with_logo(i, "http://l/shared.png")).collect());
    let (rows, _) = list(&ten, &MeasuredStore::new(), None, &Curation::default(), false);
    assert!(rows.iter().all(|r| r.logo.is_some()));
    let eleven = snapshot((0..11).map(|i| with_logo(i, "http://l/shared.png")).collect());
    let (rows, _) = list(&eleven, &MeasuredStore::new(), None, &Curation::default(), false);
    assert!(rows.iter().all(|r| r.logo.is_none()));
}

#[test]
fn clients_see_what_they_can_play() {
    let mut measured = MeasuredStore::new();
    for _ in 0..2 {
        measured.push(1, "http://a", sample("hevc", None));
        measured.push(2, "http://a", sample("h264", Some(false)));
    }
    let snap = snapshot(vec![tv("uhd", vec![source(1, "u")]), tv("hd", vec![source(2, "h")])]);
    let plain = texts(&["aac", "h264", "hls", "live_video_hls"]);
    let (rows, hidden) = list(&snap, &measured, Some(&plain), &Curation::default(), false);
    assert_eq!(keys(&rows), vec!["hd"]);
    assert_eq!(hidden.get(&"hevc".to_string()), Some(&1));
    assert!(rows[0].caps_required.contains(&"h264".to_string()));
    let (rows, _) = list(&snap, &measured, None, &Curation::default(), false);
    assert_eq!(rows.len(), 2, "a client that says nothing sees all");
}

#[test]
fn channels_without_a_variant_left_are_hidden() {
    let mut measured = MeasuredStore::new();
    for _ in 0..2 {
        measured.push(1, "http://a", sample("hevc", None));
        measured.push(2, "http://a", sample("h264", Some(false)));
    }
    let snap = snapshot(vec![tv("uhd", vec![source(1, "u")]), tv("both", vec![source(1, "u"), source(2, "h")])]);
    let plain = texts(&["aac", "h264", "hls", "live_video_hls"]);
    let (rows, hidden) = list(&snap, &measured, Some(&plain), &Curation::default(), true);
    assert_eq!(keys(&rows), vec!["both"]);
    assert_eq!(hidden.get(&"no-survivor".to_string()), Some(&1));
}

// --- Reports ----------------------------------------------------------------------------------------

const URL: &str = "http://a/live/u/p/7.m3u8";

fn sessions() -> PlaySessions {
    let mut s = PlaySessions::new();
    s.note("pid", "rtp1", URL, 0);
    s
}

fn report(phase: Option<&str>, kind: FeedbackKind) -> FeedbackBody {
    FeedbackBody { kind, error: None, play_id: Some("pid".to_string()), phase: phase.map(|p| p.to_string()) }
}

#[test]
fn reports_count_where_playback_had_begun() {
    let mut b = blacklist();
    let s = sessions();
    let found = feedback(&s, &mut b, "rtp1", &report(Some("pre-canplay"), FeedbackKind::Fail), 1, NOW);
    assert_eq!(found.as_deref(), Some(URL));
    assert_eq!(b.cool_off_penalty(URL), 0);
    feedback(&s, &mut b, "rtp1", &report(Some("post-canplay"), FeedbackKind::Fail), 1, NOW);
    assert_eq!(b.cool_off_penalty(URL), 1);
    feedback(&s, &mut b, "rtp1", &report(None, FeedbackKind::Demote), 1, NOW);
    assert_eq!(b.cool_off_penalty(URL), 2);
    assert!(!b.is_host_bad("http://a", NOW), "the host is not blamed");
}

#[test]
fn reports_of_other_plays_are_ignored() {
    let mut b = blacklist();
    let s = sessions();
    assert!(feedback(&s, &mut b, "sic", &report(None, FeedbackKind::Demote), 1, NOW).is_none());
    assert!(feedback(&s, &mut b, "rtp1", &FeedbackBody::default(), 1, NOW).is_none());
    let mut other = report(None, FeedbackKind::Demote);
    other.play_id = Some("other".to_string());
    assert!(feedback(&s, &mut b, "rtp1", &other, 1, NOW).is_none());
    assert_eq!(b.per_url_count(), 0);
}

#[test]
fn heartbeats_end_the_cool_off() {
    let mut b = blacklist();
    let s = sessions();
    b.note_failure(URL, FailureKind::ClientPostCanplay, NOW);
    let body = HeartbeatBody { play_id: Some("pid".to_string()) };
    assert_eq!(heartbeat(&s, &mut b, &body, 1, NOW + 290 * SECOND).as_deref(), Some(URL));
    assert_eq!(b.cool_off_penalty(URL), 1, "one is not enough");
    heartbeat(&s, &mut b, &body, 1, NOW + 320 * SECOND);
    assert_eq!(b.cool_off_penalty(URL), 0);
    assert!(heartbeat(&s, &mut b, &HeartbeatBody { play_id: Some("  ".to_string()) }, 1, NOW).is_none());
    assert!(heartbeat(&s, &mut b, &HeartbeatBody::default(), 1, NOW).is_none());
}

// --- Candidates, guides and probes --------------------------------------------------------------------

#[test]
fn candidates_are_listed_with_what_is_known() {
    let (c, alive) = (client(), texts(&["http://a", "http://b"]));
    let mut b = blacklist();
    b.note_failure(URL, FailureKind::ClientPostCanplay, NOW);
    b.note_url_succeeded("rtp1", "http://b/live/u/p/7.m3u8", NOW - 5 * SECOND);
    let mut measured = MeasuredStore::new();
    measured.push(7, "http://b", sample("h264", Some(false)));
    let world = World {
        client: &c,
        measured: &measured,
        blacklist: &b,
        alive: &alive,
        log: &[],
        per_variant: false,
        stale_secs: 3600,
        now: NOW,
    };
    let got = list_candidates(&world, &tv("rtp1", vec![source(7, "x")]));
    assert_eq!(got.len(), 2);
    assert_eq!((got[0].host.as_str(), got[0].rank_pos, got[0].cool_off_step), ("http://b", 0, 0));
    assert_eq!(got[0].lkg_age_secs, Some(5));
    assert_eq!(got[0].measured.as_ref().unwrap().width, 1920);
    assert_eq!((got[1].url.as_str(), got[1].rank_pos, got[1].cool_off_step), (URL, 1, 1));
    assert!(got[1].lkg_age_secs.is_none() && got[1].measured.is_none());
}

#[test]
fn guides_are_looked_for_on_hosts_that_are_fine() {
    let mut b = blacklist();
    b.note_failure(URL, FailureKind::ServerSide, NOW);
    let alive = texts(&["http://a", "http://b"]);
    assert_eq!(fine_hosts(&alive, &b, NOW), texts(&["http://b"]));
    let mut kept = source(8, "y");
    kept.tv_archive = true;
    let got = epg_candidates(&tv("rtp1", vec![source(7, "x"), kept]), &alive, &b, SECS, NOW).unwrap();
    let told: Vec<(u64, String, u8)> =
        got.iter().map(|c| (c.stream_id_for_log(), c.host_for_log(), c.priority())).collect();
    assert_eq!(told, vec![(7, "http://b".to_string(), 0), (8, "http://b".to_string(), 1)]);
}

#[test]
fn stations_have_guides_for_today_and_tomorrow() {
    let b = blacklist();
    let got = epg_candidates(&radio("antena1", "http://r/x.m3u8", RadioFormat::Hls), &[], &b, SECS, NOW).unwrap();
    let days: Vec<String> = got.iter().map(|c| c.host_for_log()).collect();
    assert_eq!(days, vec!["rtp-radio/1/13-5-2026".to_string(), "rtp-radio/1/14-5-2026".to_string()]);
    assert!(epg_candidates(&radio("tsf", "http://r/x.m3u8", RadioFormat::Hls), &[], &b, SECS, NOW).unwrap().is_empty());
    assert!(epg_candidates(&tv("rtp1", vec![source(7, "x")]), &[], &b, SECS, NOW).is_err(), "no host");
}

#[test]
fn probes_use_the_best_placed_channel_that_lives() {
    let mut b = blacklist();
    let alive = texts(&["http://a"]);
    let mut lost = source(1, "x");
    lost.origin_host = "http://gone".to_string();
    let snap = snapshot(vec![
        tv("sic", vec![source(2, "s")]),
        tv("rtp1", vec![lost]),
        radio("tsf", "http://r/x.mp3", RadioFormat::Mp3),
    ]);
    let curation = ranked(&["rtp1", "sic"]);
    assert_eq!(pick_kind_probe(&snap, ChannelKind::Tv, &curation, &alive, &b, NOW).as_deref(), Some("sic"));
    b.note_failure(URL, FailureKind::ServerSide, NOW);
    assert_eq!(
        pick_kind_probe(&snap, ChannelKind::Tv, &curation, &alive, &b, NOW).as_deref(),
        Some("rtp1"),
        "where none lives, the best placed"
    );
    assert!(can_probe(&snap, ChannelKind::Tv));
    assert!(!can_probe(&snap, ChannelKind::Radio), "audio that is no playlist tells nothing");
    assert!(!probe_match(&snap.channels[2], ChannelKind::Radio));
    assert!(channel_has_alive_source(&snap.channels[2], &alive, &b, NOW));
    assert!(!channel_has_alive_source(&snap.channels[1], &alive, &b, NOW));
    assert_eq!(probe_url("http://me/", "rtp1"), "http://me/play/rtp1.m3u8?probe=1");
}

#[test]
fn probes_of_excess_frames_need_such_a_stream() {
    let (b, alive) = (blacklist(), texts(&["http://a"]));
    let mut measured = MeasuredStore::new();
    let snap = snapshot(vec![tv("rtp1", vec![source(7, "x")])]);
    let curation = Curation::default();
    measured.push(7, "http://a", sample("h264", Some(true)));
    let scope = Scope { measured: &measured, blacklist: &b, alive: &alive, stale_secs: 3600, now: NOW };
    let off = probe_h264_excess_refs_json(&scope, &snap, &curation, false, "http://me");
    assert!(!off.available && off.url.is_none());
    let on = probe_h264_excess_refs_json(&scope, &snap, &curation, true, "http://me");
    assert!(on.available);
    assert!(on.url.unwrap().starts_with("http://me/play/rtp1.m3u8?probe=1"));
}

// --- The state of the server ---------------------------------------------------------------------------

#[test]
fn states_are_counted() {
    let mut hosts = HostState::new(&texts(&["http://a", "http://b"]));
    hosts.update("http://a", ProbeResult { alive: true, latency_ms: Some(5), error: None }, NOW);
    let mut b = blacklist();
    b.note_failure(URL, FailureKind::ServerSide, NOW);
    let snap = snapshot(vec![tv("rtp1", vec![source(7, "x")])]);
    let epg = EpgState::new(EpgConfig { ttl_secs: 600, fetch_timeout_secs: 5 });
    let s = status(&hosts, &snap, &epg, &b, &StreamClassifier::new(), NOW);
    assert_eq!((s.hosts.total, s.hosts.alive, s.hosts.blacklisted), (2, 1, 1));
    assert_eq!((s.catalog.channels, s.epg.cached_channels), (1, 0));
    assert_eq!((s.blacklist.url_states_count, s.blacklist.bad_hosts), (1, 1));
    assert_eq!((s.classifier.classified, s.classifier.hevc, s.classifier.with_subs), (0, 0, 0));
}

#[test]
fn samples_can_be_put_in_by_hand() {
    let mut measured = MeasuredStore::new();
    let body = InjectSampleBody { stream_id: 7, host: "http://a".to_string(), sample: sample("h264", None) };
    assert!(!measured.dirty);
    let before = measured.generation();
    admin_inject_sample(&mut measured, body);
    assert!(measured.has_samples(7, "http://a"));
    assert!(measured.dirty);
    assert_eq!(measured.generation(), before + 1);
}

#[test]
fn readiness_counts_streams_on_hosts() {
    let (b, alive) = (blacklist(), texts(&["http://b", "http://a"]));
    let mut measured = MeasuredStore::new();
    measured.push(7, "http://a", sample("h264", Some(true)));
    measured.push(7, "http://b", sample("h264", Some(false)));
    let snap = snapshot(vec![
        tv("rtp1", vec![source(7, "x")]),
        tv("rtp1b", vec![source(7, "x")]),
        radio("tsf", "http://r/x.mp3", RadioFormat::Mp3),
    ]);
    let r = admin_caps_readiness(&snap, &measured, &b, &alive, NOW);
    assert_eq!((r.total_pairs, r.decisive_pairs), (2, 1));
    assert_eq!((r.entries[0].stream_id, r.entries[0].host.as_str()), (7, "http://a"));
    assert_eq!(r.entries[0].channel_keys, texts(&["rtp1", "rtp1b"]));
    assert_eq!(r.entries[0].states, vec![("h264_excess_refs".to_string(), "on".to_string())]);
    assert_eq!(r.entries[0].newest_sample_age_secs, Some(30));
    assert_eq!(r.entries[0].oldest_sample_age_secs, Some(30));
    assert_eq!(r.entries[1].states[0].1, "unknown");
    assert_eq!(r.entries[1].samples_count, 1);
    let mut later = sample("h264", Some(true));
    later.at += 20_000_000_000;
    measured.push(7, "http://a", later);
    let r = admin_caps_readiness(&snap, &measured, &b, &alive, NOW);
    assert_eq!(r.entries[0].newest_sample_age_secs, Some(10));
    assert_eq!(r.entries[0].oldest_sample_age_secs, Some(30));
}
