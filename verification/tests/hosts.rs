use iptv_proxy::api::probe_wait;
use iptv_proxy::catalog::{next_refresh_secs, CatalogSnapshot};
use iptv_proxy::config::{
    default_clean_play_reset, default_cool_off_steps, default_freshness_ttl, default_heartbeat_window,
    default_parallelism, default_per_attempt, default_play_budget, default_radio_m3u_path, default_segment_buffer,
    default_ui_dir, default_validate_count, default_validate_timeout, BlacklistConfig, CatalogConfig, Config, ConfigError,
    CurationConfig, EpgConfig, ProbeConfig, ProxyConfig, RadioConfig, XtreamConfig,
};
use iptv_proxy::default_order::Curation;
use iptv_proxy::hosts::{judge_probe, HostState, ProbeOutcome};
use iptv_proxy::json::Json;
use iptv_proxy::xtream::{tag_origin, ChannelKind, LiveStream, UserInfo, XtreamClient};

fn user(auth: u64) -> UserInfo {
    UserInfo { auth: Json::Number(Some(auth)), status: None, active_cons: None, max_connections: None, exp_date: None }
}

fn live(stream_id: u64, name: &str) -> LiveStream {
    LiveStream {
        stream_id,
        name: name.to_string(),
        stream_icon: String::new(),
        category_id: String::new(),
        epg_channel_id: None,
        added: None,
        custom_sid: None,
        tv_archive: None,
        tv_archive_duration: None,
        direct_source: None,
        kind: ChannelKind::Tv,
        origin_host: String::new(),
        radio_format: None,
    }
}

fn config(username: &str, password: &str, hosts: &[&str]) -> Config {
    Config {
        listen_addr: "0.0.0.0:8080".to_string(),
        public_base_url: None,
        ui_dir: default_ui_dir(),
        xtream: XtreamConfig {
            username: username.to_string(),
            password: password.to_string(),
            hosts: hosts.iter().map(|h| h.to_string()).collect(),
        },
        probe: ProbeConfig {
            interval_secs: 60,
            timeout_ms: 1000,
            parallelism: default_parallelism(),
            freshness_loop_interval_secs: None,
            freshness_ttl_secs: default_freshness_ttl(),
        },
        catalog: CatalogConfig { refresh_interval_secs: 600 },
        epg: EpgConfig { ttl_secs: 600, fetch_timeout_secs: 5 },
        blacklist: BlacklistConfig {
            host_fail_threshold: 3,
            host_ttl_secs: 60,
            cool_off_steps_secs: default_cool_off_steps(),
            heartbeat_window_secs: default_heartbeat_window(),
            clean_play_reset_secs: default_clean_play_reset(),
        },
        proxy: ProxyConfig {
            upstream_timeout_secs: 10,
            segment_buffer_bytes: default_segment_buffer(),
            play_budget_secs: default_play_budget(),
            per_attempt_timeout_secs: default_per_attempt(),
            opportunistic_validate_count: default_validate_count(),
            opportunistic_validate_timeout_secs: default_validate_timeout(),
        },
        curation: CurationConfig::default(),
        radio: RadioConfig { enabled: false, m3u_path: default_radio_m3u_path() },
        radio_curation: CurationConfig::default(),
        caps_v2_per_variant: true,
        caps_v2_stale_secs: 3600,
    }
}

#[test]
fn defaults_have_their_values() {
    assert_eq!(default_cool_off_steps(), [60, 300, 1800, 21600]);
    assert_eq!(default_ui_dir(), "../app");
    assert_eq!(default_radio_m3u_path(), "radios.m3u");
    assert_eq!((default_play_budget(), default_per_attempt()), (60, 5));
    assert_eq!((default_validate_count(), default_validate_timeout()), (2, 6));
}

#[test]
fn configs_need_hosts_and_credentials() {
    assert_eq!(config("u", "p", &["http://a"]).validate(), Ok(()));
    let cases = [
        (config("u", "p", &[]), ConfigError::NoHosts, "xtream.hosts cannot be empty"),
        (config("", "p", &["http://a"]), ConfigError::NoUsername, "xtream.username cannot be empty"),
        (config("u", "", &["http://a"]), ConfigError::NoPassword, "xtream.password cannot be empty"),
    ];
    for (c, e, text) in cases {
        assert_eq!(c.validate(), Err(e));
        assert_eq!(e.message(), text);
    }
    assert_eq!(config("", "", &[]).validate(), Err(ConfigError::NoHosts), "the first of several");
}

#[test]
fn hosts_are_alive_where_they_let_the_account_in() {
    let fine = judge_probe(ProbeOutcome::Answered(user(1)), 12);
    assert!(fine.alive);
    assert_eq!(fine.latency_ms, Some(12));
    assert!(fine.error.is_none());
    let refused = judge_probe(ProbeOutcome::Answered(user(0)), 12);
    assert!(!refused.alive);
    assert_eq!(refused.latency_ms, Some(12));
    assert_eq!(refused.error.as_deref(), Some("auth=0"));
    let broken = judge_probe(ProbeOutcome::Failed("refused".to_string()), 12);
    assert!(!broken.alive);
    assert_eq!(broken.latency_ms, None);
    assert_eq!(broken.error.as_deref(), Some("refused"));
    assert_eq!(judge_probe(ProbeOutcome::TimedOut, 12).error.as_deref(), Some("timeout"));
}

#[test]
fn alive_hosts_come_fastest_first() {
    let names: Vec<String> = ["http://a", "http://b", "http://c"].iter().map(|s| s.to_string()).collect();
    let mut hosts = HostState::new(&names);
    assert!(hosts.alive_hosts_ranked().is_empty());
    hosts.update("http://a", judge_probe(ProbeOutcome::Answered(user(1)), 90), 5);
    hosts.update("http://b", judge_probe(ProbeOutcome::TimedOut, 10), 5);
    hosts.update("http://c", judge_probe(ProbeOutcome::Answered(user(1)), 20), 5);
    hosts.update("http://never", judge_probe(ProbeOutcome::Answered(user(1)), 1), 5);
    assert_eq!(hosts.alive_hosts_ranked(), vec!["http://c".to_string(), "http://a".to_string()]);
    let all = hosts.snapshot();
    assert_eq!(all.len(), 3);
    assert_eq!(all[1].error.as_deref(), Some("timeout"));
    assert_eq!(all[1].last_probe, Some(5));
}

#[test]
fn catalogs_are_searched_by_key() {
    let streams = vec![live(1, "PT: RTP 1 HD"), live(2, "PT: SIC"), live(3, "PT: RTP 1 FHD")];
    let snap = CatalogSnapshot::of_streams(&streams, &Curation::default(), "http://a".to_string(), 9);
    assert_eq!(snap.channels.len(), 2);
    assert_eq!(snap.stream_count, 3);
    assert_eq!(snap.source_host.as_deref(), Some("http://a"));
    assert_eq!(snap.last_refreshed, Some(9));
    let rtp = snap.lookup("rtp1").unwrap();
    assert_eq!(rtp.sources.len(), 2);
    assert_eq!(rtp.sources[0].stream_id, 3, "the better source first");
    assert!(snap.lookup("tvi").is_none());
    assert!(CatalogSnapshot::empty().lookup("rtp1").is_none());
}

#[test]
fn radio_has_a_curation_of_its_own() {
    let mut radio = live(9, "TSF");
    radio.kind = ChannelKind::Radio;
    radio.direct_source = Some("http://r/x.mp3".to_string());
    let mut cfg = CurationConfig::default();
    cfg.display_overrides.insert("tsf".to_string(), "TSF Radio".to_string());
    let radio_curation = Curation::from_config(&cfg).unwrap();
    let mut snap =
        CatalogSnapshot::of_streams(&[live(1, "PT: SIC")], &Curation::default(), "http://a".to_string(), 9);
    snap.add_radio(&[radio], &radio_curation);
    assert_eq!(snap.stream_count, 2);
    assert_eq!(snap.lookup("sic").unwrap().kind, ChannelKind::Tv);
    let tsf = snap.lookup("tsf").unwrap();
    assert_eq!((tsf.kind, tsf.name.as_str()), (ChannelKind::Radio, "TSF Radio"));
    assert_eq!(snap.source_host.as_deref(), Some("http://a"));
}

#[test]
fn failed_refreshes_are_tried_again_soon() {
    assert_eq!(next_refresh_secs(true, 3600), 3600);
    assert_eq!(next_refresh_secs(false, 3600), 10);
}

#[test]
fn listed_streams_know_their_host() {
    let streams = tag_origin(vec![live(1, "a"), live(2, "b")], "http://h");
    assert!(streams.iter().all(|s| s.origin_host == "http://h"));
    assert_eq!(streams[1].stream_id, 2);
}

#[test]
fn requests_of_the_account_have_their_urls() {
    let c = XtreamClient { username: "u".to_string(), password: "p w".to_string() };
    assert_eq!(c.account_url("http://h"), "http://h/player_api.php?username=u&password=p%20w");
    assert_eq!(
        c.streams_url("http://h"),
        "http://h/player_api.php?username=u&password=p%20w&action=get_live_streams"
    );
    assert!(c.guide_url("http://h", 7).ends_with("&action=get_simple_data_table&stream_id=7"));
    assert!(c.short_guide_url("http://h", 7, Some(4)).ends_with("&action=get_short_epg&stream_id=7&limit=4"));
    assert!(c.short_guide_url("http://h", 7, None).ends_with("&action=get_short_epg&stream_id=7"));
}

#[test]
fn probes_wait_for_channels() {
    assert_eq!(probe_wait(true, 0), None);
    assert_eq!(probe_wait(false, 0), Some(200));
    assert_eq!(probe_wait(false, 7999), Some(200));
    assert_eq!(probe_wait(false, 8000), None);
}
