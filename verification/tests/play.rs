use base64::Engine;
use iptv_proxy::blacklist::{Blacklist, FailureKind};
use iptv_proxy::candidates::{archive_candidate_hosts, build_candidates, channel_caps_v2, World};
use iptv_proxy::canonical::{CanonicalChannel, CanonicalSource};
use iptv_proxy::catchup::{parse_catchup_params_at, plan_catchup, CatchupError, CatchupRequest, PlayParams};
use iptv_proxy::config::{BlacklistConfig, ProxyConfig};
use iptv_proxy::json::Json;
use iptv_proxy::measured::{MeasuredStore, Sample, SampleSource};
use iptv_proxy::play::{Play, PlayMode, PlayStep};
use iptv_proxy::play_log::{AttemptOutcome, PlayLog};
use iptv_proxy::play_sessions::PlaySessions;
use iptv_proxy::proxy::Candidate;
use iptv_proxy::radio::RadioFormat;
use iptv_proxy::request::{
    channel_key, client_pid, failure_reason, plan_play, play_id, radio_format_of, read_bool, PlayRefusal,
};
use iptv_proxy::xtream::{ChannelKind, XtreamClient};

const SECOND: i128 = 1_000_000_000;
const NOW: i128 = 1_778_700_000 * SECOND;
const NANOS: u64 = 1_000_000_000;

fn blacklist() -> Blacklist {
    Blacklist::new(BlacklistConfig {
        host_fail_threshold: 1,
        host_ttl_secs: 600,
        cool_off_steps_secs: [60, 300, 1800, 21600],
        heartbeat_window_secs: 60,
        clean_play_reset_secs: 300,
    })
}

fn client() -> XtreamClient {
    XtreamClient::new("u".to_string(), "p".to_string())
}

fn source(stream_id: u64, origin: &str) -> CanonicalSource {
    CanonicalSource {
        stream_id,
        name: format!("s{stream_id}"),
        score: 0,
        logo: None,
        tv_archive: false,
        tv_archive_duration: None,
        direct_source: None,
        origin_host: origin.to_string(),
        radio_format: None,
    }
}

fn tv(sources: Vec<CanonicalSource>) -> CanonicalChannel {
    CanonicalChannel { key: "rtp1".to_string(), name: "RTP 1".to_string(), kind: ChannelKind::Tv, sources }
}

fn radio(url: &str, format: RadioFormat) -> CanonicalChannel {
    let mut s = source(9, "");
    s.direct_source = Some(url.to_string());
    s.radio_format = Some(format);
    CanonicalChannel { key: "tsf".to_string(), name: "TSF".to_string(), kind: ChannelKind::Radio, sources: vec![s] }
}

fn hosts(names: &[&str]) -> Vec<String> {
    names.iter().map(|s| s.to_string()).collect()
}

fn sample(codec: &str) -> Sample {
    Sample {
        at: NOW,
        source: SampleSource::Sweep,
        width: 1920,
        height: 1080,
        codec: Some(codec.to_string()),
        pix_fmt: Some("yuv420p".to_string()),
        color_transfer: None,
        framerate: None,
        bitrate_kbps: Some(4000),
        dvb_unsafe: Some(false),
        sample_rate_hz: None,
        audio_channels: None,
        h264_excess_refs: Some(false),
    }
}

fn world<'a>(
    client: &'a XtreamClient,
    measured: &'a MeasuredStore,
    blacklist: &'a Blacklist,
    alive: &'a [String],
    per_variant: bool,
) -> World<'a> {
    World { client, measured, blacklist, alive, log: &[], per_variant, stale_secs: 3600, now: NOW }
}

fn urls(v: &[Candidate]) -> Vec<&str> {
    v.iter().map(|c| c.url.as_str()).collect()
}

#[test]
fn sources_are_tried_where_they_were_listed_and_then_elsewhere() {
    let (c, m, b, alive) = (client(), MeasuredStore::new(), blacklist(), hosts(&["http://b", "http://a"]));
    let w = world(&c, &m, &b, &alive, false);
    let got = build_candidates(&w, &tv(vec![source(7, "http://a"), source(8, "http://gone")]), None);
    assert_eq!(
        urls(&got),
        vec![
            "http://a/live/u/p/7.m3u8",
            "http://b/live/u/p/7.m3u8",
            "http://gone/live/u/p/8.m3u8",
            "http://b/live/u/p/8.m3u8",
            "http://a/live/u/p/8.m3u8",
        ]
    );
    assert_eq!((got[0].host.as_str(), got[0].stream_id), ("http://a", 7));
}

#[test]
fn urls_are_tried_once() {
    let (c, m, b, alive) = (client(), MeasuredStore::new(), blacklist(), hosts(&["http://a", "http://a"]));
    let w = world(&c, &m, &b, &alive, false);
    let got = build_candidates(&w, &tv(vec![source(7, "http://a"), source(7, "http://a")]), None);
    assert_eq!(urls(&got), vec!["http://a/live/u/p/7.m3u8"]);
}

#[test]
fn what_failed_comes_last_but_comes() {
    let (c, m, alive) = (client(), MeasuredStore::new(), hosts(&["http://a", "http://b"]));
    let mut b = blacklist();
    b.note_failure("http://a/live/u/p/7.m3u8", FailureKind::ClientPostCanplay, NOW);
    let w = world(&c, &m, &b, &alive, false);
    let got = build_candidates(&w, &tv(vec![source(7, "http://a")]), None);
    assert_eq!(urls(&got), vec!["http://b/live/u/p/7.m3u8", "http://a/live/u/p/7.m3u8"]);
}

#[test]
fn measured_streams_come_before_others() {
    let (c, b, alive) = (client(), blacklist(), hosts(&["http://a"]));
    let mut m = MeasuredStore::new();
    m.push(8, "http://a", sample("h264"));
    let w = world(&c, &m, &b, &alive, false);
    let got = build_candidates(&w, &tv(vec![source(7, "http://a"), source(8, "http://a")]), None);
    assert_eq!(got[0].stream_id, 8);
    assert_eq!(got.len(), 2);
}

#[test]
fn variants_that_clients_cannot_play_are_left_out() {
    let (c, b, alive) = (client(), blacklist(), hosts(&["http://a"]));
    let mut m = MeasuredStore::new();
    for _ in 0..2 {
        m.push(7, "http://a", sample("hevc"));
        m.push(8, "http://a", sample("h264"));
    }
    let w = world(&c, &m, &b, &alive, true);
    let channel = tv(vec![source(7, "http://a"), source(8, "http://a")]);
    let plain = hosts(&["aac", "h264", "hls", "live_video_hls"]);
    let got = build_candidates(&w, &channel, Some(&plain));
    assert_eq!(urls(&got), vec!["http://a/live/u/p/8.m3u8"]);
    let both = hosts(&["aac", "h264", "hevc", "hls", "live_video_hls"]);
    assert_eq!(build_candidates(&w, &channel, Some(&both)).len(), 2);
    assert_eq!(build_candidates(&w, &channel, None).len(), 2);
    let none = hosts(&["hls"]);
    assert!(build_candidates(&w, &channel, Some(&none)).is_empty());
    assert!(channel_caps_v2(&w, &channel, Some(&none)).is_none());
    assert!(channel_caps_v2(&w, &channel, Some(&plain)).unwrap().contains(&"h264".to_string()));
}

#[test]
fn radio_goes_by_its_own_url() {
    let (c, m, b, alive) = (client(), MeasuredStore::new(), blacklist(), hosts(&["http://a"]));
    let w = world(&c, &m, &b, &alive, false);
    let got = build_candidates(&w, &radio("https://cdn.tsf:8000/x.mp3", RadioFormat::Mp3), None);
    assert_eq!(urls(&got), vec!["https://cdn.tsf:8000/x.mp3"]);
    assert_eq!(got[0].host, "https://cdn.tsf");
}

#[test]
fn bad_hosts_are_asked_for_recordings_only_where_all_are_bad() {
    let mut b = blacklist();
    b.note_failure("http://a/live/u/p/7.m3u8", FailureKind::ServerSide, NOW);
    let both = hosts(&["http://a", "http://b"]);
    assert_eq!(archive_candidate_hosts(&both, &b, NOW), hosts(&["http://b"]));
    b.note_failure("http://b/live/u/p/7.m3u8", FailureKind::ServerSide, NOW);
    assert_eq!(archive_candidate_hosts(&both, &b, NOW), both);
    assert!(archive_candidate_hosts(&[], &b, NOW).is_empty());
}

// --- Requests ----------------------------------------------------------------------------------

#[test]
fn routes_name_channels_with_or_without_an_ending() {
    assert_eq!(channel_key("rtp1"), "rtp1");
    assert_eq!(channel_key("rtp1.m3u8"), "rtp1");
}

#[test]
fn yes_has_many_forms() {
    let text = |s: &str| Json::Text(s.to_string());
    assert_eq!(read_bool(&Json::Bool(true)), Ok(true));
    assert_eq!(read_bool(&text("1")), Ok(true));
    assert_eq!(read_bool(&text("true")), Ok(true));
    assert_eq!(read_bool(&text("0")), Ok(false));
    assert!(read_bool(&text("maybe")).is_err());
}

#[test]
fn plays_are_named_by_the_client_or_numbered() {
    let mut log = PlayLog::new();
    assert_eq!(client_pid(&Some("a-1!".to_string())).as_deref(), Some("a1"));
    assert_eq!(client_pid(&Some("!!".to_string())), None);
    assert_eq!(client_pid(&None), None);
    assert_eq!(play_id(false, &Some("mine".to_string()), &mut log), "mine");
    let first = play_id(false, &None, &mut log);
    let second = play_id(false, &None, &mut log);
    assert_ne!(first, second);
    assert_eq!(first.len(), 6);
}

#[test]
fn radio_formats_are_those_of_the_first_source() {
    assert_eq!(radio_format_of(&radio("http://r/x.mp3", RadioFormat::Mp3)), Some(RadioFormat::Mp3));
    assert_eq!(radio_format_of(&tv(vec![source(7, "http://a")])), None);
}

#[test]
fn plans_hold_candidates_and_what_the_client_puts_up_with() {
    let (c, m, b, alive) = (client(), MeasuredStore::new(), blacklist(), hosts(&["http://a", "http://b"]));
    let w = world(&c, &m, &b, &alive, false);
    let mut params = PlayParams::default();
    params.caps = Some("h264,DVB_SAFE".to_string());
    let plan = plan_play(&w, &tv(vec![source(7, "http://a")]), &params).unwrap();
    assert_eq!(plan.candidates.len(), 2);
    assert!(plan.audio.is_none());
    let raw = plan_play(&w, &radio("http://r/x.mp3", RadioFormat::Mp3), &PlayParams::default()).unwrap();
    assert_eq!(raw.audio, Some(RadioFormat::Mp3));
    let hls = plan_play(&w, &radio("http://r/x.m3u8", RadioFormat::Hls), &PlayParams::default()).unwrap();
    assert_eq!(hls.audio, None);
    params.caps = Some("dvb_safe".to_string());
    assert!(plan_play(&w, &tv(vec![source(7, "http://a")]), &params).unwrap().dvb_safe);
    params.probe = true;
    assert!(!plan_play(&w, &tv(vec![source(7, "http://a")]), &params).unwrap().dvb_safe);
}

#[test]
fn forced_urls_come_first_and_must_be_candidates() {
    let (c, m, b, alive) = (client(), MeasuredStore::new(), blacklist(), hosts(&["http://a", "http://b"]));
    let w = world(&c, &m, &b, &alive, false);
    let channel = tv(vec![source(7, "http://a")]);
    let mut params = PlayParams::default();
    params.force_url =
        Some(base64::engine::general_purpose::URL_SAFE_NO_PAD.encode("http://b/live/u/p/7.m3u8"));
    let plan = plan_play(&w, &channel, &params).unwrap();
    assert_eq!(urls(&plan.candidates), vec!["http://b/live/u/p/7.m3u8", "http://a/live/u/p/7.m3u8"]);
    params.force_url = Some(base64::engine::general_purpose::URL_SAFE_NO_PAD.encode("http://evil/"));
    let e = plan_play(&w, &channel, &params).unwrap_err();
    assert_eq!(e, PlayRefusal::UnknownForceUrl);
    assert_eq!((e.status(), e.reason(), e.message()), (404, None, "unknown force_url"));
}

#[test]
fn probes_are_pinned_to_a_stream() {
    let (c, m, b, alive) = (client(), MeasuredStore::new(), blacklist(), hosts(&["http://a"]));
    let w = world(&c, &m, &b, &alive, false);
    let channel = tv(vec![source(7, "http://a"), source(8, "http://a")]);
    let mut params = PlayParams::default();
    params.probe = true;
    params.probe_stream_id = Some(8);
    let plan = plan_play(&w, &channel, &params).unwrap();
    assert_eq!(urls(&plan.candidates), vec!["http://a/live/u/p/8.m3u8"]);
    assert_eq!(failure_reason(&params), Some("probe-pin-failed"));
    params.probe_stream_id = Some(99);
    let e = plan_play(&w, &channel, &params).unwrap_err();
    assert_eq!(e, PlayRefusal::ProbePinFailed);
    assert_eq!((e.status(), e.reason(), e.message()), (502, Some("probe-pin-failed"), "probe pin matched no candidate"));
    params.probe = false;
    assert_eq!(plan_play(&w, &channel, &params).unwrap().candidates.len(), 2, "only probes are pinned");
    assert_eq!(failure_reason(&params), None);
}

#[test]
fn channels_without_candidates_are_refused() {
    let (c, m, b) = (client(), MeasuredStore::new(), blacklist());
    let w = world(&c, &m, &b, &[], false);
    let channel = tv(vec![source(7, "")]);
    let mut params = PlayParams::default();
    let e = plan_play(&w, &channel, &params).unwrap_err();
    assert_eq!(e, PlayRefusal::NoSources);
    assert_eq!((e.status(), e.reason(), e.message()), (503, None, "no candidate sources for channel"));
    params.caps = Some("h264".to_string());
    let e = plan_play(&w, &channel, &params).unwrap_err();
    assert_eq!(e, PlayRefusal::CapsMismatch);
    assert_eq!((e.status(), e.reason(), e.message()), (502, Some("caps-mismatch"), "no variant matches client caps"));
}

// --- Plays ---------------------------------------------------------------------------------------

fn candidate(url: &str) -> Candidate {
    Candidate { url: url.to_string(), host: "http://h".to_string(), stream_id: 7 }
}

const A: &str = "http://h/live/u/p/7.m3u8";
const B: &str = "http://i/live/u/p/7.m3u8";

fn proxy(budget: u64, per_attempt: u64) -> ProxyConfig {
    ProxyConfig {
        upstream_timeout_secs: 10,
        segment_buffer_bytes: 65536,
        play_budget_secs: budget,
        per_attempt_timeout_secs: per_attempt,
        opportunistic_validate_count: 2,
        opportunistic_validate_timeout_secs: 6,
    }
}

fn start(mode: PlayMode, budget: u64, per_attempt: u64) -> Play {
    Play::start(
        mode,
        "id1".to_string(),
        "rtp1".to_string(),
        Some("pid".to_string()),
        vec![candidate(A), candidate(B)],
        &proxy(budget, per_attempt),
        NOW,
        0,
    )
}

#[test]
fn plays_go_on_until_a_url_works() {
    let (mut b, mut sessions, mut log) = (blacklist(), PlaySessions::new(), PlayLog::new());
    let mut play = start(PlayMode::Live, 60, 5);
    assert_eq!(play.step(0), PlayStep::Try { index: 0, timeout: 5 * NANOS });
    play.note_failed("HTTP 404".to_string(), 2 * NANOS, NOW, &mut b);
    assert_eq!(b.cool_off_penalty(A), 1);
    assert!(b.is_host_bad("http://h", NOW) || b.is_host_bad("h", NOW));
    assert_eq!(play.step(2 * NANOS), PlayStep::Try { index: 1, timeout: 5 * NANOS });
    play.note_played(3 * NANOS, NOW, &mut b, &mut sessions, &mut log);
    assert_eq!(b.last_known_good("rtp1", NOW).as_deref(), Some(B));
    assert_eq!(sessions.lookup("pid", 3 * NANOS), Some((B.to_string(), "rtp1".to_string())));
    let events = log.snapshot();
    assert_eq!(events.len(), 1);
    assert!(events[0].succeeded && !events[0].catchup && events[0].error.is_none());
    assert_eq!((events[0].total_ms, events[0].candidates_total, events[0].started), (3000, 2, NOW));
    assert_eq!(events[0].attempts.len(), 2);
    assert_eq!(events[0].attempts[0].elapsed_ms, 2000);
    assert!(matches!(&events[0].attempts[0].outcome, AttemptOutcome::Failed { reason } if reason == "HTTP 404"));
    assert!(matches!(events[0].attempts[1].outcome, AttemptOutcome::Played));
    assert_eq!(events[0].attempts[1].elapsed_ms, 1000);
}

#[test]
fn plays_that_fail_tell_the_last_fault() {
    let (mut b, mut log) = (blacklist(), PlayLog::new());
    let mut play = start(PlayMode::Live, 60, 5);
    play.step(0);
    play.note_failed("HTTP 404".to_string(), 1, NOW, &mut b);
    play.step(1);
    play.note_timeout(5 * NANOS, NOW, &mut b);
    assert_eq!(play.step(5 * NANOS), PlayStep::GiveUp);
    assert_eq!(play.give_up(5 * NANOS, &mut log), "all 2/2 candidates failed for rtp1 (last: timeout after 5s)");
    let events = log.snapshot();
    assert!(!events[0].succeeded);
    assert_eq!(events[0].error.as_deref(), Some("timeout after 5s"));
    assert!(matches!(events[0].attempts[1].outcome, AttemptOutcome::Timeout));
}

#[test]
fn attempts_fit_the_time_of_the_play() {
    let mut b = blacklist();
    let mut play = start(PlayMode::Live, 7, 5);
    play.step(0);
    play.note_timeout(5 * NANOS, NOW, &mut b);
    assert_eq!(play.step(5 * NANOS + NANOS / 2), PlayStep::Try { index: 1, timeout: NANOS + NANOS / 2 });
    play.note_timeout(7 * NANOS, NOW, &mut b);
    let mut log = PlayLog::new();
    assert!(play.give_up(7 * NANOS, &mut log).ends_with("(last: timeout after 1.5s)"));
    let mut late = start(PlayMode::Live, 7, 5);
    assert_eq!(late.step(7 * NANOS), PlayStep::GiveUp);
    assert_eq!(late.give_up(7 * NANOS, &mut log), "all 0/2 candidates failed for rtp1 (last: budget exhausted)");
}

#[test]
fn probes_leave_no_trace() {
    let (mut b, mut sessions, mut log) = (blacklist(), PlaySessions::new(), PlayLog::new());
    let mut play = start(PlayMode::Probe, 60, 5);
    assert_eq!(play.budget, 10 * NANOS, "the time of two attempts");
    play.step(0);
    play.note_failed("x".to_string(), 1, NOW, &mut b);
    play.step(1);
    play.note_played(2, NOW, &mut b, &mut sessions, &mut log);
    assert_eq!(b.per_url_count(), 0);
    assert!(b.last_known_good("rtp1", NOW).is_none());
    assert!(sessions.lookup("pid", 2).is_none());
    assert!(log.snapshot().is_empty());
}

#[test]
fn recordings_and_audio_have_their_own_words() {
    let mut log = PlayLog::new();
    assert_eq!(
        start(PlayMode::CatchUp, 60, 5).give_up(0, &mut log),
        "catch-up upstream failed: no alive host accepted the request"
    );
    assert!(log.snapshot()[0].catchup);
    assert_eq!(
        start(PlayMode::Audio, 60, 5).give_up(0, &mut log),
        "all 0/2 audio candidates failed for rtp1 (last: budget exhausted)"
    );
}

#[test]
fn recordings_do_not_count_as_known_good() {
    let (mut b, mut sessions, mut log) = (blacklist(), PlaySessions::new(), PlayLog::new());
    let mut play = start(PlayMode::CatchUp, 60, 5);
    play.step(0);
    play.note_played(1, NOW, &mut b, &mut sessions, &mut log);
    assert!(b.last_known_good("rtp1", NOW).is_none());
    assert!(sessions.lookup("pid", 1).is_some());
}

// --- Recordings --------------------------------------------------------------------------------

fn archive(days: Option<u32>) -> CanonicalChannel {
    let mut s = source(7, "http://a");
    s.tv_archive = true;
    s.tv_archive_duration = days;
    tv(vec![source(6, "http://a"), s])
}

fn ago(secs: i128, minutes: Option<u32>) -> CatchupRequest {
    CatchupRequest { start: NOW - secs * SECOND, explicit_duration_min: minutes }
}

#[test]
fn recordings_are_asked_of_each_host() {
    let (c, b, alive) = (client(), blacklist(), hosts(&["http://a", "http://b"]));
    let got = plan_catchup(&c, &archive(Some(3)), ago(3600, None), &alive, &b, NOW).unwrap();
    assert_eq!(
        urls(&got),
        vec!["http://a/timeshift/u/p/65/2026-05-13:18-20/7.m3u8", "http://b/timeshift/u/p/65/2026-05-13:18-20/7.m3u8"]
    );
    let short = plan_catchup(&c, &archive(Some(3)), ago(3600, Some(10)), &alive, &b, NOW).unwrap();
    assert!(short[0].url.contains("/10/"));
    let long = plan_catchup(&c, &archive(Some(1)), ago(3600, Some(9000)), &alive, &b, NOW).unwrap();
    assert!(long[0].url.contains("/1440/"), "no longer than what is kept");
}

#[test]
fn recordings_can_be_refused() {
    let (c, b, alive) = (client(), blacklist(), hosts(&["http://a"]));
    let e = plan_catchup(&c, &tv(vec![source(7, "http://a")]), ago(60, None), &alive, &b, NOW).unwrap_err();
    assert_eq!((e, e.status(), e.message()), (CatchupError::NoArchive, 404, "channel does not support catch-up"));
    let e = plan_catchup(&c, &archive(None), ago(86401, None), &alive, &b, NOW).unwrap_err();
    assert_eq!((e, e.status(), e.message()), (CatchupError::OutsideWindow, 400, "start time is outside the catch-up window"));
    assert!(plan_catchup(&c, &archive(None), ago(86399, None), &alive, &b, NOW).is_ok(), "a day is kept where nothing is said");
    let e = plan_catchup(&c, &archive(Some(1)), ago(60, None), &[], &b, NOW).unwrap_err();
    assert_eq!((e, e.status(), e.message()), (CatchupError::NoHost, 502, "catch-up upstream failed: no alive host"));
}

#[test]
fn catch_up_parameters_can_be_refused() {
    let mut p = PlayParams::default();
    p.duration = Some("5".to_string());
    let e = parse_catchup_params_at(&p, NOW).unwrap_err();
    assert_eq!((e, e.message()), (CatchupError::NoStart, "duration requires at or from"));
    p.from = Some("60".to_string());
    p.duration = Some("x".to_string());
    let e = parse_catchup_params_at(&p, NOW).unwrap_err();
    assert_eq!((e, e.message()), (CatchupError::BadDuration, "duration must be a positive integer (minutes)"));
}
