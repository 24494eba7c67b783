use iptv_proxy::blacklist::{host_of, stream_id_of, Blacklist, FailureKind, UrlState, MAX_COOL_OFF_STEP};
use iptv_proxy::config::BlacklistConfig;

const SECOND: i128 = 1_000_000_000;
const NOW: i128 = 1_778_700_000 * SECOND;

fn cfg() -> BlacklistConfig {
    BlacklistConfig {
        host_fail_threshold: 4,
        host_ttl_secs: 3600,
        cool_off_steps_secs: [60, 300, 1800, 21600],
        heartbeat_window_secs: 60,
        clean_play_reset_secs: 300,
    }
}

fn set_state(bl: &mut Blacklist, url: &str, s: UrlState) {
    bl.per_url.insert(url.to_string(), s);
}

fn state(bl: &Blacklist, url: &str) -> UrlState {
    *bl.per_url.get(&url.to_string()).unwrap()
}

#[test]
fn parses_url_parts() {
    let u = "http://cf.8kgaminghub.shop/live/USER/PASS/12345.m3u8";
    assert_eq!(host_of(u).unwrap(), "http://cf.8kgaminghub.shop");
    assert_eq!(stream_id_of(u).unwrap(), "12345");
}

#[test]
fn url_parts_need_a_scheme_and_three_parts() {
    assert!(host_of("cf.shop/live/U/P/1.m3u8").is_none());
    assert!(stream_id_of("http://h/live/U/1.m3u8").is_none());
    assert!(stream_id_of("http://h/vod/U/P/1.m3u8").is_none());
    assert_eq!(stream_id_of("http://h/live/U/P/77").unwrap(), "77");
}

#[test]
fn server_side_failures_escalate_through_steps() {
    let mut bl = Blacklist::new(cfg());
    let u = "http://h/live/U/P/1.m3u8";
    for step in 1..=4 {
        bl.note_failure(u, FailureKind::ServerSide, NOW);
        assert_eq!(bl.cool_off_penalty(u), step, "after {step} fail(s)");
    }
    bl.note_failure(u, FailureKind::ServerSide, NOW);
    bl.note_failure(u, FailureKind::ServerSide, NOW);
    assert_eq!(bl.cool_off_penalty(u), MAX_COOL_OFF_STEP as i32);
}

#[test]
fn client_post_canplay_escalates_like_server_side() {
    let mut bl = Blacklist::new(cfg());
    let u = "http://h/live/U/P/1.m3u8";
    for step in 1..=4 {
        bl.note_failure(u, FailureKind::ClientPostCanplay, NOW);
        assert_eq!(bl.cool_off_penalty(u), step);
    }
}

#[test]
fn client_pre_canplay_is_a_noop() {
    let mut bl = Blacklist::new(cfg());
    let u = "http://h/live/U/P/1.m3u8";
    for _ in 0..10 {
        bl.note_failure(u, FailureKind::ClientPreCanplay, NOW);
    }
    assert_eq!(bl.cool_off_penalty(u), 0);
    assert!(bl.per_url.entries.is_empty());
    assert!(bl.host_streams.entries.is_empty());
}

#[test]
fn host_blame_only_on_server_side() {
    let mut bl = Blacklist::new(cfg());
    let u = "http://h/live/U/P/1.m3u8";
    bl.note_failure(u, FailureKind::ClientPostCanplay, NOW);
    bl.note_failure(u, FailureKind::ClientPostCanplay, NOW);
    assert!(bl.host_streams.entries.is_empty(), "post-canplay must not blame the host");
    bl.note_failure(u, FailureKind::ServerSide, NOW);
    assert!(!bl.host_streams.entries.is_empty(), "ServerSide blames the host");
}

#[test]
fn heartbeat_resets_after_clean_window_with_fresh_predecessor() {
    let mut bl = Blacklist::new(cfg());
    let u = "http://h/live/U/P/1.m3u8";
    let reset = bl.config.clean_play_reset_secs;
    set_state(
        &mut bl,
        u,
        UrlState {
            cool_off_step: 2,
            consecutive_fails: 2,
            last_error_at: Some(NOW - (reset as i128 + 60) * SECOND),
            last_heartbeat_at: Some(NOW - 30 * SECOND),
        },
    );
    bl.note_heartbeat(u, NOW);
    let s = state(&bl, u);
    assert_eq!(s.cool_off_step, 0);
    assert_eq!(s.consecutive_fails, 0);
    assert!(s.last_error_at.is_none());
}

#[test]
fn heartbeat_does_not_reset_without_fresh_predecessor() {
    let mut bl = Blacklist::new(cfg());
    let u = "http://h/live/U/P/1.m3u8";
    set_state(
        &mut bl,
        u,
        UrlState {
            cool_off_step: 2,
            consecutive_fails: 2,
            last_error_at: Some(NOW - 400 * SECOND),
            last_heartbeat_at: None,
        },
    );
    bl.note_heartbeat(u, NOW);
    let s = state(&bl, u);
    assert_eq!(s.cool_off_step, 2, "first beat after error doesn't reset");
    assert!(s.last_heartbeat_at.is_some());
}

#[test]
fn heartbeat_does_not_reset_inside_clean_play_window() {
    let mut bl = Blacklist::new(cfg());
    let u = "http://h/live/U/P/1.m3u8";
    set_state(
        &mut bl,
        u,
        UrlState {
            cool_off_step: 1,
            consecutive_fails: 1,
            last_error_at: Some(NOW - 60 * SECOND),
            last_heartbeat_at: Some(NOW - 30 * SECOND),
        },
    );
    bl.note_heartbeat(u, NOW);
    assert_eq!(state(&bl, u).cool_off_step, 1, "too soon after error to reset");
}

#[test]
fn heartbeat_is_noop_when_no_prior_state() {
    let mut bl = Blacklist::new(cfg());
    bl.note_heartbeat("http://h/live/U/P/1.m3u8", NOW);
    assert!(bl.per_url.entries.is_empty());
}

#[test]
fn heartbeat_is_cool_off_noop_when_last_error_is_none() {
    let mut bl = Blacklist::new(cfg());
    let u = "http://h/live/U/P/1.m3u8";
    set_state(
        &mut bl,
        u,
        UrlState {
            cool_off_step: 0,
            consecutive_fails: 0,
            last_error_at: None,
            last_heartbeat_at: Some(NOW - 30 * SECOND),
        },
    );
    bl.note_heartbeat(u, NOW);
    let s = state(&bl, u);
    assert_eq!(s.cool_off_step, 0);
    assert!(s.last_heartbeat_at.is_some());
}

#[test]
fn note_url_succeeded_tracks_lkg_without_resetting_cool_off() {
    let mut bl = Blacklist::new(cfg());
    let u = "http://h/live/U/P/1.m3u8";
    bl.note_failure(u, FailureKind::ServerSide, NOW);
    bl.note_failure(u, FailureKind::ServerSide, NOW);
    assert_eq!(bl.cool_off_penalty(u), 2);
    bl.note_url_succeeded("chan", u, NOW);
    assert_eq!(bl.last_known_good("chan", NOW).as_deref(), Some(u));
    assert_eq!(bl.cool_off_penalty(u), 2);
}

#[test]
fn last_known_good_age_only_matches_recorded_url() {
    let mut bl = Blacklist::new(cfg());
    bl.note_url_succeeded("rtp1", "http://a", NOW);
    let age = bl.last_known_good_age("rtp1", "http://a", NOW).expect("matches");
    assert!(age < 2);
    assert!(bl.last_known_good_age("rtp1", "http://b", NOW).is_none());
    assert!(bl.last_known_good_age("missing", "http://a", NOW).is_none());
}

#[test]
fn last_known_good_lasts_a_day() {
    let mut bl = Blacklist::new(cfg());
    bl.note_url_succeeded("rtp1", "http://a", NOW);
    assert_eq!(bl.last_known_good_age("rtp1", "http://a", NOW + 86400 * SECOND), Some(86400));
    assert!(bl.last_known_good_age("rtp1", "http://a", NOW + 86401 * SECOND).is_none());
    assert!(bl.last_known_good("rtp1", NOW + 86401 * SECOND).is_none());
}

#[test]
fn persistence_round_trip_via_disk() {
    let mut bl = Blacklist::new(cfg());
    bl.note_failure("http://h/live/U/P/1.m3u8", FailureKind::ServerSide, NOW);
    bl.note_failure("http://h/live/U/P/1.m3u8", FailureKind::ServerSide, NOW);
    bl.note_failure("http://h/live/U/P/2.m3u8", FailureKind::ClientPostCanplay, NOW);
    bl.note_url_succeeded("chan", "http://h/live/U/P/3.m3u8", NOW);
    let bl2 = Blacklist::from_lists(cfg(), bl.to_lists());
    assert_eq!(bl2.cool_off_penalty("http://h/live/U/P/1.m3u8"), 2);
    assert_eq!(bl2.cool_off_penalty("http://h/live/U/P/2.m3u8"), 1);
    assert_eq!(bl2.last_known_good("chan", NOW).as_deref(), Some("http://h/live/U/P/3.m3u8"));
    assert!(!bl2.host_streams.entries.is_empty());
}

#[test]
fn load_missing_file_starts_empty() {
    let bl = Blacklist::new(cfg());
    assert_eq!(bl.per_url_count(), 0);
    assert!(bl.snapshot_hosts(NOW).is_empty());
}

#[test]
fn hosts_are_bad_from_the_threshold_on_and_for_the_ttl() {
    let mut bl = Blacklist::new(cfg());
    for i in 1..=4 {
        assert!(!bl.is_host_bad("http://h", NOW));
        bl.note_failure(&format!("http://h/live/U/P/{i}.m3u8"), FailureKind::ServerSide, NOW);
    }
    assert!(bl.is_host_bad("http://h", NOW));
    assert!(!bl.is_host_bad("http://other", NOW));
    assert!(bl.is_host_bad("http://h", NOW + 3599 * SECOND));
    assert!(!bl.is_host_bad("http://h", NOW + 3601 * SECOND));
    let told = bl.snapshot_hosts(NOW + 5 * SECOND);
    assert_eq!(told.len(), 1);
    assert_eq!(told[0].host, "http://h");
    assert_eq!(told[0].distinct_streams_failed, 4);
    assert_eq!(told[0].last_fail_secs_ago, 5);
}

#[test]
fn one_stream_failing_often_is_one_stream() {
    let mut bl = Blacklist::new(cfg());
    for _ in 0..10 {
        bl.note_failure("http://h/live/U/P/1.m3u8", FailureKind::ServerSide, NOW);
    }
    assert!(!bl.is_host_bad("http://h", NOW));
    assert_eq!(bl.per_url_count(), 1);
}

#[test]
fn urls_count_as_failed_from_step_three_on() {
    let mut bl = Blacklist::new(cfg());
    let u = "http://h/x";
    bl.note_failure(u, FailureKind::ServerSide, NOW);
    bl.note_failure(u, FailureKind::ServerSide, NOW);
    assert!(!bl.is_url_failed(u));
    bl.note_failure(u, FailureKind::ServerSide, NOW);
    assert!(bl.is_url_failed(u));
}
