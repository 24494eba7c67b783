use iptv_proxy::play_log::{PlayEvent, PlayLog, CAPACITY};
use iptv_proxy::play_sessions::PlaySessions;

const NANOS: u64 = 1_000_000_000;

fn event(id: &str, channel: &str) -> PlayEvent {
    PlayEvent {
        id: id.into(),
        started: 1_778_700_000_000_000_000,
        channel: channel.into(),
        catchup: false,
        total_ms: 100,
        candidates_total: 1,
        succeeded: true,
        error: None,
        attempts: vec![],
    }
}

#[test]
fn ids_are_unique_six_hex() {
    let mut log = PlayLog::new();
    let ids: Vec<String> = (0..3).map(|_| log.next_id()).collect();
    assert_eq!(ids[0], "000000");
    assert_eq!(ids[1], "000001");
    assert_eq!(ids[2], "000002");
    assert!(ids[0].len() == 6);
}

#[test]
fn ids_begin_again_after_the_last() {
    let mut log = PlayLog::new();
    log.counter = 0xff_ffff;
    assert_eq!(log.next_id(), "ffffff");
    assert_eq!(log.next_id(), "000000");
}

#[test]
fn ring_evicts_oldest_at_capacity() {
    let mut log = PlayLog::new();
    for i in 0..(CAPACITY + 5) {
        log.record(event(&format!("{i:06x}"), "rtp1"));
    }
    let snap = log.snapshot();
    assert_eq!(snap.len(), CAPACITY);
    assert_eq!(snap[0].id, format!("{:06x}", CAPACITY + 4));
    assert_eq!(snap.last().unwrap().id, format!("{:06x}", 5));
}

#[test]
fn note_then_lookup_returns_upstream_and_channel() {
    let mut s = PlaySessions::new();
    s.note("ab12cd", "rtp1", "http://cf.example/live/U/P/123.m3u8", 0);
    let (url, ch) = s.lookup("ab12cd", 0).expect("present");
    assert_eq!(url, "http://cf.example/live/U/P/123.m3u8");
    assert_eq!(ch, "rtp1");
}

#[test]
fn lookup_returns_none_for_unknown_pid() {
    let s = PlaySessions::new();
    assert!(s.lookup("missing", 0).is_none());
}

#[test]
fn empty_pid_is_inert() {
    let mut s = PlaySessions::new();
    s.note("", "rtp1", "http://x", 0);
    assert!(s.lookup("", 0).is_none());
}

#[test]
fn note_overwrites_prior_upstream_for_same_pid() {
    let mut s = PlaySessions::new();
    s.note("p1", "rtp1", "http://a", 0);
    s.note("p1", "rtp1", "http://b", 0);
    let (url, _) = s.lookup("p1", 0).unwrap();
    assert_eq!(url, "http://b");
}

#[test]
fn sessions_last_ten_minutes() {
    let mut s = PlaySessions::new();
    s.note("p1", "rtp1", "http://a", 5 * NANOS);
    assert!(s.lookup("p1", 605 * NANOS).is_some());
    assert!(s.lookup("p1", 605 * NANOS + 1).is_none());
}

#[test]
fn sweeps_drop_what_is_over() {
    let mut s = PlaySessions::new();
    s.note("old", "rtp1", "http://a", 0);
    s.note("new", "rtp1", "http://b", 601 * NANOS);
    assert_eq!(s.by_pid.entries.len(), 1);
    assert!(s.lookup("new", 601 * NANOS).is_some());
}
