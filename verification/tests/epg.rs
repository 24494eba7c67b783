use iptv_proxy::config::EpgConfig;
use iptv_proxy::epg::{
    after_full_guide, dedupe_programs, empty_cached, format_rtp_date, from_lisbon, parse_rtp_date_str, parse_rtp_radio_response, rtp_decode,
    rtp_radio_url, score_epg, EpgCandidate, EpgState, EpgStep, EpgWalk, GuideMap, WalkOutcome,
};
use iptv_proxy::json::Json;
use iptv_proxy::xtream::{EpgProgram, Moment};

const SECOND: i128 = 1_000_000_000;
const HOUR: i128 = 3600 * SECOND;
const MINUTE: i128 = 60 * SECOND;
const NANOS: u64 = 1_000_000_000;

fn moment(nanos: i128) -> Option<Moment> {
    Some(Moment { nanos, offset: 0 })
}

fn program(title: &str, start: i128, end: i128) -> EpgProgram {
    EpgProgram {
        title: title.to_string(),
        description: String::new(),
        start: moment(start),
        end: moment(end),
        has_archive: false,
    }
}

/// One programme an hour.
fn guide(count: i128) -> Vec<EpgProgram> {
    (0..count).map(|i| program(&format!("p{i}"), i * HOUR, (i + 1) * HOUR)).collect()
}

fn xtream(stream_id: u64, priority: u8) -> EpgCandidate {
    EpgCandidate::Xtream { stream_id, host: format!("http://h{stream_id}"), priority }
}

fn outcome(programs: Vec<EpgProgram>) -> WalkOutcome {
    let n = programs.len();
    WalkOutcome { programs, program_count: n, span_hours: 7, stream_id: Some(42), host: Some("http://h".to_string()) }
}

fn state() -> EpgState {
    EpgState::new(EpgConfig { ttl_secs: 600, fetch_timeout_secs: 5 })
}

#[test]
fn days_are_written_without_leading_zeros() {
    assert_eq!(format_rtp_date(1_778_700_000), "13-5-2026");
    assert_eq!(format_rtp_date(0), "1-1-1970");
}

#[test]
fn radio_urls_name_station_and_day() {
    assert_eq!(
        rtp_radio_url(3, "13-5-2026"),
        "https://www.rtp.pt/EPG/json/rtp-channels-page/list-grid/radio/3/13-5-2026/lis"
    );
    let day = EpgCandidate::RtpRadio { code: 3, date: "13-5-2026".to_string() };
    assert_eq!(day.host_for_log(), "rtp-radio/3/13-5-2026");
    assert_eq!(day.stream_id_for_log(), 3);
}

#[test]
fn names_of_characters_are_replaced() {
    assert_eq!(rtp_decode("M&uacute;sica &amp; Vida"), "M\u{fa}sica & Vida");
    assert_eq!(rtp_decode("&Eacute;poca"), "\u{c9}poca");
    assert_eq!(rtp_decode("plain"), "plain");
}

#[test]
fn lisbon_is_an_hour_ahead_from_april_to_october() {
    // 2026-05-13T19:20:00 and 2026-01-13T19:20:00, as if they were times of UTC.
    let may = 1_778_700_000 * SECOND;
    let january = 1_768_332_000 * SECOND;
    assert_eq!(from_lisbon(may), moment(may - HOUR));
    assert_eq!(from_lisbon(january), moment(january));
    // Beyond the calendar.
    assert_eq!(from_lisbon(i128::MAX), None);
}

#[test]
fn dates_without_a_zone_are_those_of_lisbon() {
    assert_eq!(parse_rtp_date_str(Some(&"2026-05-13 19:20:00".to_string())), moment(1_778_700_000 * SECOND - HOUR));
    assert_eq!(parse_rtp_date_str(Some(&"13/05/2026".to_string())), None);
    assert_eq!(parse_rtp_date_str(None), None);
}

fn entry(name: &str, date: &str) -> Json {
    Json::Object(vec![
        ("name".to_string(), Json::Text(name.to_string())),
        ("description".to_string(), Json::Text("d".to_string())),
        ("date".to_string(), Json::Text(date.to_string())),
    ])
}

#[test]
fn days_run_from_morning_to_evening_and_each_programme_ends_with_the_next() {
    let day = Json::Object(vec![(
        "result".to_string(),
        Json::Object(vec![
            ("evening".to_string(), Json::List(vec![entry("Noite", "2026-01-13 20:00:00")])),
            ("morning".to_string(), Json::List(vec![entry("Manh&atilde;", "2026-01-13 08:00:00"), entry("x", "no date")])),
            ("afternoon".to_string(), Json::Null),
        ]),
    )]);
    let got = parse_rtp_radio_response(&day);
    assert_eq!(got.len(), 2);
    assert_eq!(got[0].title, "Manh\u{e3}");
    assert_eq!(got[0].description, "d");
    assert_eq!(got[0].end, got[1].start);
    assert_eq!(got[1].title, "Noite");
    assert_eq!(got[1].end, None);
    assert!(parse_rtp_radio_response(&Json::Null).is_empty());
}

#[test]
fn guides_score_by_programmes_and_hours() {
    assert_eq!(score_epg(&[]), (0, 0, 0));
    // 25 programmes, 24 hours from the first start to the last.
    assert_eq!(score_epg(&guide(25)), (25 + 2 * 24, 24, 25));
}

#[test]
fn places_with_priority_are_asked_first() {
    let radio = EpgCandidate::RtpRadio { code: 9, date: "13-5-2026".to_string() };
    let (walk, order) = EpgWalk::start(vec![radio, xtream(1, 0), xtream(2, 1), xtream(3, 2), xtream(4, 1)]);
    let ids: Vec<u64> = order.iter().map(|c| c.stream_id_for_log()).collect();
    assert_eq!(ids, vec![3, 2, 4, 9, 1]);
    assert_eq!(walk.priority_remaining, 3);
}

#[test]
fn walks_wait_for_places_with_priority() {
    let (mut walk, _) = EpgWalk::start(vec![xtream(1, 0), xtream(2, 1)]);
    assert!(!walk.arrived(&xtream(1, 0), guide(30)), "a place with priority is still to answer");
    assert_eq!(walk.best.stream_id, Some(1));
    assert!(!walk.arrived(&xtream(2, 1), guide(3)), "its guide is too short");
    assert_eq!(walk.best.stream_id, Some(2), "but it is preferred");
    assert_eq!(walk.best.host.as_deref(), Some("http://h2"));
    assert_eq!(walk.best.program_count, 3);
    assert_eq!(walk.best.span_hours, 2);
}

#[test]
fn walks_end_with_a_guide_that_is_good_enough() {
    let (mut walk, _) = EpgWalk::start(vec![xtream(1, 0), xtream(2, 0)]);
    assert!(!walk.arrived(&xtream(1, 0), guide(20)), "19 hours are too few");
    assert!(walk.arrived(&xtream(2, 0), guide(25)));
    assert_eq!(walk.best.stream_id, Some(2));
    assert!(walk.arrived(&xtream(1, 0), guide(24)), "a worse guide changes nothing");
    assert_eq!(walk.best.stream_id, Some(2));
}

#[test]
fn doubles_are_dropped_and_the_longer_stays() {
    let got = dedupe_programs(vec![
        program("News", 2 * HOUR, 3 * HOUR),
        program(" NEWS ", 2 * HOUR + 10 * MINUTE, 4 * HOUR),
        program("Film", 0, HOUR),
        program("News", 5 * HOUR, 6 * HOUR),
    ]);
    let titles: Vec<&str> = got.iter().map(|p| p.title.as_str()).collect();
    assert_eq!(titles, vec!["Film", " NEWS ", "News"]);
}

#[test]
fn programmes_without_an_end_are_dropped() {
    let mut open = program("Open", 0, HOUR);
    open.end = None;
    assert_eq!(dedupe_programs(vec![open, program("a", HOUR, 2 * HOUR)]).len(), 1);
}

#[test]
fn programmes_half_an_hour_apart_are_doubles_and_further_not() {
    let near = dedupe_programs(vec![program("a", 0, HOUR), program("a", 30 * MINUTE, HOUR)]);
    assert_eq!(near.len(), 1);
    let far = dedupe_programs(vec![program("a", 0, HOUR), program("a", 31 * MINUTE, HOUR)]);
    assert_eq!(far.len(), 2);
}

#[test]
fn guides_are_kept_by_key() {
    let mut m = GuideMap::new();
    assert!(m.get("rtp1").is_none());
    assert!(m.keys().is_empty());
    m.insert("rtp1".to_string(), empty_cached(5));
    m.insert("sic".to_string(), empty_cached(6));
    assert_eq!(m.get("rtp1").unwrap().fetched_at, 5);
    m.insert("rtp1".to_string(), empty_cached(7));
    assert_eq!(m.get("rtp1").unwrap().fetched_at, 7);
    let mut keys = m.keys();
    keys.sort();
    assert_eq!(keys, vec!["rtp1".to_string(), "sic".to_string()]);
    m.remove("rtp1");
    m.remove("never");
    assert!(m.get("rtp1").is_none());
    assert!(m.get("sic").is_some());
}

#[test]
fn one_fetch_serves_all_who_ask_meanwhile() {
    let mut s = state();
    assert!(matches!(s.begin("rtp1", 0), EpgStep::Fetch));
    assert!(matches!(s.begin("rtp1", 1), EpgStep::Wait));
    assert!(matches!(s.begin("sic", 1), EpgStep::Fetch));
    let kept = s.finish("rtp1", outcome(guide(2)), NANOS);
    assert_eq!(kept.programs.len(), 2);
    assert_eq!(kept.meta.source_stream_id, Some(42));
    assert_eq!(kept.meta.source_host.as_deref(), Some("http://h"));
    assert_eq!(kept.meta.span_hours, 7);
    assert_eq!(s.inflight, vec!["sic".to_string()]);
    assert_eq!(s.after_wait("rtp1", NANOS).programs.len(), 2);
    assert_eq!(s.after_wait("sic", NANOS).programs.len(), 0);
    assert!(matches!(s.begin("rtp1", 2 * NANOS), EpgStep::Cached(_)));
}

#[test]
fn guides_last_as_long_as_configured() {
    let mut s = state();
    s.finish("rtp1", outcome(guide(1)), 0);
    assert!(s.get_fresh("rtp1", 599 * NANOS).is_some());
    assert!(s.get_fresh("rtp1", 601 * NANOS).is_none());
    assert!(matches!(s.begin("rtp1", 601 * NANOS), EpgStep::Fetch));
    assert_eq!(s.known_keys(), vec!["rtp1".to_string()]);
    s.invalidate("rtp1");
    assert!(s.known_keys().is_empty());
    assert!(s.get_fresh("rtp1", 0).is_none());
}

#[test]
fn the_short_guide_is_asked_for_where_the_whole_one_is_empty() {
    assert!(after_full_guide(None).is_none());
    assert!(after_full_guide(Some(Vec::new())).is_none());
    let whole = after_full_guide(Some(guide(2))).unwrap();
    assert_eq!(whole.len(), 2);
}
