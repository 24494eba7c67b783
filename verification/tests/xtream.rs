use iptv_proxy::json::Json;
use iptv_proxy::xtream::{
    b64_decode, format_timeshift_start, parse_epg_listings, parse_epg_program, parse_ts, tag_origin, ChannelKind, LiveStream,
    XtreamClient,
};

fn text(s: &str) -> Json {
    Json::Text(s.to_string())
}

fn number(n: u64) -> Json {
    Json::Number(Some(n))
}

fn object(members: Vec<(&str, Json)>) -> Json {
    Json::Object(members.into_iter().map(|(k, v)| (k.to_string(), v)).collect())
}

#[test]
fn parse_epg_program_pulls_has_archive_when_set() {
    let raw = object(vec![
        ("id", text("1")),
        ("title", text("VGVzdA==")),
        ("description", text("")),
        ("start", text("2026-05-10 02:24:00")),
        ("end", text("2026-05-10 03:09:00")),
        ("start_timestamp", text("1778379840")),
        ("stop_timestamp", text("1778382540")),
        ("has_archive", number(1)),
    ]);
    let p = parse_epg_program(&raw);
    assert!(p.has_archive, "has_archive should be true for upstream value 1");
    assert_eq!(p.title, "Test");
    assert_eq!(p.start.unwrap().nanos, 1_778_379_840_000_000_000);
}

#[test]
fn parse_epg_program_has_archive_zero_is_false() {
    let raw = object(vec![
        ("id", text("2")),
        ("title", text("VGVzdA==")),
        ("description", text("")),
        ("start", text("2026-05-10 02:24:00")),
        ("end", text("2026-05-10 03:09:00")),
        ("start_timestamp", text("1778379840")),
        ("stop_timestamp", text("1778382540")),
        ("has_archive", number(0)),
    ]);
    let p = parse_epg_program(&raw);
    assert!(!p.has_archive);
}

#[test]
fn parse_epg_program_has_archive_missing_is_false() {
    let raw = object(vec![
        ("id", text("3")),
        ("title", text("VGVzdA==")),
        ("start", text("2026-05-10 02:24:00")),
        ("end", text("2026-05-10 03:09:00")),
        ("start_timestamp", text("1778379840")),
        ("stop_timestamp", text("1778382540")),
    ]);
    let p = parse_epg_program(&raw);
    assert!(!p.has_archive);
}

#[test]
fn parse_epg_listings_pulls_has_archive_for_each_program() {
    let entry = |id: &str, start: &str, end: &str, from: &str, to: &str, archive: u64| {
        object(vec![
            ("id", text(id)),
            ("title", text("VA==")),
            ("start", text(start)),
            ("end", text(end)),
            ("start_timestamp", text(from)),
            ("stop_timestamp", text(to)),
            ("has_archive", number(archive)),
        ])
    };
    let raw = object(vec![(
        "epg_listings",
        Json::List(vec![
            entry("1", "2026-05-10 02:24:00", "2026-05-10 03:09:00", "1778379840", "1778382540", 1),
            entry("2", "2026-05-10 03:09:00", "2026-05-10 04:00:00", "1778382540", "1778385600", 0),
        ]),
    )]);
    let ps = parse_epg_listings(&raw);
    assert_eq!(ps.len(), 2);
    assert!(ps[0].has_archive);
    assert!(!ps[1].has_archive);
}

fn stream(name: &str, archive: Json, duration: Json) -> LiveStream {
    LiveStream {
        stream_id: 386405,
        name: name.to_string(),
        stream_icon: String::new(),
        category_id: String::new(),
        epg_channel_id: None,
        added: None,
        custom_sid: None,
        tv_archive: Some(archive),
        tv_archive_duration: Some(duration),
        direct_source: None,
        kind: ChannelKind::Tv,
        origin_host: String::new(),
        radio_format: None,
    }
}

#[test]
fn live_stream_archive_helpers() {
    let s = stream("PT: RTP 1 HD ◉", number(1), text("3"));
    assert!(s.has_tv_archive());
    assert_eq!(s.tv_archive_days(), Some(3));

    let s = stream("MEO: RTP 1 RAW", number(0), text("0"));
    assert!(!s.has_tv_archive());
    assert_eq!(s.tv_archive_days(), None);

    let s = stream("X", number(1), number(7));
    assert_eq!(s.tv_archive_days(), Some(7));
}

fn client(user: &str, pass: &str) -> XtreamClient {
    XtreamClient { username: user.to_string(), password: pass.to_string() }
}

fn secs(s: &str) -> i64 {
    time::OffsetDateTime::parse(s, &time::format_description::well_known::Rfc3339).unwrap().unix_timestamp()
}

#[test]
fn timeshift_url_matches_provider_format() {
    let start = secs("2026-05-12T20:00:00Z");
    let url = client("USER", "PASS").timeshift_url("http://cf.host", 386405, 60, start);
    assert_eq!(url, "http://cf.host/timeshift/USER/PASS/60/2026-05-12:20-00/386405.m3u8");
}

#[test]
fn timeshift_url_converts_offset_to_utc() {
    let start = secs("2026-05-12T22:00:00+02:00");
    let url = client("u", "p").timeshift_url("http://h", 1, 5, start);
    assert!(url.contains("/5/2026-05-12:20-00/"), "got: {url}");
}

#[test]
fn format_timeshift_start_zero_pads() {
    assert_eq!(format_timeshift_start(secs("2026-01-05T03:07:00Z")), "2026-01-05:03-07");
}

#[test]
fn interface_urls_escape_what_they_carry() {
    let c = client("us er", "p&s");
    assert_eq!(
        c.streams_url("http://h/"),
        "http://h/player_api.php?username=us%20er&password=p%26s&action=get_live_streams"
    );
    assert_eq!(c.account_url("http://h"), "http://h/player_api.php?username=us%20er&password=p%26s");
    assert_eq!(
        c.guide_url("http://h", 7),
        "http://h/player_api.php?username=us%20er&password=p%26s&action=get_simple_data_table&stream_id=7"
    );
    assert_eq!(
        c.short_guide_url("http://h", 7, Some(8)),
        "http://h/player_api.php?username=us%20er&password=p%26s&action=get_short_epg&stream_id=7&limit=8"
    );
    assert_eq!(c.stream_url("http://h/", 12, "m3u8"), "http://h/live/us er/p&s/12.m3u8");
}

#[test]
fn streams_are_marked_with_their_host() {
    let v = tag_origin(vec![stream("a", number(1), number(1)), stream("b", number(1), number(1))], "http://h");
    assert_eq!(v.len(), 2);
    assert_eq!(v[0].origin_host, "http://h");
    assert_eq!(v[1].origin_host, "http://h");
    assert_eq!(v[1].name, "b");
}

#[test]
fn texts_come_out_of_base64_where_they_are_in_it() {
    assert_eq!(b64_decode("VGVzdA=="), "Test");
    assert_eq!(b64_decode("VGVzdA"), "Test");
    assert_eq!(b64_decode("not base64!"), "not base64!");
    assert_eq!(b64_decode(""), "");
}

#[test]
fn bytes_that_are_no_text_are_read_as_far_as_they_go() {
    // "a" and a byte that starts nothing.
    assert_eq!(b64_decode("Yf8="), "a\u{fffd}");
}

#[test]
fn programmes_start_at_a_number_or_a_text() {
    let at = |p: iptv_proxy::json::Json| parse_ts(&p, "ts", "text").map(|m| (m.nanos, m.offset));
    let second: i128 = 1_000_000_000;
    assert_eq!(at(object(vec![("ts", number(60)), ("text", text("2026-05-10 02:24:00"))])), Some((60 * second, 0)));
    assert_eq!(at(object(vec![("ts", text("-5"))])), Some((-5 * second, 0)));
    assert_eq!(at(object(vec![("text", text("2026-05-10T02:24:00+01:00"))])), Some((1_778_376_240 * second, 3600)));
    assert_eq!(at(object(vec![("text", text("2026-05-10 02:24:00"))])), Some((1_778_379_840 * second, 0)));
    assert_eq!(at(object(vec![("ts", text("soon")), ("text", text("later"))])), None);
    assert_eq!(at(object(vec![("ts", number(u64::MAX))])).map(|m| m.0), Some(-second));
}
