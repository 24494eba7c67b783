use iptv_proxy::probe::{
    derive_host, first_extinf_and_url, freshness_cap, freshness_interval, is_placeholder_manifest, needs_reprobe,
    read_duration,
    FRESHNESS_AUTO_INTERVAL_SECS,
};
use iptv_proxy::single::Single;

const NOW: i128 = 1_778_700_000_000_000_000;
const SECOND: i128 = 1_000_000_000;

fn single(x: f32) -> Single {
    Single { bits: x.to_bits() }
}

#[test]
fn placeholder_detected_when_endlist_and_two_extinfs() {
    let body = "#EXTM3U\n\
                #EXT-X-VERSION:3\n\
                #EXT-X-TARGETDURATION:5\n\
                #EXTINF:5.000,\n\
                http://cf/black.ts\n\
                #EXT-X-ENDLIST\n";
    assert!(is_placeholder_manifest(body));
}

#[test]
fn placeholder_detected_with_one_extinf() {
    let body = "#EXTM3U\n#EXTINF:1.5,\nhttp://cf/x.ts\n#EXT-X-ENDLIST\n";
    assert!(is_placeholder_manifest(body));
}

#[test]
fn live_manifest_not_detected_as_placeholder() {
    let mut body = String::from("#EXTM3U\n#EXT-X-VERSION:3\n#EXT-X-TARGETDURATION:6\n");
    for i in 0..10 {
        body.push_str(&format!("#EXTINF:5.000,\nhttp://cf/seg_{i}.ts\n"));
    }
    assert!(!is_placeholder_manifest(&body));
}

#[test]
fn vod_with_endlist_but_many_extinfs_not_a_placeholder() {
    let mut body = String::from("#EXTM3U\n");
    for i in 0..50 {
        body.push_str(&format!("#EXTINF:5.000,\nhttp://cf/seg_{i}.ts\n"));
    }
    body.push_str("#EXT-X-ENDLIST\n");
    assert!(!is_placeholder_manifest(&body));
}

#[test]
fn first_extinf_resolves_relative_url() {
    let body = "#EXTM3U\n#EXTINF:5.5,\nseg_001.ts\n#EXTINF:5.5,\nseg_002.ts\n";
    let (d, u) = first_extinf_and_url(body, "http://cf/live/playlist.m3u8").unwrap();
    assert!((f32::from_bits(d.bits) - 5.5).abs() < 0.001);
    assert_eq!(u, "http://cf/live/seg_001.ts");
}

#[test]
fn first_extinf_resolves_absolute_url() {
    let body = "#EXTM3U\n#EXTINF:3.0,\nhttp://other.example/seg.ts\n";
    let (d, u) = first_extinf_and_url(body, "http://cf/live/playlist.m3u8").unwrap();
    assert!((f32::from_bits(d.bits) - 3.0).abs() < 0.001);
    assert_eq!(u, "http://other.example/seg.ts");
}

#[test]
fn first_extinf_returns_none_for_master_playlist() {
    let body = "#EXTM3U\n#EXT-X-STREAM-INF:BANDWIDTH=1000\nchunklist.m3u8\n";
    assert!(first_extinf_and_url(body, "http://cf/master.m3u8").is_none());
}

#[test]
fn first_extinf_returns_none_for_empty_playlist() {
    let body = "#EXTM3U\n#EXT-X-VERSION:3\n";
    assert!(first_extinf_and_url(body, "http://cf/x.m3u8").is_none());
}

#[test]
fn freshness_interval_force_off() {
    assert_eq!(freshness_interval(Some(0), 8), None);
}

#[test]
fn freshness_interval_force_on() {
    assert_eq!(freshness_interval(Some(60), 1), Some(60));
    assert_eq!(freshness_interval(Some(60), 0), Some(60));
    assert_eq!(freshness_interval(Some(60), 8), Some(60));
}

#[test]
fn freshness_interval_auto_off_when_low_max_cons() {
    assert_eq!(freshness_interval(None, 0), None);
    assert_eq!(freshness_interval(None, 1), None);
    assert_eq!(freshness_interval(None, 2), None);
}

#[test]
fn freshness_interval_auto_on_at_3_plus() {
    assert_eq!(freshness_interval(None, 3), Some(FRESHNESS_AUTO_INTERVAL_SECS));
    assert_eq!(freshness_interval(None, 8), Some(FRESHNESS_AUTO_INTERVAL_SECS));
}

#[test]
fn freshness_cap_leaves_one_slot_for_user() {
    assert_eq!(freshness_cap(3, 0), 2);
    assert_eq!(freshness_cap(3, 1), 1);
    assert_eq!(freshness_cap(3, 2), 0);
    assert_eq!(freshness_cap(8, 0), 2);
    assert_eq!(freshness_cap(1, 0), 0);
}

#[test]
fn needs_reprobe_when_no_sample() {
    assert!(needs_reprobe(None, NOW, 3600));
}

#[test]
fn needs_reprobe_when_sample_older_than_ttl() {
    assert!(needs_reprobe(Some(NOW - 4000 * SECOND), NOW, 3600));
}

#[test]
fn skips_reprobe_when_sample_within_ttl() {
    assert!(!needs_reprobe(Some(NOW - 300 * SECOND), NOW, 3600));
}

#[test]
fn hosts_of_urls_keep_scheme_and_name() {
    assert_eq!(derive_host("http://radio.example:8000/live"), "http://radio.example");
    assert_eq!(derive_host("no url"), "");
}

#[test]
fn durations_may_have_an_exponent() {
    let read = |s: &str| read_duration(&s.chars().collect::<Vec<char>>());
    for (text, d) in [
        ("1e1", 10.0),
        ("1.5E+1", 15.0),
        ("25e-1", 2.5),
        ("+.5", 0.5),
        ("6.", 6.0),
        ("1234567e-12", 1.234567e-6),
        ("5.005", 5.005),
        ("1e-7", 1e-7),
        ("1e14", 1e14),
        ("1e00000000000000000000000000000000001", 10.0),
        ("1e99999999999999999999999", f32::INFINITY),
        ("inf", f32::INFINITY),
        ("+Infinity", f32::INFINITY),
    ] {
        assert_eq!(read(text), Some(single(d)), "{text}");
    }
    for text in [
        "", ".", "e1", "1e", "1e+", "1e1.5", "-1", "-inf", "0", "0e99", "nan", "1,5", "infinit", " 1",
        "1e-46", "1e-99999999999999999999999",
    ] {
        assert_eq!(read(text), None, "{text}");
    }
}
