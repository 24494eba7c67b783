use iptv_proxy::radio::{classify_url, is_radio_stream_id, parse_m3u, strip_radio_prefix, synth_stream_id, RadioFormat, RADIO_ID_MASK};
use iptv_proxy::xtream::ChannelKind;

#[test]
fn parses_extinf_and_url_pair() {
    let m3u = r#"#EXTINF:-1 tvg-logo="https://example.com/a3.png",Rádio Antena 3
https://streaming-live.rtp.pt/liveradio/antena380a/playlist.m3u8
"#;
    let entries = parse_m3u(m3u);
    assert_eq!(entries.len(), 1);
    let e = &entries[0];
    assert_eq!(e.name, "Antena 3");
    assert_eq!(
        e.direct_source.as_deref(),
        Some("https://streaming-live.rtp.pt/liveradio/antena380a/playlist.m3u8")
    );
    assert_eq!(e.stream_icon, "https://example.com/a3.png");
    assert!(matches!(e.kind, ChannelKind::Radio));
}

#[test]
fn strips_radio_prefix_case_and_accent_insensitive() {
    // Both accented and unaccented; trailing double-space collapsed.
    assert_eq!(strip_radio_prefix("Rádio Antena 1"), "Antena 1");
    assert_eq!(strip_radio_prefix("Rádio  Antena 1"), "Antena 1");
    assert_eq!(strip_radio_prefix("RADIO COMERCIAL"), "COMERCIAL");
    assert_eq!(strip_radio_prefix("Radio Foo"), "Foo");
    // Doesn't strip mid-string.
    assert_eq!(strip_radio_prefix("Old Radio Hits"), "Old Radio Hits");
    // No-op if no Rádio prefix.
    assert_eq!(strip_radio_prefix("Antena 1"), "Antena 1");
}

#[test]
fn synth_stream_id_has_high_bit_set() {
    let id = synth_stream_id("Antena 3", "https://example.com/a3.m3u8");
    assert!(id & RADIO_ID_MASK != 0);
    assert!(is_radio_stream_id(id));
    // Real Xtream stream_ids are 6-7-digit decimals.
    assert!(!is_radio_stream_id(386_405));
}

#[test]
fn synth_stream_id_is_deterministic() {
    let a = synth_stream_id("Antena 3", "https://a.example.com/x.m3u8");
    let b = synth_stream_id("Antena 3", "https://a.example.com/x.m3u8");
    let c = synth_stream_id("Antena 3", "https://b.example.com/x.m3u8");
    assert_eq!(a, b);
    assert_ne!(a, c, "different URL → different ID");
}

#[test]
fn parser_keeps_all_entries_and_tags_format() {
    let m3u = r#"#EXTINF:-1,Rádio HLS
https://example.com/stream.m3u8
#EXTINF:-1,Rádio MP3
http://example.com/stream.mp3
#EXTINF:-1,Rádio AAC
http://example.com/stream.aac
#EXTINF:-1,Rádio Pls
http://example.com/playlist.pls
#EXTINF:-1,Rádio Icecast
http://example.com:9000/stream
"#;
    let parsed = parse_m3u(m3u);
    assert_eq!(parsed.len(), 5, "parser keeps all 5");
    assert_eq!(parsed[0].radio_format, Some(RadioFormat::Hls));
    assert_eq!(parsed[1].radio_format, Some(RadioFormat::Mp3));
    assert_eq!(parsed[2].radio_format, Some(RadioFormat::Aac));
    assert_eq!(parsed[3].radio_format, Some(RadioFormat::Playlist));
    assert_eq!(parsed[4].radio_format, Some(RadioFormat::Icecast));
}

#[test]
fn classify_url_table() {
    assert_eq!(classify_url("https://x/stream.m3u8"), RadioFormat::Hls);
    assert_eq!(classify_url("https://x/stream.M3U8?token=1"), RadioFormat::Hls);
    assert_eq!(classify_url("http://x/audio.mp3"), RadioFormat::Mp3);
    assert_eq!(classify_url("http://x/audio.aac"), RadioFormat::Aac);
    // Real .pls indirection (no Shoutcast `;` metadata flag).
    assert_eq!(classify_url("http://x/playlist.pls"), RadioFormat::Playlist);
    assert_eq!(classify_url("http://x/stream.m3u"), RadioFormat::Playlist);
    // Shoutcast metadata flags must not classify as Playlist — those URLs
    // serve audio bytes, not playlist files.
    assert_eq!(
        classify_url("http://centova.radios.pt:8495/;listen.pls"),
        RadioFormat::Icecast,
    );
    assert_eq!(
        classify_url("http://x:8000/;stream.nsv"),
        RadioFormat::Icecast,
    );
    // Streamtheworld redirect: no extension, but path contains `AAC` ⇒ Aac.
    assert_eq!(
        classify_url("https://21313.live.streamtheworld.com/RFMAAC"),
        RadioFormat::Aac,
    );
    // Plain port-based icecast — falls through to Icecast.
    assert_eq!(classify_url("http://centova.radios.pt:9476/"), RadioFormat::Icecast);
}

#[test]
fn ignores_blank_lines_and_comments_between_extinf_and_url() {
    // Real-world M3Us have leading #EXTM3U, blank lines, and stray
    // comments between EXTINF lines and URLs. Verify we tolerate them.
    let m3u = r#"#EXTM3U

#EXTINF:-1,Rádio Antena 1

# a stray comment
https://example.com/a1.m3u8

#EXTINF:-1,Rádio Antena 2
https://example.com/a2.m3u8
"#;
    let parsed = parse_m3u(m3u);
    assert_eq!(parsed.len(), 2);
    assert_eq!(parsed[0].name, "Antena 1");
    assert_eq!(parsed[1].name, "Antena 2");
}

#[test]
fn missing_url_skipped() {
    // EXTINF at end of file with no URL after → entry skipped, no panic.
    let m3u = r#"#EXTINF:-1,Orphan
"#;
    assert!(parse_m3u(m3u).is_empty());
}

#[test]
fn malformed_extinf_no_comma_skipped() {
    // Some upstreams emit broken EXTINF lines with no comma → skip.
    let m3u = r#"#EXTINF:-1 tvg-logo="x"
https://example.com/stream.m3u8
"#;
    assert!(parse_m3u(m3u).is_empty());
}

#[test]
fn double_space_in_name_collapses() {
    // activistpt's M3U has "Rádio  Antena 1" with two spaces — should
    // canonicalise to "Antena 1".
    let m3u = r#"#EXTINF:-1,Rádio  Antena 1
https://example.com/a1.m3u8
"#;
    let parsed = parse_m3u(m3u);
    assert_eq!(parsed[0].name, "Antena 1");
}

#[test]
fn neither_case_nor_query_changes_the_format() {
    for (url, format) in [
        ("http://h/Live.MP3", RadioFormat::Mp3),
        ("http://h/RFMAAC", RadioFormat::Aac),
        ("http://h/x.PLS", RadioFormat::Playlist),
        ("http://h:8000/\u{130}", RadioFormat::Icecast),
    ] {
        assert_eq!(classify_url(url), format);
        assert_eq!(classify_url(&url.to_lowercase()), format);
        assert_eq!(classify_url(&format!("{url}?f=.mp3&g=aac/x.pls")), format);
    }
    assert_eq!(classify_url("http://h/x.mp3?next=a.M3U8"), RadioFormat::Hls);
}
