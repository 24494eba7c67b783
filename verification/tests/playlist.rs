use iptv_proxy::playlist::{
    assemble, decode_segment_token, is_abuse_url, looks_like_placeholder_playlist, pick_first_uri_in_playlist, proxy_url,
    rewrite_playlist, segment_payload, upstream_ext, Piece, ResolverCache, RewriteCtx, SegmentError, SegmentToken,
};
use iptv_proxy::single::Single;

const HOUR: u64 = 3_600_000_000_000;

fn single(x: f32) -> Single {
    Single { bits: x.to_bits() }
}

fn ctx<'a>() -> RewriteCtx<'a> {
    RewriteCtx {
        channel_key: "rtp1",
        source_url: "http://up/live/u/p/7.m3u8",
        track_failures: true,
        upstream_host: Some("http://up"),
        client_has_dvb_safe: true,
    }
}

fn links(pieces: &[Piece]) -> Vec<&SegmentToken> {
    pieces.iter().filter_map(|p| if let Piece::Link(t) = p { Some(t) } else { None }).collect()
}

#[test]
fn references_and_uris_in_tags_go_through_the_server() {
    let body = "#EXTM3U\n#EXT-X-KEY:METHOD=AES-128,URI=\"key.bin\",IV=0\n#EXTINF:6.5,\nseg1.ts\n\n/abs/seg2.ts\n";
    let pieces = rewrite_playlist(body, "http://up/hls/list.m3u8?x=1", ctx());
    let found = links(&pieces);
    assert_eq!(found.len(), 3);
    assert_eq!(found[0].u, "http://up/hls/key.bin");
    assert_eq!(found[0].d, None);
    assert_eq!(found[1].u, "http://up/hls/seg1.ts");
    assert_eq!(found[1].d, Some(single(6.5)), "announced before it");
    assert_eq!(found[2].u, "http://up/abs/seg2.ts");
    assert_eq!(found[2].d, None, "used up");
    for t in &found {
        assert_eq!(t.c.as_deref(), Some("rtp1"));
        assert_eq!(t.p.as_deref(), Some("http://up/live/u/p/7.m3u8"));
        assert_eq!(t.h.as_deref(), Some("http://up"));
        assert!(t.dvb_safe);
        assert!(!t.probe);
    }
    let urls = vec!["K".to_string(), "A".to_string(), "B".to_string()];
    assert_eq!(
        assemble(&pieces, &urls).unwrap(),
        "#EXTM3U\n#EXT-X-KEY:METHOD=AES-128,URI=\"K\",IV=0\n#EXTINF:6.5,\nA\n\nB\n"
    );
    assert!(assemble(&pieces, &urls[..2]).is_none(), "a link without a URL");
}

#[test]
fn lines_that_lead_nowhere_stay_as_they_are() {
    let pieces = rewrite_playlist("#EXTINF:2,\nhttp://[bad\nok.ts\n", "http://up/l.m3u8", ctx());
    let found = links(&pieces);
    assert_eq!(found.len(), 1);
    assert_eq!(found[0].d, Some(single(2.0)), "the duration waits for a reference that works");
    assert_eq!(assemble(&pieces, &["X".to_string()]).unwrap(), "#EXTINF:2,\nhttp://[bad\nX\n");
}

#[test]
fn endings_are_those_of_the_path() {
    assert_eq!(upstream_ext("http://up/a/b.ts?x=1.mp4").as_deref(), Some("ts"));
    assert_eq!(upstream_ext("http://up/a/b.m3u8").as_deref(), Some("m3u8"));
    assert_eq!(upstream_ext("http://up/a/b"), None);
}

#[test]
fn segment_urls_come_back_with_or_without_a_query() {
    let payload = "{\"u\":\"http://up/a.ts\"}";
    for url in ["http://up/a.ts", "http://up/a.m4s", "http://up/a.m3u8", "http://up/a.aac", "http://up/a.mp3", "http://up/a"] {
        let link = proxy_url("http://me", url, payload);
        let token = link.strip_prefix("http://me/seg/").unwrap();
        assert_eq!(segment_payload(token).unwrap(), payload.as_bytes());
        assert_eq!(segment_payload(&format!("{token}?t=1")).unwrap(), payload.as_bytes());
    }
    assert!(proxy_url("http://me", "http://up/a", payload).ends_with(".ts"));
    assert_eq!(proxy_url("http://me//", "http://up/a", payload), proxy_url("http://me", "http://up/a", payload));
}

#[test]
fn bad_tokens_are_told_apart() {
    assert_eq!(segment_payload("!!!.ts").unwrap_err(), SegmentError::BadToken);
    assert_eq!(SegmentError::BadToken.message(), "bad segment token");
    let e = decode_segment_token(vec![0xff, 0xfe], None).unwrap_err();
    assert_eq!(e, SegmentError::BadText);
    assert_eq!(e.message(), "bad segment token (utf8)");
}

#[test]
fn bare_urls_are_tokens_too() {
    let t = decode_segment_token(b"http://up/x.ts".to_vec(), None).unwrap();
    assert_eq!(t.u, "http://up/x.ts");
    assert!(t.c.is_none() && t.p.is_none() && !t.probe && !t.dvb_safe);
    let empty = SegmentToken { u: String::new(), p: None, c: None, probe: true, d: None, h: None, dvb_safe: false };
    assert_eq!(decode_segment_token(b"raw".to_vec(), Some(empty)).unwrap().u, "raw");
}

#[test]
fn fillers_are_known_by_their_file() {
    assert!(looks_like_placeholder_playlist("#EXTM3U\n#EXTINF:5,\nblack.ts\n#EXT-X-ENDLIST\n"));
    assert!(looks_like_placeholder_playlist("#EXTM3U\nhttp://x/Black.ts\n#EXT-X-ENDLIST\n"));
    assert!(looks_like_placeholder_playlist("http://x/a/no_signal.ts?y=/z.ts\n#EXT-X-ENDLIST"));
    assert!(looks_like_placeholder_playlist("closed.ts#t\n#EXT-X-ENDLIST"));
    assert!(!looks_like_placeholder_playlist("#EXTM3U /black.ts\nhttp://x/blacklist.ts\n#EXT-X-ENDLIST\n"));
    assert!(!looks_like_placeholder_playlist("http://x/black.ts/1.ts\nhttp://x/1.ts?f=black.ts\n#EXT-X-ENDLIST\n"));
    assert!(!looks_like_placeholder_playlist("#EXTM3U\nhttp://x/black.ts\n"));
}

#[test]
fn abuse_pages_are_known_by_their_host() {
    assert!(is_abuse_url("https://cloudflare-terms-of-service-abuse.com/x"));
    assert!(is_abuse_url("https://my.abuse.example/x"));
    assert!(!is_abuse_url("https://example/abuse"));
    assert!(!is_abuse_url("abuse"));
}

#[test]
fn first_references_skip_tags_and_blanks() {
    assert_eq!(pick_first_uri_in_playlist("#EXTM3U\n\n  a.ts \nb.ts").as_deref(), Some("a.ts"));
    assert_eq!(pick_first_uri_in_playlist("#EXTM3U\n"), None);
}

#[test]
fn resolved_playlists_are_known_for_an_hour() {
    let mut cache = ResolverCache::new();
    assert!(cache.get("http://r/x.pls", 0).is_none());
    let found = cache.resolve("http://r/x.pls", "[playlist]\nFile1=http://r/audio\n", 5);
    assert_eq!(found.as_deref(), Some("http://r/audio"));
    assert_eq!(cache.get("http://r/x.pls", HOUR + 4).as_deref(), Some("http://r/audio"));
    assert!(cache.get("http://r/x.pls", HOUR + 5).is_none());
    assert!(cache.get("http://r/y.pls", 5).is_none());
    assert!(cache.resolve("http://r/y.pls", "nothing", 5).is_none());
    assert!(cache.get("http://r/y.pls", 5).is_none());
}
