use iptv_proxy::blacklist::Blacklist;
use iptv_proxy::codec::{crc32_mpeg2, StreamClassifier, VideoCodec, SYNC, TS_PACKET_LEN};
use iptv_proxy::config::BlacklistConfig;
use iptv_proxy::measured::PerPlayAccumulator;
use iptv_proxy::playlist::SegmentToken;
use iptv_proxy::segment::{
    handle_ts_segment, is_fine, mark_segment_failure, nested_ctx, segment_kind, take_aac, take_ts, SegmentKind,
};
use iptv_proxy::single::Single;
use iptv_proxy::upstream::{
    abuse_text, check_body, check_reply, check_segment, judge_audio, judge_playlist, playlist_fault_text, segment_target,
    CheckFault, PlaylistFault, SegmentCheck,
};
use iptv_proxy::validate::{Check, CheckStep, Stage};

const NOW: i128 = 1_778_700_000_000_000_000;

fn single(x: f32) -> Single {
    Single { bits: x.to_bits() }
}

fn blacklist() -> Blacklist {
    Blacklist::new(BlacklistConfig {
        host_fail_threshold: 1,
        host_ttl_secs: 600,
        cool_off_steps_secs: [60, 300, 1800, 21600],
        heartbeat_window_secs: 60,
        clean_play_reset_secs: 300,
    })
}

fn token(url: &str) -> SegmentToken {
    SegmentToken {
        u: url.to_string(),
        p: Some("http://up/live/u/p/7.m3u8".to_string()),
        c: Some("rtp1".to_string()),
        probe: false,
        d: Some(single(2.0)),
        h: Some("http://up".to_string()),
        dvb_safe: false,
    }
}

fn section(mut sec: Vec<u8>) -> Vec<u8> {
    let length = sec.len() + 4 - 3;
    sec[1] = 0xB0 | ((length >> 8) as u8 & 0x0F);
    sec[2] = length as u8;
    let crc = crc32_mpeg2(&sec);
    sec.extend_from_slice(&crc.to_be_bytes());
    sec
}

fn packet(pid: u16, start: bool, payload: &[u8]) -> Vec<u8> {
    let first = if start { 0x40 } else { 0 } | (pid >> 8) as u8;
    let mut p = vec![SYNC, first, pid as u8, 0x10];
    p.extend_from_slice(payload);
    p.resize(TS_PACKET_LEN, 0xFF);
    p
}

/// A transport stream with H.264 on one PID and subtitles on another.
fn stream_with_subtitles() -> Vec<u8> {
    let mut pat = vec![0x00];
    pat.extend(section(vec![0x00, 0, 0, 0, 1, 0xC1, 0, 0, 0, 1, 0xE0, 0x20]));
    let mut pmt = vec![0x00];
    pmt.extend(section(vec![
        0x02, 0, 0, 0, 1, 0xC1, 0, 0, 0xE0, 0x21, 0xF0, 0x00, 0x1B, 0xE0, 0x21, 0xF0, 0x00, 0x06, 0xE0, 0x22, 0xF0, 0x05,
        0x59, 0x03, b'p', b'o', b'r',
    ]));
    let mut v = packet(0, true, &pat);
    v.extend(packet(0x20, true, &pmt));
    v.extend(packet(0x21, true, &[0, 0, 1, 0xE0]));
    v.extend(packet(0x22, true, &[0, 0, 1, 0xBD]));
    v.extend(packet(0x21, false, &[9]));
    v
}

#[test]
fn statuses_below_four_hundred_are_fine() {
    assert!(is_fine(200) && is_fine(206) && is_fine(304));
    assert!(!is_fine(199) && !is_fine(400) && !is_fine(502));
}

#[test]
fn replies_are_told_by_type_and_path() {
    assert_eq!(segment_kind(&token("http://up/a.m3u8?x=1"), ""), SegmentKind::Playlist);
    assert_eq!(segment_kind(&token("http://up/a"), "Application/VND.Apple.MpegURL"), SegmentKind::Playlist);
    assert_eq!(segment_kind(&token("http://up/a.ts?x=1"), "application/octet-stream"), SegmentKind::Ts { stream_id: 7 });
    assert_eq!(segment_kind(&token("http://up/a"), "video/MP2T"), SegmentKind::Ts { stream_id: 7 });
    assert_eq!(segment_kind(&token("http://up/a.aac"), ""), SegmentKind::Aac { stream_id: 7 });
    assert_eq!(segment_kind(&token("http://up/a.m4a"), ""), SegmentKind::Aac { stream_id: 7 });
    assert_eq!(segment_kind(&token("http://up/key.bin"), ""), SegmentKind::Other);
    let mut orphan = token("http://up/a.ts");
    orphan.p = None;
    assert_eq!(segment_kind(&orphan, "video/mp2t"), SegmentKind::Other);
}

#[test]
fn playlists_within_playlists_carry_on_what_they_came_with() {
    let mut t = token("http://up/inner.m3u8");
    t.dvb_safe = true;
    let ctx = nested_ctx(&t);
    assert_eq!((ctx.channel_key, ctx.source_url), ("rtp1", "http://up/live/u/p/7.m3u8"));
    assert_eq!(ctx.upstream_host, Some("http://up"));
    assert!(ctx.track_failures && ctx.client_has_dvb_safe);
    t.p = None;
    t.probe = true;
    let ctx = nested_ctx(&t);
    assert_eq!(ctx.source_url, "http://up/inner.m3u8");
    assert!(!ctx.track_failures);
}

#[test]
fn failed_segments_count_against_segment_and_playlist() {
    let mut b = blacklist();
    let mut t = token("http://up/hls/a.ts");
    t.probe = true;
    mark_segment_failure(&t, &mut b, NOW);
    assert_eq!(b.per_url_count(), 0);
    t.probe = false;
    mark_segment_failure(&t, &mut b, NOW);
    assert_eq!(b.cool_off_penalty("http://up/hls/a.ts"), 1);
    assert_eq!(b.cool_off_penalty("http://up/live/u/p/7.m3u8"), 1);
}

#[test]
fn subtitles_are_taken_out_for_clients_that_trip_over_them() {
    let bytes = stream_with_subtitles();
    let mut classifier = StreamClassifier::new();
    let sent = handle_ts_segment(&mut classifier, 7, &bytes, false);
    assert!(sent.len() % TS_PACKET_LEN == 0);
    let pids: Vec<u16> = sent.chunks(TS_PACKET_LEN).map(|p| (p[1] as u16 & 0x1F) << 8 | p[2] as u16).collect();
    assert!(!pids.contains(&0x22));
    assert!(pids.contains(&0x21));
    let known = classifier.get(7).unwrap();
    assert_eq!(known.video_codec, Some(VideoCodec::H264));
    assert_eq!(known.subtitle_pids, vec![0x22]);
    assert_eq!(handle_ts_segment(&mut classifier, 7, &bytes, true), bytes, "others get all");
    assert_eq!(handle_ts_segment(&mut classifier, 8, &[1, 2, 3], false), vec![1, 2, 3]);
    assert!(classifier.get(8).is_none());
    // Without tables of its own, a later segment goes by what was learnt.
    let late = packet(0x22, true, &[0]);
    assert_ne!(handle_ts_segment(&mut classifier, 7, &late, false), late);
}

#[test]
fn segments_tell_of_the_play() {
    let bytes = stream_with_subtitles();
    let mut classifier = StreamClassifier::new();
    let mut plays = PerPlayAccumulator::new();
    let t = token("http://up/a.ts");
    take_ts(&mut classifier, &mut plays, &t, 7, &bytes, 5);
    let seen = plays.peek(7, "http://up");
    assert_eq!(seen.bitrate_ewma_kbps, Some(single((bytes.len() as f64 * 8.0 / 1000.0 / 2.0) as f32)));
    assert_eq!(seen.codec.as_deref(), Some("h264"));
    assert_eq!(seen.dvb_unsafe, Some(false));
    assert_eq!(seen.last_activity, Some(5));
}

#[test]
fn probes_are_not_measured() {
    let bytes = stream_with_subtitles();
    let mut classifier = StreamClassifier::new();
    let mut plays = PerPlayAccumulator::new();
    let mut t = token("http://up/a.ts");
    t.probe = true;
    take_ts(&mut classifier, &mut plays, &t, 7, &bytes, 5);
    assert_eq!(plays.peek(7, "http://up").last_activity, None);
    assert!(classifier.get(7).is_some());
    take_aac(&mut plays, &t, 7, &[0xFF, 0xF1, 0x50, 0x80, 0x10, 0x1F, 0xFC], 5);
    assert_eq!(plays.peek(7, "http://up").last_activity, None);
}

#[test]
fn sound_tells_of_the_play() {
    // 44.1 kHz, two channels.
    let mut bytes = vec![0xFF, 0xF1, 0x50, 0x80, 0x10, 0x1F, 0xFC];
    bytes.resize(16000, 0);
    let mut plays = PerPlayAccumulator::new();
    take_aac(&mut plays, &token("http://up/a.aac"), 9, &bytes, 5);
    let heard = plays.peek(9, "http://up");
    assert_eq!(heard.sample_rate_hz, Some(44100));
    assert_eq!(heard.audio_channels, Some(2));
    assert_eq!(heard.bitrate_ewma_kbps, Some(single(64.0)));
}

// --- Replies -------------------------------------------------------------------------------------

#[test]
fn playlists_are_told_from_other_replies() {
    let live = "#EXTM3U\n#EXTINF:2,\na.ts\n#EXTINF:2,\nb.ts\n#EXTINF:2,\nc.ts\n";
    assert_eq!(judge_playlist("", live), None);
    assert_eq!(judge_playlist("text/html", "<html>"), Some(PlaylistFault::NotPlaylist));
    assert_eq!(judge_playlist("application/vnd.apple.mpegurl", "a.ts"), None);
    assert_eq!(judge_playlist("", "#EXTM3U\n/black.ts\n#EXT-X-ENDLIST\n"), Some(PlaylistFault::Placeholder));
    let film = format!("{live}d.ts\n#EXT-X-ENDLIST\n");
    assert_eq!(judge_playlist("", &film), None);
    let filler = film.replace("d.ts", "closed.ts");
    assert_eq!(judge_playlist("", &filler), Some(PlaylistFault::Placeholder));
}

#[test]
fn faults_have_their_words() {
    let b: Vec<u8> = (0..20).collect();
    assert_eq!(
        playlist_fault_text(PlaylistFault::NotPlaylist, "text/html", &b),
        "upstream did not return a playlist (content-type=text/html, first bytes=Some([0, 1, 2, 3, 4, 5, 6, 7, 8, 9, 10, 11, 12, 13, 14, 15]))"
    );
    assert!(playlist_fault_text(PlaylistFault::NotPlaylist, "", &b[..15]).ends_with("first bytes=None)"));
    assert!(playlist_fault_text(PlaylistFault::Placeholder, "", &b).contains("placeholder"));
    assert_eq!(abuse_text("http://x"), "upstream redirected to abuse page: http://x");
}

#[test]
fn audio_is_told_by_its_type() {
    for t in ["Audio/MPEG", "audio/aacp", "application/ogg", "", "application/octet-stream", "video/mpeg"] {
        assert!(judge_audio(t).is_ok(), "{t}");
    }
    assert_eq!(judge_audio("Text/HTML").unwrap_err(), "non-audio content-type: text/html");
}

#[test]
fn checks_name_their_faults() {
    assert_eq!(check_reply(404, "http://up/x"), Some(CheckFault::BadStatus));
    assert_eq!(check_reply(200, "http://abuse.example/x"), Some(CheckFault::Abuse));
    assert_eq!(check_reply(200, "http://up/x"), None);
    assert_eq!(check_body(b"<html>"), Some(CheckFault::NotPlaylist));
    assert_eq!(check_body(b"#EXTM3U\n/offline.ts\n#EXT-X-ENDLIST"), Some(CheckFault::Placeholder));
    assert_eq!(check_body(b"#EXTM3U\noffline.ts\n#EXT-X-ENDLIST"), Some(CheckFault::Placeholder));
    assert_eq!(check_body(b"#EXTM3U\na.ts"), None);
    assert_eq!(segment_target("http://up/l.m3u8", b"#EXTM3U\na.ts").unwrap(), "http://up/a.ts");
    assert_eq!(segment_target("http://up/l.m3u8", b"#EXTM3U\n").unwrap_err(), CheckFault::NoReference);
    assert_eq!(segment_target("http://up/l.m3u8", &[0xff, 0xfe]).unwrap_err(), CheckFault::NotText);
    assert_eq!(segment_target("http://up/l.m3u8", b"http://[bad").unwrap_err(), CheckFault::NotResolved);
    assert_eq!(check_segment(200, "http://up/a.ts", "video/mp2t"), SegmentCheck::Fine);
    assert_eq!(check_segment(200, "http://up/a.m3u8?x", ""), SegmentCheck::Nested);
    assert_eq!(check_segment(500, "http://up/a.ts", ""), SegmentCheck::Fault(CheckFault::BadStatus));
    assert_eq!(check_segment(304, "http://up/a.ts", ""), SegmentCheck::Fault(CheckFault::BadStatus));
}

#[test]
fn checks_go_down_to_the_first_segment() {
    let mut check = Check::start("http://up/live/u/p/7.m3u8".to_string());
    assert!(matches!(check.on_head(200, "http://cdn/master.m3u8", ""), CheckStep::ReadBody));
    let step = check.on_body(b"#EXTM3U\nvariant.m3u8\n");
    assert!(matches!(step, CheckStep::Fetch { ref url } if url == "http://cdn/variant.m3u8"));
    assert_eq!(check.stage, Stage::Segment);
    assert!(matches!(check.on_head(200, "http://cdn/variant.m3u8", ""), CheckStep::ReadBody));
    let step = check.on_body(b"#EXTM3U\nseg.ts\n");
    assert!(matches!(step, CheckStep::Fetch { ref url } if url == "http://cdn/seg.ts"));
    assert!(matches!(check.on_head(206, "http://cdn/seg.ts", ""), CheckStep::ReadBody));
    assert!(matches!(check.on_body(&[0x47]), CheckStep::Passed));
}

#[test]
fn segments_pass_by_their_bytes() {
    for (status, bytes) in [(200u16, &[0x47u8, 0][..]), (200, &[][..]), (302, &[0x47][..])] {
        let mut check = Check::start("http://up/7.m3u8".to_string());
        assert!(matches!(check.on_head(200, "http://up/7.m3u8", ""), CheckStep::ReadBody));
        assert!(matches!(check.on_body(b"#EXTM3U\na.ts\n"), CheckStep::Fetch { .. }));
        let head = check.on_head(status, "http://up/a.ts", "video/mp2t");
        if status == 302 {
            assert!(matches!(head, CheckStep::Failed { fault: CheckFault::BadStatus }));
            continue;
        }
        assert!(matches!(head, CheckStep::ReadBody));
        assert_eq!(check.stage, Stage::Inner);
        match check.on_body(bytes) {
            CheckStep::Passed => assert!(!bytes.is_empty()),
            CheckStep::Failed { fault } => {
                assert!(bytes.is_empty());
                assert_eq!(fault, CheckFault::Empty);
            }
            other => panic!("{:?}", other),
        }
    }
}

#[test]
fn checks_that_fail_count_against_the_url() {
    let mut check = Check::start("http://up/live/u/p/7.m3u8".to_string());
    let step = check.on_head(403, "http://up/live/u/p/7.m3u8", "");
    assert!(matches!(step, CheckStep::Failed { fault: CheckFault::BadStatus }));
    let mut b = blacklist();
    check.note_failed(&mut b, NOW);
    assert_eq!(b.cool_off_penalty("http://up/live/u/p/7.m3u8"), 1);
}
