use base64::Engine;
use iptv_proxy::blacklist::{Blacklist, FailureKind};
use iptv_proxy::candidates::{apply_force_url, pick_validation_candidates, validation_plan};
use iptv_proxy::canonical::{CanonicalChannel, CanonicalSource};
use iptv_proxy::catchup::{parse_catchup_params_at, CatchupError, CatchupRequest, PlayParams};
use iptv_proxy::config::BlacklistConfig;
use iptv_proxy::measured::{MeasuredStore, Sample, SampleSource};
use iptv_proxy::play_log::{AttemptOutcome, PlayAttempt, PlayEvent};
use iptv_proxy::playlist::{
    decode_segment_token, parse_pls_or_m3u, proxy_url, segment_payload, RewriteCtx, SegmentToken,
};
use iptv_proxy::proxy::{
    audio_channels_bucket, audio_kbps_bucket, audio_sample_rate_bucket, bpp_bucket, client_has_cap, codec_rank, fps_rank,
    hdr_rank, lkg_bonus, parse_caps_list, sanitize_pid, source_rank_key_radio, source_rank_key_tv,
    stream_id_from_source_url, success_bucket, Candidate,
};
use iptv_proxy::single::Single;
use iptv_proxy::xtream::ChannelKind;
use serde_json::Value;

const SECOND: i128 = 1_000_000_000;
const NOW: i128 = 1_778_700_000 * SECOND;

fn single(x: f32) -> Single {
    Single { bits: x.to_bits() }
}

#[test]
fn parse_pls_extracts_first_file_entry() {
    let body = "[playlist]\nNumberOfEntries=1\nFile1=http://stream.example/audio.mp3\nLength1=-1\nVersion=2\n";
    assert_eq!(parse_pls_or_m3u(body).as_deref(), Some("http://stream.example/audio.mp3"));
}

#[test]
fn parse_m3u_extracts_first_http_url() {
    let body = "#EXTM3U\n# comment\nhttp://stream.example/audio.aac\nhttp://second/url\n";
    assert_eq!(parse_pls_or_m3u(body).as_deref(), Some("http://stream.example/audio.aac"));
}

#[test]
fn parse_pls_returns_none_on_garbage() {
    assert!(parse_pls_or_m3u("hello world\n").is_none());
}

fn p(at: Option<&str>, from: Option<&str>, dur: Option<&str>) -> PlayParams {
    PlayParams {
        at: at.map(str::to_string),
        from: from.map(str::to_string),
        duration: dur.map(str::to_string),
        probe: false,
        pid: None,
        caps: None,
        force_url: None,
        probe_stream_id: None,
    }
}

fn nanos(s: &str) -> i128 {
    time::OffsetDateTime::parse(s, &time::format_description::well_known::Rfc3339).unwrap().unix_timestamp_nanos()
}

fn parse_at_fixed(params: &PlayParams, now_rfc: &str) -> Result<Option<CatchupRequest>, CatchupError> {
    parse_catchup_params_at(params, nanos(now_rfc))
}

fn hour_and_minute(t: i128) -> (i128, i128) {
    (t / SECOND / 3600 % 24, t / SECOND / 60 % 60)
}

#[test]
fn empty_params_means_live() {
    assert!(parse_catchup_params_at(&p(None, None, None), NOW).unwrap().is_none());
}

#[test]
fn rejects_both_at_and_from() {
    let r = parse_at_fixed(&p(Some("2026-05-12T20:00:00Z"), Some("600"), None), "2026-05-13T00:00:00Z");
    let e = r.unwrap_err();
    assert_eq!(e.status(), 400);
    assert_eq!(e, CatchupError::BothStarts);
    assert_eq!(e.message(), "use either at or from, not both");
}

#[test]
fn rejects_naive_at() {
    let r = parse_at_fixed(&p(Some("2026-05-12T20:00:00"), None, None), "2026-05-13T00:00:00Z");
    let e = r.unwrap_err();
    assert_eq!(e.status(), 400);
    assert_eq!(e, CatchupError::BadAt);
    assert_eq!(e.message(), "at must be RFC3339 with offset (e.g. 2026-05-12T20:00:00Z)");
}

#[test]
fn rejects_future_at() {
    let r = parse_at_fixed(&p(Some("2030-01-01T00:00:00Z"), None, None), "2026-05-13T00:00:00Z");
    let e = r.unwrap_err();
    assert_eq!(e.status(), 400);
    assert_eq!(e, CatchupError::NotPast);
}

#[test]
fn rejects_from_zero_as_not_past() {
    let r = parse_at_fixed(&p(None, Some("0"), None), "2026-05-13T00:00:00Z");
    assert_eq!(r.unwrap_err().status(), 400);
}

#[test]
fn rejects_from_negative() {
    let r = parse_at_fixed(&p(None, Some("-5"), None), "2026-05-13T00:00:00Z");
    let e = r.unwrap_err();
    assert_eq!(e.status(), 400);
    assert_eq!(e, CatchupError::BadFrom);
}

#[test]
fn rejects_from_non_integer() {
    let r = parse_at_fixed(&p(None, Some("ten"), None), "2026-05-13T00:00:00Z");
    assert_eq!(r.unwrap_err().status(), 400);
}

#[test]
fn rejects_zero_duration() {
    let r = parse_at_fixed(&p(Some("2026-05-12T20:00:00Z"), None, Some("0")), "2026-05-13T00:00:00Z");
    let e = r.unwrap_err();
    assert_eq!(e.status(), 400);
    assert_eq!(e, CatchupError::BadDuration);
}

#[test]
fn rejects_duration_alone() {
    let r = parse_at_fixed(&p(None, None, Some("60")), "2026-05-13T00:00:00Z");
    let e = r.unwrap_err();
    assert_eq!(e.status(), 400);
    assert_eq!(e, CatchupError::NoStart);
}

#[test]
fn at_parses_into_utc() {
    let r = parse_at_fixed(&p(Some("2026-05-12T22:00:00+02:00"), None, None), "2026-05-13T00:00:00Z")
        .unwrap()
        .unwrap();
    assert_eq!(hour_and_minute(r.start), (20, 0));
    assert_eq!(r.start, nanos("2026-05-12T20:00:00Z"));
    assert!(r.explicit_duration_min.is_none());
}

#[test]
fn from_subtracts_seconds() {
    let r = parse_at_fixed(&p(None, Some("600"), None), "2026-05-13T00:00:00Z").unwrap().unwrap();
    assert_eq!(hour_and_minute(r.start), (23, 50));
}

#[test]
fn explicit_duration_carried() {
    let r = parse_at_fixed(&p(Some("2026-05-12T20:00:00Z"), None, Some("180")), "2026-05-13T00:00:00Z")
        .unwrap()
        .unwrap();
    assert_eq!(r.explicit_duration_min, Some(180));
}

fn source(stream_id: u64, name: &str, score: i32, tv_archive: bool, days: Option<u32>) -> CanonicalSource {
    CanonicalSource {
        stream_id,
        name: name.into(),
        score,
        logo: None,
        tv_archive,
        tv_archive_duration: days,
        direct_source: None,
        origin_host: String::new(),
        radio_format: None,
    }
}

#[test]
fn pick_archive_source_prefers_highest_score() {
    let ch = CanonicalChannel {
        key: "x".into(),
        name: "X".into(),
        kind: ChannelKind::Tv,
        sources: vec![
            source(1, "HD", 15, true, Some(3)),
            source(2, "4K", 30, true, Some(3)),
            source(3, "RAW", 40, false, None),
        ],
    };
    let picked = ch.pick_archive_source().unwrap();
    assert_eq!(picked.stream_id, 2);
}

#[test]
fn pick_archive_source_returns_none_when_no_archive() {
    let ch = CanonicalChannel {
        key: "x".into(),
        name: "X".into(),
        kind: ChannelKind::Tv,
        sources: vec![source(1, "RAW", 40, false, None)],
    };
    assert!(ch.pick_archive_source().is_none());
}

fn ctx<'a>(ch: &'a str, src: &'a str, host: Option<&'a str>, track: bool, dvb_safe: bool) -> RewriteCtx<'a> {
    RewriteCtx {
        channel_key: ch,
        source_url: src,
        track_failures: track,
        upstream_host: host,
        client_has_dvb_safe: dvb_safe,
    }
}

fn payload(t: &SegmentToken) -> String {
    let mut m = serde_json::Map::new();
    m.insert("u".into(), Value::from(t.u.clone()));
    if let Some(x) = &t.p {
        m.insert("p".into(), Value::from(x.clone()));
    }
    if let Some(x) = &t.c {
        m.insert("c".into(), Value::from(x.clone()));
    }
    if t.probe {
        m.insert("probe".into(), Value::from(true));
    }
    if let Some(d) = t.d {
        m.insert("d".into(), Value::from(f32::from_bits(d.bits)));
    }
    if let Some(x) = &t.h {
        m.insert("h".into(), Value::from(x.clone()));
    }
    if t.dvb_safe {
        m.insert("s".into(), Value::from(true));
    }
    Value::Object(m).to_string()
}

fn read(bytes: &[u8]) -> Option<SegmentToken> {
    let v: Value = serde_json::from_slice(bytes).ok()?;
    let text = |k: &str| v.get(k).and_then(Value::as_str).map(str::to_string);
    Some(SegmentToken {
        u: text("u")?,
        p: text("p"),
        c: text("c"),
        probe: v.get("probe").and_then(Value::as_bool).unwrap_or(false),
        d: v.get("d").and_then(Value::as_f64).map(|d| single(d as f32)),
        h: text("h"),
        dvb_safe: v.get("s").and_then(Value::as_bool).unwrap_or(false),
    })
}

fn link(absolute: &str, duration: Option<Single>, ctx: &RewriteCtx<'_>) -> String {
    let token = ctx.token_for(absolute.to_string(), duration);
    proxy_url("https://iptv.example.test", absolute, &payload(&token))
}

fn decode(token: &str) -> SegmentToken {
    let bytes = segment_payload(token).unwrap();
    let parsed = read(&bytes);
    decode_segment_token(bytes, parsed).unwrap()
}

#[test]
fn segment_token_marks_probe_requests_non_mutating() {
    let url = link(
        "https://upstream.example/chunklist.m3u8",
        None,
        &ctx("antena1", "https://upstream.example/master.m3u8", None, false, false),
    );
    let token = url.rsplit('/').next().unwrap();
    let decoded = decode(token);
    assert!(decoded.probe);
    assert_eq!(decoded.u, "https://upstream.example/chunklist.m3u8");
    assert_eq!(decoded.p.as_deref(), Some("https://upstream.example/master.m3u8"));
    assert_eq!(decoded.c.as_deref(), Some("antena1"));
    assert!(!decoded.dvb_safe, "probes don't claim dvb_safe");
}

#[test]
fn segment_token_tracks_failures_for_regular_playback() {
    let url = link(
        "https://upstream.example/seg.ts",
        Some(single(5.0)),
        &ctx("rtp1", "https://upstream.example/live.m3u8", Some("http://cf.example"), true, false),
    );
    let token = url.rsplit('/').next().unwrap();
    let decoded = decode(token);
    assert!(!decoded.probe);
    assert_eq!(decoded.u, "https://upstream.example/seg.ts");
    assert_eq!(decoded.d, Some(single(5.0)));
    assert_eq!(decoded.h.as_deref(), Some("http://cf.example"));
    assert!(!decoded.dvb_safe);
}

#[test]
fn segment_token_round_trip_includes_dvb_safe() {
    let url = link(
        "https://upstream.example/seg.ts",
        Some(single(5.0)),
        &ctx("rtp1", "https://upstream.example/live.m3u8", Some("http://cf.example"), true, true),
    );
    let token = url.rsplit('/').next().unwrap();
    assert!(decode(token).dvb_safe);
}

#[test]
fn legacy_segment_token_decodes_to_dvb_safe_false() {
    let legacy = base64::engine::general_purpose::URL_SAFE_NO_PAD.encode(b"https://upstream.example/seg.ts");
    let decoded = decode(&legacy);
    assert_eq!(decoded.u, "https://upstream.example/seg.ts");
    assert!(!decoded.dvb_safe);
    assert!(!decoded.probe);
}

fn fresh_blacklist() -> Blacklist {
    Blacklist::new(BlacklistConfig {
        host_fail_threshold: 4,
        host_ttl_secs: 3600,
        cool_off_steps_secs: [60, 300, 1800, 21600],
        heartbeat_window_secs: 60,
        clean_play_reset_secs: 300,
    })
}

#[test]
fn tv_rank_key_cool_off_dominates_quality() {
    let mut bl = fresh_blacklist();
    let m = MeasuredStore::new();
    let log: Vec<PlayEvent> = Vec::new();
    for _ in 0..3 {
        bl.note_failure("http://cool/live/u/p/2.m3u8", FailureKind::ServerSide, NOW);
    }
    let key_a =
        source_rank_key_tv("rtp1", 1, "http://fresh/live/u/p/1.m3u8", "http://fresh", &m, &bl, &log, NOW);
    let key_b = source_rank_key_tv("rtp1", 2, "http://cool/live/u/p/2.m3u8", "http://cool", &m, &bl, &log, NOW);
    assert!(key_a > key_b, "fresh unmeasured beats cool-off-3 measured");
}

#[test]
fn tv_rank_key_lkg_bonus_breaks_quality_tie() {
    let mut bl = fresh_blacklist();
    bl.note_url_succeeded("rtp1", "http://lkg/live/u/p/1.m3u8", NOW);
    let m = MeasuredStore::new();
    let log: Vec<PlayEvent> = Vec::new();
    let lkg_key = source_rank_key_tv("rtp1", 1, "http://lkg/live/u/p/1.m3u8", "http://lkg", &m, &bl, &log, NOW);
    let other_key =
        source_rank_key_tv("rtp1", 2, "http://other/live/u/p/2.m3u8", "http://other", &m, &bl, &log, NOW);
    assert!(lkg_key > other_key);
}

#[test]
fn lkg_bonus_decays_with_age() {
    let mut bl = fresh_blacklist();
    bl.note_url_succeeded("rtp1", "http://a", NOW);
    assert_eq!(lkg_bonus("rtp1", "http://a", &bl, NOW), 3, "fresh LKG → tier 3");
    assert_eq!(lkg_bonus("rtp1", "http://b", &bl, NOW), 0);
    assert_eq!(lkg_bonus("missing", "http://a", &bl, NOW), 0);
    assert_eq!(lkg_bonus("rtp1", "http://a", &bl, NOW + 3599 * SECOND), 3);
    assert_eq!(lkg_bonus("rtp1", "http://a", &bl, NOW + 3600 * SECOND), 2);
    assert_eq!(lkg_bonus("rtp1", "http://a", &bl, NOW + 6 * 3600 * SECOND), 1);
    assert_eq!(lkg_bonus("rtp1", "http://a", &bl, NOW + 24 * 3600 * SECOND), 0);
}

fn candidate(url: &str, host: &str, stream_id: u64) -> Candidate {
    Candidate { url: url.into(), host: host.into(), stream_id }
}

fn mock_candidates() -> Vec<Candidate> {
    vec![
        candidate("http://a/live/u/p/1.m3u8", "http://a", 1),
        candidate("http://b/live/u/p/1.m3u8", "http://b", 1),
        candidate("http://c/live/u/p/1.m3u8", "http://c", 1),
    ]
}

fn b64url(s: &str) -> String {
    base64::engine::general_purpose::URL_SAFE_NO_PAD.encode(s.as_bytes())
}

#[test]
fn force_url_promotes_matching_candidate_to_pos0() {
    let mut cands = mock_candidates();
    let url = "http://c/live/u/p/1.m3u8";
    let chosen = apply_force_url(&mut cands, &b64url(url)).expect("promote ok");
    assert_eq!(chosen, url);
    assert_eq!(cands[0].url, url);
    assert_eq!(cands[1].url, "http://a/live/u/p/1.m3u8");
    assert_eq!(cands[2].url, "http://b/live/u/p/1.m3u8");
}

#[test]
fn force_url_keeps_pos0_when_already_first() {
    let mut cands = mock_candidates();
    let url = cands[0].url.clone();
    apply_force_url(&mut cands, &b64url(&url)).expect("ok");
    assert_eq!(cands[0].url, url);
}

#[test]
fn force_url_rejects_when_url_not_in_set() {
    let mut cands = mock_candidates();
    let err = apply_force_url(&mut cands, &b64url("http://intruder/live/u/p/99.m3u8"));
    assert!(err.is_err(), "URL not in current set must be rejected (404)");
    assert_eq!(cands[0].url, "http://a/live/u/p/1.m3u8");
}

#[test]
fn force_url_rejects_malformed_base64() {
    let mut cands = mock_candidates();
    assert!(apply_force_url(&mut cands, "@@@not-base64@@@").is_err());
}

#[test]
fn force_url_rejects_non_utf8_payload() {
    let mut cands = mock_candidates();
    let bad = base64::engine::general_purpose::URL_SAFE_NO_PAD.encode([0xff, 0xfe, 0xfd]);
    assert!(apply_force_url(&mut cands, &bad).is_err());
}

#[test]
fn opportunistic_validation_picks_siblings_without_consulting_cool_off() {
    let cands = vec![
        candidate("http://fresh-served/a.m3u8", "http://fresh-served", 1),
        candidate("http://fresh-sib/a.m3u8", "http://fresh-sib", 1),
        candidate("http://cool-sib/a.m3u8", "http://cool-sib", 1),
    ];
    let picked = pick_validation_candidates(&cands, 0, 2);
    assert_eq!(picked.len(), 2);
    assert_eq!(picked[0].url, "http://fresh-sib/a.m3u8");
    assert_eq!(picked[1].url, "http://cool-sib/a.m3u8");
}

#[test]
fn opportunistic_validation_take_cap_respected() {
    let cands: Vec<Candidate> =
        (0..5).map(|i| candidate(&format!("http://h{i}/a.m3u8"), &format!("http://h{i}"), 1)).collect();
    let picked = pick_validation_candidates(&cands, 2, 2);
    assert_eq!(picked.len(), 2);
    assert!(!picked.iter().any(|c| c.host == "http://h2"));
}

#[test]
fn nothing_is_checked_behind_the_last_candidate() {
    let cands = mock_candidates();
    assert_eq!(validation_plan(&cands, 2, 5).len(), 0);
    assert_eq!(validation_plan(&cands, 0, 0).len(), 0);
    assert_eq!(validation_plan(&cands, 1, 5).len(), 2);
    assert_eq!(validation_plan(&cands, usize::MAX, 5).len(), 0);
}

#[test]
fn force_url_works_against_radio_direct_source_candidates() {
    let mut cands = vec![
        candidate("http://radio-a/aac", "http://radio-a", 100),
        candidate("http://radio-b/aac", "http://radio-b", 101),
    ];
    let chosen = apply_force_url(&mut cands, &b64url("http://radio-b/aac")).expect("promote ok");
    assert_eq!(chosen, "http://radio-b/aac");
    assert_eq!(cands[0].url, "http://radio-b/aac");
    assert!(apply_force_url(&mut cands, &b64url("http://other-radio/aac")).is_err());
}

#[test]
fn radio_rank_key_shape_matches_plan() {
    let bl = fresh_blacklist();
    let m = MeasuredStore::new();
    let log: Vec<PlayEvent> = Vec::new();
    let k = source_rank_key_radio("antena1", 1, "http://r/a.m3u8", "http://r", &m, &bl, &log, NOW);
    assert_eq!(k.0, 0);
    assert_eq!(k.1, 0);
    assert_eq!(k.2, 0);
    assert_eq!(k.3, 5);
    assert_eq!(k.5, 0);
    assert_eq!(k.6, 0);
    assert_eq!(k.7, 0);
}

fn audio(kbps: u32) -> Sample {
    Sample {
        at: NOW,
        source: SampleSource::Sweep,
        width: 0,
        height: 0,
        codec: Some("aac".into()),
        pix_fmt: None,
        color_transfer: None,
        framerate: None,
        bitrate_kbps: Some(kbps),
        dvb_unsafe: None,
        sample_rate_hz: Some(44100),
        audio_channels: Some(2),
        h264_excess_refs: None,
    }
}

#[test]
fn radio_rank_higher_kbps_wins_when_other_dims_equal() {
    let bl = fresh_blacklist();
    let mut m = MeasuredStore::new();
    let log: Vec<PlayEvent> = Vec::new();
    m.push(1, "http://lo", audio(96));
    m.push(2, "http://mid", audio(192));
    m.push(3, "http://hi", audio(320));
    let lo = source_rank_key_radio("ch", 1, "http://lo/a.m3u8", "http://lo", &m, &bl, &log, NOW);
    let mid = source_rank_key_radio("ch", 2, "http://mid/a.m3u8", "http://mid", &m, &bl, &log, NOW);
    let hi = source_rank_key_radio("ch", 3, "http://hi/a.m3u8", "http://hi", &m, &bl, &log, NOW);
    assert!(hi > mid && mid > lo, "kbps bucket dominates within radio sort");
}

#[test]
fn audio_bucket_helpers_table() {
    assert_eq!(audio_kbps_bucket(Some(320)), 4);
    assert_eq!(audio_kbps_bucket(Some(192)), 3);
    assert_eq!(audio_kbps_bucket(Some(128)), 2);
    assert_eq!(audio_kbps_bucket(Some(64)), 1);
    assert_eq!(audio_kbps_bucket(Some(48)), 0);
    assert_eq!(audio_kbps_bucket(None), 0);
    assert_eq!(audio_sample_rate_bucket(Some(48000)), 3);
    assert_eq!(audio_sample_rate_bucket(Some(44100)), 2);
    assert_eq!(audio_sample_rate_bucket(Some(32000)), 1);
    assert_eq!(audio_sample_rate_bucket(Some(22050)), 0);
    assert_eq!(audio_channels_bucket(Some(2)), 2);
    assert_eq!(audio_channels_bucket(Some(1)), 1);
    assert_eq!(audio_channels_bucket(Some(0)), 0);
    assert_eq!(audio_channels_bucket(None), 0);
}

fn picture(codec: &str, pix_fmt: &str, transfer: &str, w: u32, h: u32, kbps: u32, fps: f32) -> Sample {
    Sample {
        width: w,
        height: h,
        codec: Some(codec.into()),
        pix_fmt: Some(pix_fmt.into()),
        color_transfer: Some(transfer.into()),
        framerate: Some(single(fps)),
        sample_rate_hz: None,
        audio_channels: None,
        ..audio(kbps)
    }
}

#[test]
fn measured_pictures_fill_the_tail_of_the_key() {
    let bl = fresh_blacklist();
    let mut m = MeasuredStore::new();
    m.push(1, "http://h", picture("hevc", "yuv420p10le", "smpte2084", 1920, 1080, 6300, 50.0));
    let k = source_rank_key_tv("c", 1, "http://h/live/u/p/1.m3u8", "http://h", &m, &bl, &[], NOW);
    assert_eq!(k, (0, 0, 1, 5, 0, 2, 4, 1920 * 1080, 3, 2, 6300));
}

#[test]
fn picture_ranks_have_their_steps() {
    let s = |t: &str| Some(t.to_string());
    assert_eq!(hdr_rank(&s("yuv420p10le"), &s("bt709")), 1);
    assert_eq!(hdr_rank(&s("yuv420p"), &s("arib-std-b67")), 2);
    assert_eq!(hdr_rank(&s("yuv420p"), &None), 0);
    assert_eq!(codec_rank(&s("av1")), 4);
    assert_eq!(codec_rank(&s("h265")), 3);
    assert_eq!(codec_rank(&s("h264")), 2);
    assert_eq!(codec_rank(&s("mpeg2video")), 1);
    assert_eq!(codec_rank(&None), 0);
    assert_eq!(fps_rank(Some(single(48.0))), 2);
    assert_eq!(fps_rank(Some(single(24000.0 / 1001.0))), 0);
    assert_eq!(fps_rank(Some(single(25.0))), 1);
    assert_eq!(fps_rank(Some(single(959999999.0 / 40000000.0))), 1);
    assert_eq!(fps_rank(Some(single(23.999998))), 0);
    assert_eq!(fps_rank(Some(single(47.999996))), 1);
    assert_eq!(fps_rank(Some(single(f32::INFINITY))), 2);
    assert_eq!(fps_rank(Some(single(f32::NAN))), 0);
    assert_eq!(fps_rank(Some(single(-50.0))), 0);
    assert_eq!(fps_rank(None), 0);
    // 1000 thousand pixels: as many hundredths as tens of kilobits.
    assert_eq!(bpp_bucket(Some(3000), 1000, 1000), 4);
    assert_eq!(bpp_bucket(Some(2999), 1000, 1000), 3);
    assert_eq!(bpp_bucket(Some(1000), 1000, 1000), 2);
    assert_eq!(bpp_bucket(Some(500), 1000, 1000), 1);
    assert_eq!(bpp_bucket(Some(499), 1000, 1000), 0);
    assert_eq!(bpp_bucket(None, 1000, 1000), -1);
    assert_eq!(bpp_bucket(Some(500), 30, 30), -1);
}

fn play(outcomes: Vec<AttemptOutcome>) -> PlayEvent {
    PlayEvent {
        id: "1".into(),
        started: NOW,
        channel: "c".into(),
        catchup: false,
        total_ms: 0,
        candidates_total: 1,
        succeeded: true,
        error: None,
        attempts: outcomes
            .into_iter()
            .map(|outcome| PlayAttempt {
                host: "http://h".into(),
                url: "http://h/live/u/p/1.m3u8".into(),
                elapsed_ms: 1,
                outcome,
            })
            .collect(),
    }
}

#[test]
fn success_weighs_the_latest_plays_most() {
    assert_eq!(success_bucket(1, "http://h", &[]), 5);
    let good = || play(vec![AttemptOutcome::Played]);
    let bad = || play(vec![AttemptOutcome::Timeout]);
    assert_eq!(success_bucket(1, "http://h", &[good()]), 10);
    assert_eq!(success_bucket(1, "http://h", &[bad()]), 0);
    // 1 / 1.9
    assert_eq!(success_bucket(1, "http://h", &[good(), bad()]), 5);
    // 1 / 2.71
    assert_eq!(success_bucket(1, "http://h", &[good(), bad(), bad()]), 4);
    // 0.81 / 2.71
    assert_eq!(success_bucket(1, "http://h", &[bad(), bad(), good()]), 3);
    assert_eq!(success_bucket(2, "http://h", &[bad()]), 5);
    assert_eq!(success_bucket(1, "http://other", &[bad()]), 5);
    let failed = play(vec![AttemptOutcome::Failed { reason: "x".into() }, AttemptOutcome::Played]);
    assert_eq!(success_bucket(1, "http://h", &[failed]), 5);
}

#[test]
fn success_is_weighed_in_floating_point() {
    for (len, pattern) in [(1, 0b1u64), (7, 0b1011001), (40, 0x5A5A5), (64, 0xFFFF_0000_FFFF_0001), (300, 0x9249)] {
        let oks: Vec<bool> = (0..len).map(|i| pattern >> (i % 64) & 1 == 1).collect();
        let (mut sum, mut all, mut decay) = (0.0f32, 0.0f32, 1.0f32);
        for ok in &oks {
            sum += if *ok { 1.0 } else { 0.0 } * decay;
            all += decay;
            decay *= 0.9;
        }
        let log: Vec<PlayEvent> = oks
            .iter()
            .map(|ok| play(vec![if *ok { AttemptOutcome::Played } else { AttemptOutcome::Timeout }]))
            .collect();
        let got = success_bucket(1, "http://h", &log);
        assert_eq!(got, (sum / all * 10.0).round() as i32, "{oks:?}");
        assert!((0..=10).contains(&got));
    }
    // Weights that are too small to count are still weights.
    let log: Vec<PlayEvent> = (0..1500).map(|_| play(vec![AttemptOutcome::Played])).collect();
    assert_eq!(success_bucket(1, "http://h", &log), 10);
}

#[test]
fn bad_hosts_cost_two() {
    let mut bl = fresh_blacklist();
    for i in 1..=4 {
        bl.note_failure(&format!("http://h/live/u/p/{i}.m3u8"), FailureKind::ServerSide, NOW);
    }
    let m = MeasuredStore::new();
    let k = source_rank_key_tv("c", 9, "http://h/live/u/p/9.m3u8", "http://h", &m, &bl, &[], NOW);
    assert_eq!(k.0, 0);
    assert_eq!(k.1, -2);
}

#[test]
fn stream_ids_stand_in_live_and_archive_urls() {
    assert_eq!(stream_id_from_source_url("http://h/live/u/p/386405.m3u8"), Some(386405));
    assert_eq!(
        stream_id_from_source_url("http://h/timeshift/u/p/60/2026-05-12:20-00/386405.m3u8"),
        Some(386405)
    );
    assert_eq!(stream_id_from_source_url("http://h/live/u/386405.m3u8"), None);
    assert_eq!(stream_id_from_source_url("http://h/live/u/p/abc.m3u8"), None);
    assert_eq!(stream_id_from_source_url("http://h/386405.m3u8"), None);
}

#[test]
fn caps_lists_are_sorted_and_without_repeats() {
    let s = |t: &str| Some(t.to_string());
    assert_eq!(
        parse_caps_list(&s("HLS, h264,aac , hls,,dvb_safe")).unwrap(),
        vec!["aac", "dvb_safe", "h264", "hls"]
    );
    assert!(parse_caps_list(&s(" , ,")).is_none());
    assert!(parse_caps_list(&None).is_none());
    assert!(client_has_cap(&s("hls, DVB_safe"), "dvb_safe"));
    assert!(!client_has_cap(&s("hls"), "dvb_safe"));
    assert!(!client_has_cap(&None, "dvb_safe"));
}

#[test]
fn pids_keep_letters_and_digits() {
    assert_eq!(sanitize_pid("ab-12\n cd"), "ab12cd");
    assert_eq!(sanitize_pid(&"x".repeat(100)).len(), 32);
    assert_eq!(sanitize_pid("¡!"), "");
}
