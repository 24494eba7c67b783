use iptv_proxy::canonical::{CanonicalChannel, CanonicalSource};
use iptv_proxy::catalog::CatalogSnapshot;
use iptv_proxy::codec::{crc32_mpeg2, SYNC, TS_PACKET_LEN};
use iptv_proxy::json::Json;
use iptv_proxy::measured::{MeasuredStore, Sample, SampleSource};
use iptv_proxy::probe::{
    audio_step, freshness_step, has_capacity, judge_audio_segment, judge_tv_segment, nested_audio_step, probe_budget,
    probe_targets, tv_step, FreshnessStep, ProbeStep,
};
use iptv_proxy::proxy::fps_rank;
use iptv_proxy::radio::RadioFormat;
use iptv_proxy::single::Single;
use iptv_proxy::sweep::{ProbeJob, Pulse, Sweep, SweepKind, SweepStep};
use iptv_proxy::xtream::{ChannelKind, UserInfo, XtreamClient};

const SECOND: i128 = 1_000_000_000;
const NOW: i128 = 1_778_700_000 * SECOND;

fn single(x: f32) -> Single {
    Single { bits: x.to_bits() }
}

fn client() -> XtreamClient {
    XtreamClient::new("u".to_string(), "p".to_string())
}

fn source(stream_id: u64, direct: Option<&str>, format: Option<RadioFormat>) -> CanonicalSource {
    CanonicalSource {
        stream_id,
        name: "x".to_string(),
        score: 0,
        logo: None,
        tv_archive: false,
        tv_archive_duration: None,
        direct_source: direct.map(|s| s.to_string()),
        origin_host: String::new(),
        radio_format: format,
    }
}

fn channel(kind: ChannelKind, sources: Vec<CanonicalSource>) -> CanonicalChannel {
    CanonicalChannel { key: "k".to_string(), name: "K".to_string(), kind, sources }
}

fn catalog() -> CatalogSnapshot {
    let mut snap = CatalogSnapshot::empty();
    snap.channels = vec![
        channel(ChannelKind::Tv, vec![source(1, None, None), source(2, None, None)]),
        channel(ChannelKind::Tv, vec![]),
        channel(
            ChannelKind::Radio,
            vec![
                source(8, Some("http://r/x.mp3"), Some(RadioFormat::Mp3)),
                source(9, Some("https://r:80/y.m3u8"), Some(RadioFormat::Hls)),
            ],
        ),
    ];
    snap
}

fn hosts() -> Vec<String> {
    vec!["http://a".to_string(), "http://b".to_string()]
}

fn sample(at: i128) -> Sample {
    Sample {
        at,
        source: SampleSource::Sweep,
        width: 1920,
        height: 1080,
        codec: Some("h264".to_string()),
        pix_fmt: None,
        color_transfer: None,
        framerate: None,
        bitrate_kbps: Some(4000),
        dvb_unsafe: None,
        sample_rate_hz: None,
        audio_channels: None,
        h264_excess_refs: None,
    }
}

fn quiet() -> Pulse {
    Pulse { active_plays: 0, max_cons: 4, running: 0, now: NOW }
}

fn run(kind: SweepKind, measured: &MeasuredStore) -> (Vec<ProbeJob>, Sweep) {
    let (c, snap, alive) = (client(), catalog(), hosts());
    let mut sweep = Sweep::start(kind);
    let mut jobs = Vec::new();
    loop {
        match sweep.step(&c, &snap, measured, &alive, quiet()) {
            SweepStep::Start(j) => jobs.push(j),
            SweepStep::Wait { .. } => panic!("nothing to wait for"),
            SweepStep::Done => return (jobs, sweep),
        }
    }
}

#[test]
fn rounds_walk_all_streams_on_all_hosts() {
    let (jobs, sweep) = run(SweepKind::Bootstrap, &MeasuredStore::new());
    let told: Vec<(u64, &str, bool)> = jobs.iter().map(|j| (j.stream_id, j.host.as_str(), j.radio)).collect();
    assert_eq!(
        told,
        vec![
            (1, "http://a", false),
            (1, "http://b", false),
            (2, "http://a", false),
            (2, "http://b", false),
            (9, "https://r", true),
        ]
    );
    assert_eq!(jobs[1].url, "http://b/live/u/p/1.m3u8");
    assert_eq!(jobs[4].url, "https://r:80/y.m3u8");
    assert_eq!((sweep.started, sweep.skipped), (5, 0));
}

#[test]
fn the_first_round_skips_what_was_measured() {
    let mut measured = MeasuredStore::new();
    measured.push(1, "http://a", sample(NOW - 1_000_000 * SECOND));
    let (jobs, sweep) = run(SweepKind::Bootstrap, &measured);
    assert_eq!(jobs.len(), 4);
    assert_eq!((sweep.started, sweep.skipped), (4, 1));
}

#[test]
fn later_rounds_skip_what_is_fresh() {
    let mut measured = MeasuredStore::new();
    measured.push(1, "http://a", sample(NOW - 3600 * SECOND));
    measured.push(1, "http://b", sample(NOW - 3599 * SECOND));
    let (jobs, sweep) = run(SweepKind::Freshness { ttl_secs: 3600, max_cons: 3 }, &measured);
    assert_eq!((jobs[0].stream_id, jobs[0].host.as_str()), (1, "http://a"));
    assert_eq!((jobs[1].stream_id, jobs[1].host.as_str()), (2, "http://a"));
    assert_eq!((sweep.started, sweep.skipped), (4, 1));
}

#[test]
fn the_first_round_waits_while_somebody_watches() {
    let (c, snap, alive, measured) = (client(), catalog(), hosts(), MeasuredStore::new());
    let mut sweep = Sweep::start(SweepKind::Bootstrap);
    let busy = Pulse { active_plays: 1, ..quiet() };
    for _ in 0..3 {
        assert!(matches!(sweep.step(&c, &snap, &measured, &alive, busy), SweepStep::Wait { millis: 200 }));
    }
    let step = sweep.step(&c, &snap, &measured, &alive, quiet());
    assert!(matches!(step, SweepStep::Start(ref j) if j.stream_id == 1 && j.host == "http://a"), "nothing is lost");
}

#[test]
fn later_rounds_leave_a_connection_free() {
    let (c, snap, alive, measured) = (client(), catalog(), hosts(), MeasuredStore::new());
    let mut sweep = Sweep::start(SweepKind::Freshness { ttl_secs: 60, max_cons: 3 });
    let pulse = |active_plays: usize, running: usize| Pulse { active_plays, running, max_cons: 0, now: NOW };
    assert!(matches!(sweep.step(&c, &snap, &measured, &alive, pulse(2, 0)), SweepStep::Wait { millis: 500 }));
    assert!(matches!(sweep.step(&c, &snap, &measured, &alive, pulse(1, 1)), SweepStep::Wait { millis: 500 }));
    assert!(matches!(sweep.step(&c, &snap, &measured, &alive, pulse(1, 0)), SweepStep::Start(_)));
    assert!(has_capacity(4, 3, 1, 1));
    assert!(!has_capacity(4, 3, 1, 2));
}

#[test]
fn radio_that_is_no_playlist_is_not_probed() {
    let c = client();
    let mp3 = source(8, Some("http://r/x.mp3"), Some(RadioFormat::Mp3));
    assert!(probe_targets(&c, ChannelKind::Radio, &mp3, &hosts()).is_empty());
    assert!(probe_targets(&c, ChannelKind::Radio, &source(8, None, Some(RadioFormat::Hls)), &hosts()).is_empty());
    assert_eq!(probe_targets(&c, ChannelKind::Tv, &source(8, None, None), &hosts()).len(), 2);
}

#[test]
fn budgets_follow_the_provider() {
    assert_eq!([0, 1, 2, 3, 9].map(probe_budget), [1, 1, 1, 2, 2]);
    let info = |n: Json| UserInfo {
        auth: Json::Number(Some(1)),
        status: None,
        active_cons: None,
        max_connections: Some(n),
        exp_date: None,
    };
    assert_eq!(info(Json::Text("3".to_string())).max_connections_value(), Some(3));
    assert_eq!(info(Json::Number(Some(2))).max_connections_value(), Some(2));
    assert_eq!(info(Json::Null).max_connections_value(), None);
}

#[test]
fn the_loop_waits_for_the_provider_or_obeys_the_configuration() {
    assert_eq!(freshness_step(None, 0), FreshnessStep::Sleep { secs: 5 });
    assert_eq!(freshness_step(None, 2), FreshnessStep::Sleep { secs: 60 });
    assert_eq!(freshness_step(Some(0), 9), FreshnessStep::Sleep { secs: 60 });
    assert_eq!(freshness_step(None, 3), FreshnessStep::Round { max_cons: 3, pause_secs: 900 });
    assert_eq!(freshness_step(Some(7), 0), FreshnessStep::Round { max_cons: 2, pause_secs: 7 });
}

#[test]
fn probes_go_from_playlist_to_segment() {
    let live = "#EXTM3U\n#EXTINF:4.5,\na.ts\n";
    assert!(matches!(tv_step(live, "http://h/l.m3u8"), ProbeStep::Segment { ref url, seconds } if seconds == single(4.5) && url == "http://h/a.ts"));
    assert!(matches!(tv_step("#EXTM3U\n#EXTINF:4,\na.ts\n#EXT-X-ENDLIST\n", "http://h/l.m3u8"), ProbeStep::Stop));
    assert!(matches!(tv_step("#EXTM3U\n", "http://h/l.m3u8"), ProbeStep::Stop));
    let outer = "#EXTM3U\n#EXTINF:9,\ninner.m3u8\n";
    let step = audio_step(outer, "http://h/l.m3u8");
    assert!(matches!(step, ProbeStep::Playlist { ref url, seconds } if seconds == single(9.0) && url == "http://h/inner.m3u8"));
    let step = nested_audio_step("#EXTM3U\n#EXTINF:2,\na.aac\n", "http://h/inner.m3u8", single(9.0));
    assert!(matches!(step, ProbeStep::Segment { ref url, seconds } if seconds == single(9.0) && url == "http://h/a.aac"));
    assert!(matches!(audio_step("#EXTM3U\n#EXTINF:2,\na.aac\n", "http://h/l.m3u8"), ProbeStep::Segment { .. }));
}

#[test]
fn segments_that_tell_nothing_are_dropped() {
    assert!(judge_tv_segment(&[0x47; 20_000], single(1.0), NOW).is_none(), "no tables");
    assert!(judge_tv_segment(&[], single(1.0), NOW).is_none(), "too small");
    assert!(judge_audio_segment(&[1, 2, 3], single(1.0), NOW).is_none());
    let mut bytes = vec![0xFF, 0xF1, 0x50, 0x80, 0x10, 0x1F, 0xFC];
    bytes.resize(16_000, 0);
    let s = judge_audio_segment(&bytes, single(2.0), NOW).unwrap();
    assert_eq!((s.sample_rate_hz, s.audio_channels, s.bitrate_kbps), (Some(44100), Some(2), Some(64)));
    assert_eq!((s.codec.as_deref(), s.at), (Some("aac"), NOW));
}

// --- Pictures ------------------------------------------------------------------------------------

fn push_bits(out: &mut Vec<u8>, v: u64, n: usize) {
    for i in (0..n).rev() {
        out.push(((v >> i) & 1) as u8);
    }
}

fn push_ue(out: &mut Vec<u8>, v: u64) {
    let n = 64 - (v + 1).leading_zeros() as usize;
    push_bits(out, v + 1, 2 * n - 1);
}

/// A unit of a video stream, with its start code.
fn unit(head: u8, mut bits: Vec<u8>) -> Vec<u8> {
    bits.push(1);
    while bits.len() % 8 != 0 {
        bits.push(0);
    }
    let mut v = vec![0, 0, 0, 1, head];
    let mut zeros = 0;
    for b in bits.chunks(8).map(|c| c.iter().fold(0u8, |a, x| a << 1 | x)) {
        if zeros >= 2 && b <= 3 {
            v.push(3);
            zeros = 0;
        }
        zeros = if b == 0 { zeros + 1 } else { 0 };
        v.push(b);
    }
    v
}

/// 1280 by 720, two reference frames, a frame rate that is almost 24.
fn picture_units(active: u64) -> Vec<u8> {
    let mut sps = Vec::new();
    push_bits(&mut sps, 66 << 16 | 40, 24);
    for v in [0, 0, 2, 2] {
        push_ue(&mut sps, v);
    }
    push_bits(&mut sps, 0, 1);
    push_ue(&mut sps, 79);
    push_ue(&mut sps, 44);
    push_bits(&mut sps, 0b1101, 4);
    push_bits(&mut sps, 0b00001, 5);
    push_bits(&mut sps, 20_000_000, 32);
    push_bits(&mut sps, 959_999_999, 32);
    push_bits(&mut sps, 0b10000, 5);
    let mut pps = Vec::new();
    push_ue(&mut pps, 0);
    push_ue(&mut pps, 0);
    push_bits(&mut pps, 0, 2);
    for _ in 0..3 {
        push_ue(&mut pps, 0);
    }
    push_bits(&mut pps, 0, 3);
    for _ in 0..3 {
        push_ue(&mut pps, 0);
    }
    push_bits(&mut pps, 0, 3);
    let mut slice = Vec::new();
    for _ in 0..3 {
        push_ue(&mut slice, 0);
    }
    push_bits(&mut slice, 0, 4);
    push_bits(&mut slice, 1, 1);
    push_ue(&mut slice, active - 1);
    [unit(0x67, sps), unit(0x68, pps), unit(0x21, slice)].concat()
}

fn packet(pid: u16, payload: &[u8]) -> Vec<u8> {
    let mut p = vec![SYNC, 0x40 | (pid >> 8) as u8, pid as u8, 0x10];
    p.extend_from_slice(payload);
    p.resize(TS_PACKET_LEN, 0xFF);
    p
}

fn table(mut section: Vec<u8>) -> Vec<u8> {
    section[2] = section.len() as u8 + 1;
    let crc = crc32_mpeg2(&section);
    section.extend_from_slice(&crc.to_be_bytes());
    section.insert(0, 0);
    section
}

/// A transport stream of so many bytes.
fn pictures(active: u64, kind: u8, len: usize) -> Vec<u8> {
    let mut v = packet(0, &table(vec![0x00, 0xB0, 0, 0, 1, 0xC1, 0, 0, 0, 1, 0xE0, 0x20]));
    v.extend(packet(0x20, &table(vec![0x02, 0xB0, 0, 0, 1, 0xC1, 0, 0, 0xE0, 0x21, 0xF0, 0x00, kind, 0xE0, 0x21, 0xF0, 0x00])));
    let mut pes = vec![0, 0, 1, 0xE0, 0, 0, 0x80, 0, 0];
    pes.extend(picture_units(active));
    v.extend(packet(0x21, &pes));
    while v.len() < len {
        v.extend(packet(0x1FFF, &[]));
    }
    v.truncate(len);
    v
}

#[test]
fn segments_tell_of_pictures_and_slices() {
    let s = judge_tv_segment(&pictures(5, 0x1B, 625_625), single(5.005), NOW).unwrap();
    assert_eq!((s.width, s.height, s.codec.as_deref()), (1280, 720, Some("h264")));
    assert_eq!(s.bitrate_kbps, Some(999));
    assert_eq!(s.framerate, Some(single(24.0)));
    assert_eq!(fps_rank(s.framerate), 1);
    assert_eq!(s.h264_excess_refs, Some(true));
    let s = judge_tv_segment(&pictures(2, 0x1B, 625_625), single(5.0), NOW).unwrap();
    assert_eq!((s.bitrate_kbps, s.h264_excess_refs), (Some(1001), Some(false)));
    let short = pictures(2, 0x1B, 9_999);
    assert!(judge_tv_segment(&short, single(0.1), NOW).is_none(), "too small");
    let slow = pictures(2, 0x1B, 20_000);
    assert!(judge_tv_segment(&slow, single(1.0), NOW).is_none(), "below the floor");
    assert!(judge_tv_segment(&slow, single(f32::INFINITY), NOW).is_none());
    let s = judge_tv_segment(&slow, single(1e-9), NOW).unwrap();
    assert_eq!(s.bitrate_kbps, Some(u32::MAX));
}
