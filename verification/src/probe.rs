//! Measuring streams without anyone watching: what to probe, when, and what a probe tells.
use vstd::prelude::*;
use vstd::slice::slice_subrange;
use crate::adts::{AdtsHeader, adts_bytes, adts_header, audio_kbps, channel_count, classify_aac_chunk};
use crate::adts::{law_headers_are_read_back, sampling_frequencies};
use crate::canonical::{CanonicalSource, SourceView};
use crate::clock::{elapsed_secs, seconds_since};
use crate::codec::{ClassView, Classification, VideoCodec, alignment, classify_ts_chunk, collect_video_es, collected_es};
use crate::codec::{ts_alignment, ts_class};
use crate::decimal::{parse_single, read_single};
use crate::measured::{Sample, SampleSource, SampleView};
use crate::outside::{join_url, read_url, url_joined, url_parts};
use crate::radio::RadioFormat;
use crate::single::{Single, kbps_down, kbps_of};
use crate::slice::{own_excess, walk_slices};
use crate::text::{before, chars_of, contains, copy_range, ends_with, index_of, index_or_len, is_prefix, is_suffix};
use crate::text::{lemma_index_or_len, lines, lines_of};
use crate::text::{opt_text, owned, push_text, starts_with, str_has, string_of, texts, trim, trim_chars, views};
use crate::xtream::{ChannelKind, XtreamClient};

verus! {

/// Segments of television below this size tell nothing.
pub const SEGMENT_MIN_BYTES: usize = 10000;

/// Bit rates of television below this are not believed.
pub const BITRATE_MIN_KBPS: u32 = 200;

/// Pictures below this size are not believed: 320 by 240.
pub const MIN_PIXELS: u64 = 76800;

/// How many probes run at a time while the provider's limit is unknown.
pub const DEFAULT_PROBE_BUDGET: u32 = 1;

/// The seconds between two rounds of probes, where the configuration says nothing.
pub const FRESHNESS_AUTO_INTERVAL_SECS: u64 = 900;

// --- Playlists ---------------------------------------------------------------------------

/// How many lines start with `pat`.
pub open spec fn lines_starting(ls: Seq<Seq<char>>, pat: Seq<char>) -> nat
    decreases ls.len(),
{
    if ls.len() == 0 {
        0
    } else {
        lines_starting(ls.drop_last(), pat) + if starts_with(ls.last(), pat) {
            1nat
        } else {
            0
        }
    }
}

/// The playlist is a stand-in for a stream that is not to be had: it has an end and at most
/// two segments.
pub open spec fn placeholder(text: Seq<char>) -> bool {
    contains(text, "#EXT-X-ENDLIST"@) && lines_starting(lines(text), "#EXTINF"@) <= 2
}

pub fn is_placeholder_manifest(text: &str) -> (r: bool)
    ensures
        r == placeholder(text@),
{
    if !str_has(text, "#EXT-X-ENDLIST") {
        return false;
    }
    let ls = lines_of(&chars_of(text));
    let ghost all = views(ls@);
    let mut n: usize = 0;
    let mut i: usize = 0;
    while i < ls.len()
        invariant
            i <= ls@.len(),
            all == views(ls@),
            n <= i,
            n == lines_starting(all.take(i as int), "#EXTINF"@),
        decreases ls@.len() - i,
    {
        proof {
            assert(all.take(i + 1).drop_last() =~= all.take(i as int));
            assert(all.take(i + 1).last() == ls@[i as int]@);
        }
        if is_prefix(&ls[i], "#EXTINF") {
            n = n + 1;
        }
        i = i + 1;
    }
    proof {
        assert(all.take(i as int) =~= all);
    }
    n <= 2
}

/// The seconds above zero that a text stands for.
pub open spec fn seconds_of(s: Seq<char>) -> Option<Single> {
    match parse_single(s) {
        Some(x) => if x.bits > 0 {
            Some(x)
        } else {
            None
        },
        None => None,
    }
}

pub fn read_duration(s: &[char]) -> (r: Option<Single>)
    ensures
        r == seconds_of(s@),
{
    match read_single(s) {
        Some(x) => if x.bits > 0 {
            Some(x)
        } else {
            None
        },
        None => None,
    }
}

/// The duration on a line that announces a segment.
pub open spec fn extinf(line: Seq<char>) -> Option<Single> {
    if starts_with(line, "#EXTINF:"@) {
        seconds_of(before(line.skip(8), ','))
    } else {
        None
    }
}

/// The duration on a line that announces a segment.
pub fn read_extinf(line: &[char]) -> (r: Option<Single>)
    ensures
        r == extinf(line@),
{
    proof {
        reveal_strlit("#EXTINF:");
    }
    if !is_prefix(line, "#EXTINF:") {
        return None;
    }
    let rest = copy_range(line, 8, line.len());
    proof {
        assert(rest@ =~= line@.skip(8));
        assert(rest@.skip(0) =~= rest@);
    }
    let i = index_of(&rest, ',', 0);
    proof {
        assert(rest@.subrange(0, i as int) =~= before(rest@, ','));
    }
    read_duration(slice_subrange(&rest, 0, i))
}

/// The later of two durations that is there.
pub open spec fn latest(pending: Option<Single>, found: Option<Single>) -> Option<Single> {
    if found is Some {
        found
    } else {
        pending
    }
}

/// The first reference that is behind a duration, from line `i` on, and the duration.
pub open spec fn segment_from(ls: Seq<Seq<char>>, i: int, pending: Option<Single>) -> Option<(Single, Seq<char>)>
    decreases ls.len() - i,
{
    if i < 0 || i >= ls.len() {
        None
    } else {
        let t = trim(ls[i]);
        if starts_with(t, "#EXTINF:"@) {
            segment_from(ls, i + 1, latest(pending, extinf(t)))
        } else if t.len() == 0 || t[0] == '#' {
            segment_from(ls, i + 1, pending)
        } else {
            match pending {
                Some(d) => Some((d, t)),
                None => segment_from(ls, i + 1, pending),
            }
        }
    }
}

/// The first segment of a media playlist: how many seconds it plays, and where it is.
pub fn first_segment(body: &str) -> (r: Option<(Single, String)>)
    ensures
        match r {
            Some(s) => segment_from(lines(body@), 0, None) == Some((s.0, s.1@)),
            None => segment_from(lines(body@), 0, None) is None,
        },
{
    let ls = lines_of(&chars_of(body));
    let ghost all = views(ls@);
    let mut pending: Option<Single> = None;
    let mut i: usize = 0;
    while i < ls.len()
        invariant
            i <= ls@.len(),
            all == views(ls@),
            all == lines(body@),
            segment_from(all, 0, None) == segment_from(all, i as int, pending),
        decreases ls@.len() - i,
    {
        let t = trim_chars(&ls[i]);
        proof {
            assert(all[i as int] == ls@[i as int]@);
            reveal_strlit("#EXTINF:");
        }
        if is_prefix(t, "#EXTINF:") {
            if let Some(d) = read_extinf(t) {
                pending = Some(d);
            }
        } else if t.len() > 0 && t[0] != '#' {
            if let Some(d) = pending {
                return Some((d, string_of(t)));
            }
        }
        i = i + 1;
    }
    None
}

/// The duration and the URL of the first segment, by where it is found.
pub open spec fn resolved_segment(found: Option<(Single, Seq<char>)>, base: Seq<char>) -> Option<(Single, Seq<char>)> {
    match found {
        Some((d, reference)) => match url_joined(base, reference) {
            Some(u) => Some((d, u)),
            None => None,
        },
        None => None,
    }
}

/// The first segment of a media playlist: how long it plays, in seconds, and its URL.
pub fn first_extinf_and_url(body: &str, base_url: &str) -> (r: Option<(Single, String)>)
    ensures
        match r {
            Some(s) => resolved_segment(segment_from(lines(body@), 0, None), base_url@) == Some((s.0, s.1@)),
            None => resolved_segment(segment_from(lines(body@), 0, None), base_url@) is None,
        },
{
    let (d, reference) = first_segment(body)?;
    let u = join_url(base_url, &reference)?;
    Some((d, u))
}

// --- URLs -----------------------------------------------------------------------------------

/// Scheme and host, by the parts of a URL.
pub open spec fn root_of(parts: Option<(Seq<char>, Option<Seq<char>>, Seq<char>)>) -> Option<Seq<char>> {
    match parts {
        Some((scheme, Some(host), path)) => Some(scheme + "://"@ + host),
        _ => None,
    }
}

/// Scheme and host, by the parts of a URL.
pub fn root_of_parts(parts: Option<(String, Option<String>, String)>) -> (r: Option<String>)
    ensures
        opt_text(r) == root_of(
            match parts {
                Some(p) => Some((p.0@, opt_text(p.1), p.2@)),
                None => None,
            },
        ),
{
    match parts {
        Some((scheme, Some(host), path)) => {
            let mut s = scheme;
            push_text(&mut s, "://");
            push_text(&mut s, &host);
            Some(s)
        },
        _ => None,
    }
}

/// Scheme and host of a URL; empty for what has none.
pub open spec fn host_key(url: Seq<char>) -> Seq<char> {
    match root_of(url_parts(url)) {
        Some(h) => h,
        None => Seq::empty(),
    }
}

/// Scheme and host of a URL; empty for what has none.
pub fn derive_host(url: &str) -> (r: String)
    ensures
        r@ == host_key(url@),
{
    match root_of_parts(read_url(url)) {
        Some(h) => h,
        None => {
            let none = String::new();
            proof {
                assert(none@ =~= Seq::<char>::empty());
            }
            none
        },
    }
}

// --- What a probe tells -----------------------------------------------------------------------

/// The name of a codec.
pub open spec fn codec_name(c: Option<VideoCodec>) -> Option<Seq<char>> {
    match c {
        Some(VideoCodec::H264) => Some("h264"@),
        Some(VideoCodec::Hevc) => Some("hevc"@),
        _ => None,
    }
}

/// Whether any slice of a chunk's video refers to more frames than its parameter sets allow;
/// told of H.264 only.
pub open spec fn chunk_excess(b: Seq<u8>, c: ClassView) -> Option<bool> {
    match (alignment(b), c.video_codec, c.video_pid) {
        (Some(start), Some(VideoCodec::H264), Some(pid)) => match collected_es(b, start, pid) {
            Some(es) => own_excess(es),
            None => None,
        },
        _ => None,
    }
}

fn walk_chunk(bytes: &[u8], c: &Classification) -> (r: Option<bool>)
    ensures
        r == chunk_excess(bytes@, c@),
{
    let start = ts_alignment(bytes)?;
    match (c.video_codec, c.video_pid) {
        (Some(VideoCodec::H264), Some(pid)) => match collect_video_es(bytes, start, pid) {
            Some(es) => walk_slices(&es),
            None => None,
        },
        _ => None,
    }
}

/// What a segment of television that plays for so many seconds tells: nothing where it is too
/// small, cannot be read, has no picture size, or is not to be believed.
pub open spec fn tv_sample(bytes: Seq<u8>, seconds: Single, at: i128) -> Option<SampleView> {
    match ts_class(bytes) {
        Some(c) => {
            let kbps = kbps_down(bytes.len(), seconds);
            if bytes.len() < SEGMENT_MIN_BYTES || codec_name(c.video_codec) is None || c.width is None || c.height is None
                || kbps < BITRATE_MIN_KBPS || c.width->0 * c.height->0 < MIN_PIXELS {
                None
            } else {
                Some(
                    SampleView {
                        at: at as int,
                        source: SampleSource::Sweep,
                        width: c.width->0,
                        height: c.height->0,
                        codec: codec_name(c.video_codec),
                        pix_fmt: c.pix_fmt,
                        color_transfer: c.color_transfer,
                        framerate: c.framerate,
                        bitrate_kbps: Some(kbps),
                        dvb_unsafe: Some(c.dvb_unsafe),
                        sample_rate_hz: None,
                        audio_channels: None,
                        h264_excess_refs: chunk_excess(bytes, c),
                    },
                )
            }
        },
        None => None,
    }
}

/// What a segment of television that plays for so many seconds tells.
pub fn judge_tv_segment(bytes: &[u8], seconds: Single, at: i128) -> (r: Option<Sample>)
    requires
        seconds.positive(),
    ensures
        match r {
            Some(s) => tv_sample(bytes@, seconds, at) == Some(s@),
            None => tv_sample(bytes@, seconds, at) is None,
        },
{
    if bytes.len() < SEGMENT_MIN_BYTES {
        return None;
    }
    let c = classify_ts_chunk(bytes)?;
    let kbps: u32 = kbps_of(bytes.len() as u64, seconds);
    let codec = c.codec_string()?;
    let width: u32 = c.width?;
    let height: u32 = c.height?;
    if kbps < BITRATE_MIN_KBPS {
        return None;
    }
    proof {
        assert(width * height <= 0xffff_ffff * 0xffff_ffff) by (nonlinear_arith)
            requires
                width <= 0xffff_ffff,
                height <= 0xffff_ffff,
        ;
    }
    let pixels: u64 = width as u64 * height as u64;
    if pixels < MIN_PIXELS {
        return None;
    }
    let h264_excess_refs = walk_chunk(bytes, &c);
    Some(
        Sample {
            at,
            source: SampleSource::Sweep,
            width,
            height,
            codec: Some(codec),
            pix_fmt: c.pix_fmt,
            color_transfer: c.color_transfer,
            framerate: c.framerate,
            bitrate_kbps: Some(kbps),
            dvb_unsafe: Some(c.dvb_unsafe),
            sample_rate_hz: None,
            audio_channels: None,
            h264_excess_refs,
        },
    )
}

/// What a segment of radio that plays for so many seconds tells: nothing where it does not start
/// with ADTS.
pub open spec fn audio_sample(bytes: Seq<u8>, seconds: Single, at: i128) -> Option<SampleView> {
    match adts_header(bytes) {
        Some(h) => Some(
            SampleView {
                at: at as int,
                source: SampleSource::Sweep,
                width: 0,
                height: 0,
                codec: Some("aac"@),
                pix_fmt: None,
                color_transfer: None,
                framerate: None,
                bitrate_kbps: audio_kbps(bytes.len(), seconds),
                dvb_unsafe: None,
                sample_rate_hz: if h.sampling_frequency_index < sampling_frequencies().len() {
                    Some(sampling_frequencies()[h.sampling_frequency_index as int])
                } else {
                    None
                },
                audio_channels: channel_count(h.channel_configuration),
                h264_excess_refs: None,
            },
        ),
        None => None,
    }
}

/// What a segment of radio that plays for so many seconds tells.
pub fn judge_audio_segment(bytes: &[u8], seconds: Single, at: i128) -> (r: Option<Sample>)
    ensures
        match r {
            Some(s) => audio_sample(bytes@, seconds, at) == Some(s@),
            None => audio_sample(bytes@, seconds, at) is None,
        },
{
    let c = classify_aac_chunk(bytes, seconds)?;
    Some(
        Sample {
            at,
            source: SampleSource::Sweep,
            width: 0,
            height: 0,
            codec: Some(owned("aac")),
            pix_fmt: None,
            color_transfer: None,
            framerate: None,
            bitrate_kbps: c.kbps,
            dvb_unsafe: None,
            sample_rate_hz: c.sample_rate_hz,
            audio_channels: c.audio_channels,
            h264_excess_refs: None,
        },
    )
}

/// What to fetch next in a probe.
#[derive(Debug)]
pub enum ProbeStep {
    /// Another playlist.
    Playlist { url: String, seconds: Single },
    /// The segment, and how many seconds it plays.
    Segment { url: String, seconds: Single },
    /// Nothing: the probe tells nothing.
    Stop,
}

/// A playlist that leads on to the segment.
pub open spec fn leads_to(body: Seq<char>, url: Seq<char>) -> Option<(Single, Seq<char>)> {
    if placeholder(body) {
        None
    } else {
        resolved_segment(segment_from(lines(body), 0, None), url)
    }
}

/// The next step of a probe of television, by its playlist.
pub fn tv_step(body: &str, url: &str) -> (r: ProbeStep)
    ensures
        match leads_to(body@, url@) {
            Some((d, u)) => r matches ProbeStep::Segment { url: s, seconds: m } && s@ == u && m == d,
            None => r is Stop,
        },
{
    if is_placeholder_manifest(body) {
        return ProbeStep::Stop;
    }
    match first_extinf_and_url(body, url) {
        Some((seconds, u)) => ProbeStep::Segment { url: u, seconds },
        None => ProbeStep::Stop,
    }
}

/// The next step of a probe of radio, by its playlist: what the first duration announces may
/// be another playlist.
pub fn audio_step(body: &str, url: &str) -> (r: ProbeStep)
    ensures
        match leads_to(body@, url@) {
            Some((d, u)) => if ends_with(u, ".m3u8"@) {
                r matches ProbeStep::Playlist { url: s, seconds: m } && s@ == u && m == d
            } else {
                r matches ProbeStep::Segment { url: s, seconds: m } && s@ == u && m == d
            },
            None => r is Stop,
        },
{
    if is_placeholder_manifest(body) {
        return ProbeStep::Stop;
    }
    match first_extinf_and_url(body, url) {
        Some((seconds, u)) => if is_suffix(&chars_of(&u), ".m3u8") {
            ProbeStep::Playlist { url: u, seconds }
        } else {
            ProbeStep::Segment { url: u, seconds }
        },
        None => ProbeStep::Stop,
    }
}

/// The next step of a probe of radio, by the inner playlist: the duration stays that of the
/// outer one, and there is no third playlist.
pub fn nested_audio_step(body: &str, url: &str, seconds: Single) -> (r: ProbeStep)
    ensures
        match resolved_segment(segment_from(lines(body@), 0, None), url@) {
            Some((d, u)) => r matches ProbeStep::Segment { url: s, seconds: m } && s@ == u && m == seconds,
            None => r is Stop,
        },
{
    match first_extinf_and_url(body, url) {
        Some((d, u)) => ProbeStep::Segment { url: u, seconds },
        None => ProbeStep::Stop,
    }
}

// --- What to probe, and when --------------------------------------------------------------------

/// What to probe of a source: for television each host that is alive, for radio the source's
/// own URL where it is HLS. Hosts with their URLs.
pub open spec fn source_targets(
    client: XtreamClient,
    kind: ChannelKind,
    s: SourceView,
    alive: Seq<Seq<char>>,
) -> Seq<(Seq<char>, Seq<char>)> {
    if kind == ChannelKind::Radio {
        match s.direct_source {
            Some(url) => if s.radio_format == Some(RadioFormat::Hls) {
                seq![(host_key(url), url)]
            } else {
                Seq::empty()
            },
            None => Seq::empty(),
        }
    } else {
        alive.map_values(|h: Seq<char>| (h, client.live_url(h, s.stream_id as nat, "m3u8"@)))
    }
}

/// The texts of pairs.
pub open spec fn target_texts(v: Seq<(String, String)>) -> Seq<(Seq<char>, Seq<char>)> {
    Seq::new(v.len(), |i: int| (v[i].0@, v[i].1@))
}

pub fn probe_targets(client: &XtreamClient, kind: ChannelKind, source: &CanonicalSource, alive: &[String]) -> (r: Vec<
    (String, String),
>)
    ensures
        target_texts(r@) == source_targets(*client, kind, source@, texts(alive@)),
{
    let mut out: Vec<(String, String)> = Vec::new();
    if kind == ChannelKind::Radio {
        let hls = match source.radio_format {
            Some(f) => f == RadioFormat::Hls,
            None => false,
        };
        if hls {
            if let Some(direct) = &source.direct_source {
                out.push((derive_host(direct), direct.clone()));
            }
        }
        proof {
            assert(target_texts(out@) =~= source_targets(*client, kind, source@, texts(alive@)));
        }
        return out;
    }
    let mut i: usize = 0;
    while i < alive.len()
        invariant
            i <= alive@.len(),
            out@.len() == i,
            forall|j: int|
                0 <= j < i ==> (#[trigger] out@[j]).0@ == alive@[j]@ && out@[j].1@ == client.live_url(
                    alive@[j]@,
                    source.stream_id as nat,
                    "m3u8"@,
                ),
        decreases alive@.len() - i,
    {
        out.push((alive[i].clone(), client.stream_url(&alive[i], source.stream_id, "m3u8")));
        i = i + 1;
    }
    proof {
        assert(target_texts(out@) =~= source_targets(*client, kind, source@, texts(alive@)));
    }
    out
}

/// How many probes the first sweep runs at a time: one or two, and one connection fewer than
/// the provider allows where that leaves any.
pub fn probe_budget(max_cons: u32) -> (r: u32)
    ensures
        r == if max_cons == 0 {
            DEFAULT_PROBE_BUDGET
        } else if max_cons <= 2 {
            1
        } else {
            2
        },
        1 <= r <= 2,
{
    if max_cons == 0 {
        DEFAULT_PROBE_BUDGET
    } else if max_cons <= 2 {
        1
    } else {
        2
    }
}

/// The seconds between two rounds of probes; none where there are to be none. A number in
/// the configuration decides, zero for none; else there are rounds where the provider allows
/// three connections or more.
pub fn freshness_interval(override_secs: Option<u64>, max_cons: u32) -> (r: Option<u64>)
    ensures
        r == match override_secs {
            Some(n) => if n == 0 {
                None
            } else {
                Some(n)
            },
            None => if max_cons >= 3 {
                Some(FRESHNESS_AUTO_INTERVAL_SECS)
            } else {
                None
            },
        },
{
    match override_secs {
        Some(n) => if n == 0 {
            None
        } else {
            Some(n)
        },
        None => if max_cons >= 3 {
            Some(FRESHNESS_AUTO_INTERVAL_SECS)
        } else {
            None
        },
    }
}

/// How many probes may run at a time: at most two, and always one connection fewer than
/// those that plays leave.
pub open spec fn spare_probes(max_cons: nat, active_plays: nat) -> nat {
    if max_cons <= active_plays + 1 {
        0
    } else if max_cons - active_plays - 1 >= 2 {
        2
    } else {
        1
    }
}

pub fn freshness_cap(max_cons: u32, active_plays: usize) -> (r: u32)
    ensures
        r == spare_probes(max_cons as nat, active_plays as nat),
{
    if active_plays >= max_cons as usize {
        return 0;
    }
    let left: u32 = max_cons - active_plays as u32 - 1;
    if left >= 2 {
        2
    } else {
        left
    }
}

/// A probe may start now.
pub fn has_capacity(max_cons: u32, initial_max_cons: u32, active_plays: usize, running: usize) -> (r: bool)
    ensures
        r == (running < spare_probes(
            if max_cons >= initial_max_cons {
                max_cons as nat
            } else {
                initial_max_cons as nat
            },
            active_plays as nat,
        )),
{
    let most: u32 = if max_cons >= initial_max_cons {
        max_cons
    } else {
        initial_max_cons
    };
    running < freshness_cap(most, active_plays) as usize
}

/// Whether a measurement is too old, or missing.
pub fn needs_reprobe(most_recent: Option<i128>, now: i128, ttl_secs: u64) -> (r: bool)
    ensures
        r == match most_recent {
            Some(at) => elapsed_secs(now as int, at as int) >= ttl_secs,
            None => true,
        },
{
    match most_recent {
        Some(at) => seconds_since(now, at) >= ttl_secs,
        None => true,
    }
}

/// What a background loop does next.
#[derive(Debug, Clone, Copy, PartialEq, Eq, Structural)]
pub enum FreshnessStep {
    /// Look again in so many seconds.
    Sleep { secs: u64 },
    /// A round of probes, with so many connections at first, and then a pause.
    Round { max_cons: u32, pause_secs: u64 },
}

/// While the configuration is silent and the provider's limit unknown, the loop looks again
/// after five seconds; while there are to be no rounds, after a minute.
pub fn freshness_step(override_secs: Option<u64>, max_cons: u32) -> (r: FreshnessStep)
    ensures
        r == if override_secs is None && max_cons == 0 {
            FreshnessStep::Sleep { secs: 5 }
        } else if override_secs == Some(0u64) || (override_secs is None && max_cons < 3) {
            FreshnessStep::Sleep { secs: 60 }
        } else {
            FreshnessStep::Round {
                max_cons: if max_cons > 0 {
                    max_cons
                } else {
                    2
                },
                pause_secs: match override_secs {
                    Some(n) => n,
                    None => FRESHNESS_AUTO_INTERVAL_SECS,
                },
            }
        },
{
    if override_secs.is_none() && max_cons == 0 {
        return FreshnessStep::Sleep { secs: 5 };
    }
    match freshness_interval(override_secs, max_cons) {
        Some(n) => FreshnessStep::Round {
            max_cons: if max_cons > 0 {
                max_cons
            } else {
                2
            },
            pause_secs: n,
        },
        None => FreshnessStep::Sleep { secs: 60 },
    }
}

/// Probes and plays together never take the provider's last connection.
pub proof fn law_one_connection_stays_free(max_cons: nat, active_plays: nat)
    ensures
        spare_probes(max_cons, active_plays) > 0 ==> spare_probes(max_cons, active_plays) + active_plays + 1 <= max_cons,
        spare_probes(max_cons, active_plays) <= 2,
{
}

/// A line that announces a segment tells how long it plays, whatever its title.
pub proof fn law_durations_are_announced(d: Seq<char>, title: Seq<char>)
    requires
        !d.contains(','),
    ensures
        extinf("#EXTINF:"@ + d + seq![','] + title) == seconds_of(d),
        extinf("#EXTINF:"@ + d) == seconds_of(d),
{
    reveal_strlit("#EXTINF:");
    let all = "#EXTINF:"@ + d + seq![','] + title;
    let rest = d + seq![','] + title;
    assert(all.skip(8) =~= rest);
    assert(all.subrange(0, 8) =~= "#EXTINF:"@);
    lemma_index_or_len(rest, ',');
    let i = index_or_len(rest, ',');
    assert(rest[d.len() as int] == ',');
    if i < d.len() {
        assert(rest[i] == d[i]);
        assert(d.contains(d[i]));
    }
    assert(i == d.len());
    assert(rest.take(i) =~= d);
    let short = "#EXTINF:"@ + d;
    assert(short.skip(8) =~= d);
    assert(short.subrange(0, 8) =~= "#EXTINF:"@);
    lemma_index_or_len(d, ',');
    if index_or_len(d, ',') < d.len() {
        assert(d.contains(d[index_or_len(d, ',')]));
    }
    assert(d.take(d.len() as int) =~= d);
}

proof fn lemma_segment_behind(pre: Seq<Seq<char>>, ls: Seq<Seq<char>>, i: int, pending: Option<Single>)
    requires
        0 <= i <= ls.len(),
    ensures
        segment_from(pre + ls, pre.len() + i, pending) == segment_from(ls, i, pending),
    decreases ls.len() - i,
{
    if i < ls.len() {
        assert((pre + ls)[pre.len() + i] == ls[i]);
        lemma_segment_behind(pre, ls, i + 1, pending);
        lemma_segment_behind(pre, ls, i + 1, latest(pending, extinf(trim(ls[i]))));
    }
}

/// The first segment is the reference behind the first announcement: what stands before the
/// announcement, and comments behind it, do not count.
pub proof fn law_first_segments_are_found(
    head: Seq<Seq<char>>,
    info: Seq<char>,
    comments: Seq<Seq<char>>,
    reference: Seq<char>,
    rest: Seq<Seq<char>>,
    d: Single,
)
    requires
        forall|i: int| 0 <= i < head.len() ==> !starts_with(trim(#[trigger] head[i]), "#EXTINF:"@),
        starts_with(trim(info), "#EXTINF:"@),
        extinf(trim(info)) == Some(d),
        forall|i: int|
            0 <= i < comments.len() ==> !starts_with(trim(#[trigger] comments[i]), "#EXTINF:"@) && (trim(comments[i]).len() == 0
                || trim(comments[i])[0] == '#'),
        trim(reference).len() > 0,
        trim(reference)[0] != '#',
    ensures
        segment_from(head + (seq![info] + (comments + (seq![reference] + rest))), 0, None) == Some((d, trim(reference))),
{
    let tail = seq![reference] + rest;
    let behind = comments + tail;
    let from_info = seq![info] + behind;
    lemma_skip_head(head, from_info, 0);
    lemma_segment_behind(head, from_info, 0, None);
    assert(from_info[0] == info);
    lemma_segment_behind(seq![info], behind, 0, Some(d));
    lemma_skip_comments(comments, tail, 0, d);
    lemma_segment_behind(comments, tail, 0, Some(d));
    reveal_strlit("#EXTINF:");
    assert(tail[0] == reference);
    assert("#EXTINF:"@[0] == '#');
    if starts_with(trim(reference), "#EXTINF:"@) {
        assert(trim(reference).subrange(0, 8)[0] == '#');
    }
}

proof fn lemma_skip_head(head: Seq<Seq<char>>, ls: Seq<Seq<char>>, i: int)
    requires
        0 <= i <= head.len(),
        forall|k: int| 0 <= k < head.len() ==> !starts_with(trim(#[trigger] head[k]), "#EXTINF:"@),
    ensures
        segment_from(head + ls, i, None) == segment_from(head + ls, head.len() as int, None),
    decreases head.len() - i,
{
    if i < head.len() {
        assert((head + ls)[i] == head[i]);
        lemma_skip_head(head, ls, i + 1);
    }
}

proof fn lemma_skip_comments(comments: Seq<Seq<char>>, ls: Seq<Seq<char>>, i: int, d: Single)
    requires
        0 <= i <= comments.len(),
        forall|k: int|
            0 <= k < comments.len() ==> !starts_with(trim(#[trigger] comments[k]), "#EXTINF:"@) && (trim(comments[k]).len() == 0
                || trim(comments[k])[0] == '#'),
    ensures
        segment_from(comments + ls, i, Some(d)) == segment_from(comments + ls, comments.len() as int, Some(d)),
    decreases comments.len() - i,
{
    if i < comments.len() {
        assert((comments + ls)[i] == comments[i]);
        lemma_skip_comments(comments, ls, i + 1, d);
    }
}

/// What a segment tells of its picture is taken over as it is, with the bit rate and the time; a
/// segment below ten thousand bytes, below two hundred kilobits per second, or with a picture
/// smaller than 320 by 240 tells nothing.
pub proof fn law_samples_tell_of_their_segment(bytes: Seq<u8>, seconds: Single, at: i128, c: ClassView)
    requires
        ts_class(bytes) == Some(c),
    ensures
        tv_sample(bytes, seconds, at) matches Some(s) ==> {
            &&& bytes.len() >= 10000
            &&& c.width == Some(s.width)
            &&& c.height == Some(s.height)
            &&& s.width * s.height >= 320 * 240
            &&& s.at == at
            &&& s.codec == Some("h264"@) <==> c.video_codec == Some(VideoCodec::H264)
            &&& s.codec == Some("hevc"@) <==> c.video_codec == Some(VideoCodec::Hevc)
            &&& s.pix_fmt == c.pix_fmt
            &&& s.color_transfer == c.color_transfer
            &&& s.framerate == c.framerate
            &&& s.dvb_unsafe == Some(c.dvb_unsafe)
            &&& s.bitrate_kbps == Some(kbps_down(bytes.len(), seconds))
            &&& kbps_down(bytes.len(), seconds) >= 200
            &&& s.sample_rate_hz is None
            &&& s.audio_channels is None
            &&& s.source == SampleSource::Sweep
        },
        bytes.len() >= 10000 && c.width is Some && c.height is Some && (c.video_codec == Some(VideoCodec::H264) || c.video_codec
            == Some(VideoCodec::Hevc)) && kbps_down(bytes.len(), seconds) >= 200 && c.width->0 * c.height->0 >= 320 * 240
            ==> tv_sample(bytes, seconds, at) is Some,
{
    reveal_strlit("h264");
    reveal_strlit("hevc");
    assert("h264"@[1] == '2' && "hevc"@[1] == 'e');
}

/// Television is probed on every host that is alive, radio that comes as a playlist at its own URL,
/// and other radio not at all.
pub proof fn law_probes_go_to_living_hosts(client: XtreamClient, s: SourceView, alive: Seq<Seq<char>>, k: int)
    requires
        0 <= k < alive.len(),
    ensures
        source_targets(client, ChannelKind::Tv, s, alive).len() == alive.len(),
        source_targets(client, ChannelKind::Tv, s, alive)[k] == (
            alive[k],
            client.live_url(alive[k], s.stream_id as nat, "m3u8"@),
        ),
        (s.direct_source matches Some(u) && s.radio_format == Some(RadioFormat::Hls)) ==> source_targets(
            client,
            ChannelKind::Radio,
            s,
            alive,
        ).map_values(|t: (Seq<char>, Seq<char>)| t.1) == seq![s.direct_source->0],
        s.radio_format != Some(RadioFormat::Hls) ==> source_targets(client, ChannelKind::Radio, s, alive).len() == 0,
        s.direct_source is None ==> source_targets(client, ChannelKind::Radio, s, alive).len() == 0,
{
}

/// A playlist that ends, with at most two segments, is a stand-in; one that goes on is not.
pub proof fn law_short_recordings_are_stand_ins(text: Seq<char>)
    ensures
        !contains(text, "#EXT-X-ENDLIST"@) ==> !placeholder(text),
        contains(text, "#EXT-X-ENDLIST"@) ==> placeholder(text) == (lines(text).filter(
            |l: Seq<char>| starts_with(l, "#EXTINF"@),
        ).len() <= 2),
{
    lemma_lines_starting(lines(text), "#EXTINF"@);
}

proof fn lemma_lines_starting(ls: Seq<Seq<char>>, pat: Seq<char>)
    ensures
        lines_starting(ls, pat) == ls.filter(|l: Seq<char>| starts_with(l, pat)).len(),
    decreases ls.len(),
{
    reveal(Seq::filter);
    if ls.len() > 0 {
        lemma_lines_starting(ls.drop_last(), pat);
    }
}

/// Sound is told of by its frame header.
pub proof fn law_sound_tells_of_its_frames(
    h: AdtsHeader,
    flags: u8,
    private: bool,
    rest: u8,
    tail: u8,
    last: u8,
    more: Seq<u8>,
    seconds: Single,
    at: i128,
)
    requires
        1 <= h.profile <= 4,
        h.sampling_frequency_index < 16,
        h.channel_configuration < 8,
        h.frame_length < 8192,
        flags < 16,
        rest < 16,
        tail < 32,
    ensures
        ({
            let r = audio_sample(adts_bytes(h, flags, private, rest, tail, last) + more, seconds, at);
            &&& r is Some
            &&& r->0.at == at
            &&& r->0.codec == Some("aac"@)
            &&& r->0.width == 0 && r->0.height == 0
            &&& h.sampling_frequency_index == 3 ==> r->0.sample_rate_hz == Some(48000u32)
            &&& h.sampling_frequency_index == 4 ==> r->0.sample_rate_hz == Some(44100u32)
            &&& h.sampling_frequency_index == 5 ==> r->0.sample_rate_hz == Some(32000u32)
            &&& h.sampling_frequency_index > 12 ==> r->0.sample_rate_hz is None
            &&& 1 <= h.channel_configuration <= 6 ==> r->0.audio_channels == Some(h.channel_configuration)
            &&& h.channel_configuration == 7 ==> r->0.audio_channels == Some(8u8)
            &&& h.channel_configuration == 0 ==> r->0.audio_channels is None
        }),
{
    law_headers_are_read_back(h, flags, private, rest, tail, last, more);
}

} // verus!
